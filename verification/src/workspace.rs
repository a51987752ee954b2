//! The state behind the main window: the notes, which one is open, the
//! sidebar filter and search, and the editor's view mode, with the
//! operations the window's controls perform on it. The window itself (GTK
//! widgets, dialogs, timers) lives in the application around the library.

use vstd::prelude::*;
use crate::models::{
    display_title_of, earlier, Timestamp, filter_matches, matches_query_of, same_note, FilterMode, Note,
};
use crate::models::is_uuid_text;
use crate::storage::Settings;
use crate::tags::{
    is_tag_summary, parse_tags, parse_tags_of, tag_summary, tags_field, tags_field_text, views,
};
use crate::models::reading_minutes;
use crate::storage::spaces_to_underscores;
use crate::text::{chars_of, count_words, decimal, push_decimal, to_lowercase, trim, trimmed, unicode_lowercase};

verus! {

/// How the editor shows the open note.
#[derive(Debug, Clone, Copy, PartialEq, Eq, Structural)]
pub enum ViewMode {
    Edit,
    Preview,
    Split,
}

/// The mode after `m` when the preview is toggled: edit, preview, split,
/// and back to edit.
pub open spec fn next_view_mode(m: ViewMode) -> ViewMode {
    match m {
        ViewMode::Edit => ViewMode::Preview,
        ViewMode::Preview => ViewMode::Split,
        ViewMode::Split => ViewMode::Edit,
    }
}

/// The name a view mode is saved under.
pub open spec fn view_mode_name(m: ViewMode) -> Seq<char> {
    match m {
        ViewMode::Edit => "edit"@,
        ViewMode::Preview => "preview"@,
        ViewMode::Split => "split"@,
    }
}

/// The view mode a saved name stands for: `preview` and `split` name
/// theirs, anything else (or nothing) means edit.
pub open spec fn view_mode_from_name(name: Option<Seq<char>>) -> ViewMode {
    match name {
        Some(s) => if s == "preview"@ {
            ViewMode::Preview
        } else if s == "split"@ {
            ViewMode::Split
        } else {
            ViewMode::Edit
        },
        None => ViewMode::Edit,
    }
}

/// The text of an optional string.
pub open spec fn opt_text(o: Option<String>) -> Option<Seq<char>> {
    match o {
        Some(s) => Some(s@),
        None => None,
    }
}

impl ViewMode {
    /// The mode after this one when the preview is toggled.
    pub fn next(self) -> (r: ViewMode)
        ensures
            r == next_view_mode(self),
    {
        match self {
            ViewMode::Edit => ViewMode::Preview,
            ViewMode::Preview => ViewMode::Split,
            ViewMode::Split => ViewMode::Edit,
        }
    }

    /// The name this mode is saved under.
    pub fn name(self) -> (r: String)
        ensures
            r@ == view_mode_name(self),
    {
        match self {
            ViewMode::Edit => String::from_str("edit"),
            ViewMode::Preview => String::from_str("preview"),
            ViewMode::Split => String::from_str("split"),
        }
    }

    /// The mode a saved name stands for.
    pub fn from_setting(name: &Option<String>) -> (r: ViewMode)
        ensures
            r == view_mode_from_name(opt_text(*name)),
    {
        match name {
            Some(s) => {
                let preview = String::from_str("preview");
                let split = String::from_str("split");
                if *s == preview {
                    ViewMode::Preview
                } else if *s == split {
                    ViewMode::Split
                } else {
                    ViewMode::Edit
                }
            },
            None => ViewMode::Edit,
        }
    }
}

/// The first index at or after `i` of a note with id `id`, or -1.
pub open spec fn id_index_from(notes: Seq<Note>, id: Seq<char>, i: int) -> int
    decreases notes.len() - i,
{
    if i < 0 || i >= notes.len() {
        -1
    } else if notes[i].id@ == id {
        i
    } else {
        id_index_from(notes, id, i + 1)
    }
}

/// The index of the first note with id `id`, or -1.
pub open spec fn id_index(notes: Seq<Note>, id: Seq<char>) -> int {
    id_index_from(notes, id, 0)
}

/// The first index at or after `i` of a note with id `id` that is not in
/// the trash, or -1.
pub open spec fn live_id_index_from(notes: Seq<Note>, id: Seq<char>, i: int) -> int
    decreases notes.len() - i,
{
    if i < 0 || i >= notes.len() {
        -1
    } else if notes[i].id@ == id && !notes[i].is_trashed {
        i
    } else {
        live_id_index_from(notes, id, i + 1)
    }
}

/// The first index at or after `i` of a note not in the trash, or -1.
pub open spec fn untrashed_index_from(notes: Seq<Note>, i: int) -> int
    decreases notes.len() - i,
{
    if i < 0 || i >= notes.len() {
        -1
    } else if !notes[i].is_trashed {
        i
    } else {
        untrashed_index_from(notes, i + 1)
    }
}

/// The note to open at start-up: the remembered note if it is still there
/// and not in the trash, else the first note not in the trash.
pub open spec fn initial_active_id(notes: Seq<Note>, last: Option<Seq<char>>) -> Option<Seq<char>> {
    let remembered = match last {
        Some(id) => live_id_index_from(notes, id, 0),
        None => -1,
    };
    if remembered >= 0 {
        Some(notes[remembered].id@)
    } else if untrashed_index_from(notes, 0) >= 0 {
        Some(notes[untrashed_index_from(notes, 0)].id@)
    } else {
        None
    }
}

/// The index found for `id` is that of a note with that id, and when
/// none is found no note from `i` on has it.
pub proof fn lemma_id_index_from(notes: Seq<Note>, id: Seq<char>, i: int)
    requires
        0 <= i,
    ensures
        id_index_from(notes, id, i) == -1 || (i <= id_index_from(notes, id, i) < notes.len()
            && notes[id_index_from(notes, id, i)].id@ == id),
        id_index_from(notes, id, i) == -1 ==> forall|k: int|
            i <= k < notes.len() ==> #[trigger] notes[k].id@ != id,
    decreases notes.len() - i,
{
    if i < notes.len() && notes[i].id@ != id {
        lemma_id_index_from(notes, id, i + 1);
    }
}

/// The index found for a live note with `id` is within the notes.
pub proof fn lemma_live_id_index_from(notes: Seq<Note>, id: Seq<char>, i: int)
    requires
        0 <= i,
    ensures
        live_id_index_from(notes, id, i) == -1 || (i <= live_id_index_from(notes, id, i)
            < notes.len()),
    decreases notes.len() - i,
{
    if i < notes.len() && !(notes[i].id@ == id && !notes[i].is_trashed) {
        lemma_live_id_index_from(notes, id, i + 1);
    }
}

/// The index found for a note outside the trash is within the notes.
pub proof fn lemma_untrashed_index_from(notes: Seq<Note>, i: int)
    requires
        0 <= i,
    ensures
        untrashed_index_from(notes, i) == -1 || (i <= untrashed_index_from(notes, i)
            < notes.len()),
    decreases notes.len() - i,
{
    if i < notes.len() && notes[i].is_trashed {
        lemma_untrashed_index_from(notes, i + 1);
    }
}

/// Whether a note passes the sidebar filter and the search.
pub open spec fn is_listed(filter: FilterMode, query: Seq<char>, n: Note) -> bool {
    filter_matches(filter, n.tags@, n.is_pinned, n.is_trashed) && matches_query_of(
        n.title@,
        n.content@,
        n.tags@,
        query,
    )
}

/// Whether note `i` is listed before note `j`: pinned notes first, then
/// the more recently updated, and notes that tie keep their order.
pub open spec fn listed_before(notes: Seq<Note>, i: int, j: int) -> bool {
    let a = notes[i];
    let b = notes[j];
    ||| a.is_pinned && !b.is_pinned
    ||| a.is_pinned == b.is_pinned && earlier(b.updated_at, a.updated_at)
    ||| a.is_pinned == b.is_pinned && a.updated_at == b.updated_at && i < j
}

/// Whether index `i` occurs in `order`.
pub open spec fn lists(order: Seq<usize>, i: int) -> bool {
    exists|k: int| 0 <= k < order.len() && order[k] as int == i
}

/// Whether the indices of `order` are all note indices, ordered by
/// `listed_before`.
pub open spec fn is_sorted_listing(notes: Seq<Note>, order: Seq<usize>) -> bool {
    &&& forall|k: int| 0 <= k < order.len() ==> (#[trigger] order[k] as int) < notes.len()
    &&& forall|a: int, b: int|
        0 <= a < b < order.len() ==> listed_before(
            notes,
            #[trigger] order[a] as int,
            #[trigger] order[b] as int,
        )
}

/// Whether `order` lists, by index, exactly the notes that pass `filter`
/// and `query`, in the order the note list shows them.
pub open spec fn is_listing(notes: Seq<Note>, filter: FilterMode, query: Seq<char>, order: Seq<usize>) -> bool {
    &&& is_sorted_listing(notes, order)
    &&& forall|i: int|
        0 <= i < notes.len() ==> (is_listed(filter, query, #[trigger] notes[i]) <==> lists(order, i))
}

/// The note list: the indices of the notes that pass `filter` and `query`,
/// pinned notes first, then the most recently updated, ties in their
/// stored order. (There is exactly one such list: `lemma_listing_unique`.)
pub open spec fn listing(notes: Seq<Note>, filter: FilterMode, query: Seq<char>) -> Seq<usize> {
    choose|order: Seq<usize>| is_listing(notes, filter, query, order)
}

/// `listed_before` is a strict total order on the notes.
pub proof fn lemma_listed_before_order(notes: Seq<Note>, i: int, j: int, k: int)
    requires
        0 <= i < notes.len(),
        0 <= j < notes.len(),
        0 <= k < notes.len(),
    ensures
        !listed_before(notes, i, i),
        i != j ==> (listed_before(notes, i, j) || listed_before(notes, j, i)),
        !(listed_before(notes, i, j) && listed_before(notes, j, i)),
        listed_before(notes, i, j) && listed_before(notes, j, k) ==> listed_before(notes, i, k),
{
}

/// The id of the first note of the list, if any.
pub open spec fn first_listed_id(notes: Seq<Note>, filter: FilterMode, query: Seq<char>) -> Option<Seq<char>> {
    let o = listing(notes, filter, query);
    if o.len() > 0 {
        Some(notes[o[0] as int].id@)
    } else {
        None
    }
}

/// Some listing always exists, so `listing` is one.
pub proof fn lemma_listing_is_listing(notes: Seq<Note>, filter: FilterMode, query: Seq<char>)
    requires
        notes.len() <= usize::MAX,
    ensures
        is_listing(notes, filter, query, listing(notes, filter, query)),
{
    let w = listing_witness(notes, filter, query, notes.len() as int);
    assert(is_listing(notes, filter, query, w));
}

/// A listing of the notes before index `n`, built by insertion.
proof fn listing_witness(notes: Seq<Note>, filter: FilterMode, query: Seq<char>, n: int) -> (o: Seq<usize>)
    requires
        0 <= n <= notes.len(),
        notes.len() <= usize::MAX,
    ensures
        is_sorted_listing(notes, o),
        forall|k: int| 0 <= k < o.len() ==> (#[trigger] o[k] as int) < n,
        forall|j: int|
            0 <= j < n ==> (is_listed(filter, query, #[trigger] notes[j]) <==> lists(o, j)),
        forall|j: int| n <= j ==> !lists(o, j),
    decreases n,
{
    if n == 0 {
        Seq::empty()
    } else {
        let prev = listing_witness(notes, filter, query, n - 1);
        let i = n - 1;
        if !is_listed(filter, query, notes[i]) {
            prev
        } else {
            let p = insertion_point(notes, prev, i);
            let r = prev.insert(p, i as usize);
            assert forall|k: int| 0 <= k < r.len() implies (#[trigger] r[k] as int) < notes.len() && (r[k] as int) < n by {
                if k < p {
                    assert(r[k] == prev[k]);
                } else if k > p {
                    assert(r[k] == prev[k - 1]);
                }
            }
            assert forall|a: int, b: int| 0 <= a < b < r.len() implies listed_before(
                notes,
                #[trigger] r[a] as int,
                #[trigger] r[b] as int,
            ) by {
                if b < p {
                    assert(r[a] == prev[a] && r[b] == prev[b]);
                } else if b == p {
                    assert(r[a] == prev[a]);
                } else if a < p {
                    assert(r[a] == prev[a] && r[b] == prev[b - 1]);
                } else if a == p {
                    assert(r[b] == prev[b - 1]);
                    if b - 1 > p {
                        assert(listed_before(notes, prev[p] as int, prev[b - 1] as int));
                        lemma_listed_before_order(notes, i, prev[p] as int, prev[b - 1] as int);
                    }
                } else {
                    assert(r[a] == prev[a - 1] && r[b] == prev[b - 1]);
                }
            }
            assert forall|j: int| #[trigger] lists(r, j) <==> (lists(prev, j) || j == i) by {
                if lists(r, j) {
                    let k = choose|k: int| 0 <= k < r.len() && r[k] as int == j;
                    if k < p {
                        assert(prev[k] as int == j);
                    } else if k > p {
                        assert(prev[k - 1] as int == j);
                    }
                }
                if lists(prev, j) {
                    let k = choose|k: int| 0 <= k < prev.len() && prev[k] as int == j;
                    if k < p {
                        assert(r[k] as int == j);
                    } else {
                        assert(r[k + 1] as int == j);
                    }
                }
                if j == i {
                    assert(r[p] as int == j);
                }
            }
            r
        }
    }
}

/// Where index `i` goes into the sorted listing `o` of smaller indices.
proof fn insertion_point(notes: Seq<Note>, o: Seq<usize>, i: int) -> (p: int)
    requires
        0 <= i < notes.len(),
        is_sorted_listing(notes, o),
        forall|k: int| 0 <= k < o.len() ==> (#[trigger] o[k] as int) < i,
    ensures
        0 <= p <= o.len(),
        forall|a: int| 0 <= a < p ==> listed_before(notes, #[trigger] o[a] as int, i),
        p < o.len() ==> listed_before(notes, i, o[p] as int),
    decreases o.len(),
{
    if o.len() == 0 {
        0
    } else if listed_before(notes, i, o[0] as int) {
        0
    } else {
        lemma_listed_before_order(notes, i, o[0] as int, i);
        let t = o.drop_first();
        assert(is_sorted_listing(notes, t)) by {
            assert forall|a: int, b: int| 0 <= a < b < t.len() implies listed_before(
                notes,
                #[trigger] t[a] as int,
                #[trigger] t[b] as int,
            ) by {
                assert(listed_before(notes, o[a + 1] as int, o[b + 1] as int));
            }
        }
        let q = insertion_point(notes, t, i);
        assert forall|a: int| 0 <= a < q + 1 implies listed_before(notes, #[trigger] o[a] as int, i) by {
            if a > 0 {
                assert(o[a] == t[a - 1]);
            }
        }
        q + 1
    }
}

/// Two sorted listings of the same indices are the same listing.
pub proof fn lemma_sorted_listings_equal(notes: Seq<Note>, s1: Seq<usize>, s2: Seq<usize>)
    requires
        is_sorted_listing(notes, s1),
        is_sorted_listing(notes, s2),
        forall|i: int| lists(s1, i) <==> lists(s2, i),
    ensures
        s1 == s2,
    decreases s1.len(),
{
    if s1.len() == 0 {
        if s2.len() > 0 {
            assert(lists(s2, s2[0] as int));
        }
        assert(s1 =~= s2);
    } else {
        assert(lists(s1, s1[0] as int));
        let x = s1[0];
        let y = s2[0];
        if x != y {
            assert(lists(s2, x as int));
            let k2 = choose|k: int| 0 <= k < s2.len() && s2[k] as int == x as int;
            assert(k2 > 0);
            assert(listed_before(notes, s2[0] as int, s2[k2] as int));
            assert(lists(s2, y as int));
            assert(lists(s1, y as int));
            let k1 = choose|k: int| 0 <= k < s1.len() && s1[k] as int == y as int;
            assert(k1 > 0);
            assert(listed_before(notes, s1[0] as int, s1[k1] as int));
            lemma_listed_before_order(notes, x as int, y as int, x as int);
        }
        let t1 = s1.drop_first();
        let t2 = s2.drop_first();
        assert forall|i: int| lists(t1, i) <==> lists(t2, i) by {
            if lists(t1, i) {
                let k = choose|k: int| 0 <= k < t1.len() && t1[k] as int == i;
                assert(s1[k + 1] as int == i);
                assert(lists(s1, i));
                assert(lists(s2, i));
                let j = choose|j: int| 0 <= j < s2.len() && s2[j] as int == i;
                if j == 0 {
                    assert(listed_before(notes, s1[0] as int, s1[k + 1] as int));
                    lemma_listed_before_order(notes, i, i, i);
                }
                assert(t2[j - 1] as int == i);
            }
            if lists(t2, i) {
                let k = choose|k: int| 0 <= k < t2.len() && t2[k] as int == i;
                assert(s2[k + 1] as int == i);
                assert(lists(s2, i));
                assert(lists(s1, i));
                let j = choose|j: int| 0 <= j < s1.len() && s1[j] as int == i;
                if j == 0 {
                    assert(listed_before(notes, s2[0] as int, s2[k + 1] as int));
                    lemma_listed_before_order(notes, i, i, i);
                }
                assert(t1[j - 1] as int == i);
            }
        }
        assert(is_sorted_listing(notes, t1)) by {
            assert forall|a: int, b: int| 0 <= a < b < t1.len() implies listed_before(
                notes,
                #[trigger] t1[a] as int,
                #[trigger] t1[b] as int,
            ) by {
                assert(listed_before(notes, s1[a + 1] as int, s1[b + 1] as int));
            }
        }
        assert(is_sorted_listing(notes, t2)) by {
            assert forall|a: int, b: int| 0 <= a < b < t2.len() implies listed_before(
                notes,
                #[trigger] t2[a] as int,
                #[trigger] t2[b] as int,
            ) by {
                assert(listed_before(notes, s2[a + 1] as int, s2[b + 1] as int));
            }
        }
        lemma_sorted_listings_equal(notes, t1, t2);
        assert(s1 =~= s2) by {
            assert forall|k: int| 0 <= k < s1.len() implies s1[k] == s2[k] by {
                if k > 0 {
                    assert(t1[k - 1] == t2[k - 1]);
                }
            }
        }
    }
}

/// The note list is determined by the notes, the filter and the query:
/// any two orders that list them as the sidebar does are the same.
pub proof fn lemma_listing_unique(
    notes: Seq<Note>,
    filter: FilterMode,
    query: Seq<char>,
    o1: Seq<usize>,
    o2: Seq<usize>,
)
    requires
        is_listing(notes, filter, query, o1),
        is_listing(notes, filter, query, o2),
    ensures
        o1 == o2,
{
    assert forall|i: int| lists(o1, i) <==> lists(o2, i) by {
        if lists(o1, i) {
            let k = choose|k: int| 0 <= k < o1.len() && o1[k] as int == i;
            assert(0 <= i < notes.len());
            assert(is_listed(filter, query, notes[i]));
        }
        if lists(o2, i) {
            let k = choose|k: int| 0 <= k < o2.len() && o2[k] as int == i;
            assert(0 <= i < notes.len());
            assert(is_listed(filter, query, notes[i]));
        }
    }
    lemma_sorted_listings_equal(notes, o1, o2);
}

/// Whether note `i` is listed before note `j`.
fn is_listed_before(notes: &Vec<Note>, i: usize, j: usize) -> (r: bool)
    requires
        i < notes@.len(),
        j < notes@.len(),
    ensures
        r == listed_before(notes@, i as int, j as int),
{
    let a = &notes[i];
    let b = &notes[j];
    if a.is_pinned != b.is_pinned {
        return a.is_pinned;
    }
    if b.updated_at.is_before(&a.updated_at) {
        return true;
    }
    a.updated_at == b.updated_at && i < j
}

/// `new` holds the notes of `old`, but for the one at index `k`.
pub open spec fn same_except(old: Seq<Note>, new: Seq<Note>, k: int) -> bool {
    &&& new.len() == old.len()
    &&& forall|j: int| 0 <= j < old.len() && j != k ==> #[trigger] new[j] == old[j]
}

/// The note `n` put in the trash (`flag`) or taken out of it, updated at
/// `at`.
pub open spec fn with_trashed(n: Note, flag: bool, at: Timestamp) -> Note {
    Note { is_trashed: flag, updated_at: at, ..n }
}

/// The notes of `notes` whose id is not `id`, in order.
pub open spec fn without_id(notes: Seq<Note>, id: Seq<char>) -> Seq<Note> {
    notes.filter(|n: Note| n.id@ != id)
}

/// The notes of `notes` that are not in the trash, in order.
pub open spec fn untrashed(notes: Seq<Note>) -> Seq<Note> {
    notes.filter(|n: Note| !n.is_trashed)
}

/// The notes of `notes` that are in the trash, in order.
pub open spec fn trashed(notes: Seq<Note>) -> Seq<Note> {
    notes.filter(|n: Note| n.is_trashed)
}

/// The pinned notes of `notes` that are not in the trash, in order.
pub open spec fn favorites(notes: Seq<Note>) -> Seq<Note> {
    notes.filter(|n: Note| !n.is_trashed && n.is_pinned)
}

/// Filtering a prefix one element longer adds that element when it passes.
pub proof fn lemma_filter_take_step<A>(s: Seq<A>, p: spec_fn(A) -> bool, j: int)
    requires
        0 <= j < s.len(),
    ensures
        s.take(j + 1).filter(p) == (if p(s[j]) {
            s.take(j).filter(p).push(s[j])
        } else {
            s.take(j).filter(p)
        }),
{
    reveal(Seq::filter);
    assert(s.take(j + 1).drop_last() =~= s.take(j));
    assert(s.take(j + 1).last() == s[j]);
}

/// A sequence filtered in full is its whole prefix filtered.
pub proof fn lemma_filter_take_all<A>(s: Seq<A>, p: spec_fn(A) -> bool)
    ensures
        s.take(s.len() as int).filter(p) == s.filter(p),
{
    assert(s.take(s.len() as int) =~= s);
}

/// The position of the first note with id `id` in `notes`, when there is one.
fn position_of(notes: &Vec<Note>, id: &Option<String>) -> (r: Option<usize>)
    ensures
        match r {
            Some(k) => id matches Some(s) && k as int == id_index(notes@, s@) && k < notes@.len(),
            None => id is None || id_index(notes@, id->0@) == -1,
        },
{
    match id {
        Some(s) => {
            proof {
                lemma_id_index_from(notes@, s@, 0);
            }
            find_note(notes, s)
        },
        None => None,
    }
}

/// Removes from `notes`, in place, the notes with id `id`; the others keep
/// their order.
fn remove_with_id(notes: &mut Vec<Note>, id: &String)
    ensures
        final(notes)@ == without_id(old(notes)@, id@),
{
    let ghost orig = notes@;
    let ghost p = |n: Note| n.id@ != id@;
    let mut i: usize = 0;
    let ghost mut j: int = 0;
    while i < notes.len()
        invariant
            0 <= j <= orig.len(),
            notes@ == orig.take(j).filter(p) + orig.skip(j),
            i == orig.take(j).filter(p).len(),
            p == (|n: Note| n.id@ != id@),
        decreases notes@.len() - i,
    {
        proof {
            assert(notes@[i as int] == orig[j]);
            lemma_filter_take_step(orig, p, j);
        }
        if notes[i].id == *id {
            notes.remove(i);
            proof {
                assert(notes@ =~= orig.take(j + 1).filter(p) + orig.skip(j + 1));
            }
        } else {
            proof {
                assert(notes@ =~= orig.take(j + 1).filter(p) + orig.skip(j + 1));
            }
            i = i + 1;
        }
        proof {
            j = j + 1;
        }
    }
    proof {
        assert(j == orig.len());
        lemma_filter_take_all(orig, p);
        assert(notes@ =~= orig.filter(p));
    }
}

/// Removes from `notes`, in place, the notes in the trash, and says how
/// many there were; the others keep their order.
fn remove_trashed(notes: &mut Vec<Note>) -> (removed: usize)
    ensures
        final(notes)@ == untrashed(old(notes)@),
        removed == trashed(old(notes)@).len(),
{
    let ghost orig = notes@;
    // The number of notes fits a `usize`.
    let _count = notes.len();
    let ghost p = |n: Note| !n.is_trashed;
    let ghost q = |n: Note| n.is_trashed;
    let mut i: usize = 0;
    let mut removed: usize = 0;
    let ghost mut j: int = 0;
    while i < notes.len()
        invariant
            0 <= j <= orig.len(),
            notes@ == orig.take(j).filter(p) + orig.skip(j),
            i == orig.take(j).filter(p).len(),
            removed == orig.take(j).filter(q).len(),
            removed <= j,
            orig.len() <= usize::MAX,
            p == (|n: Note| !n.is_trashed),
            q == (|n: Note| n.is_trashed),
        decreases notes@.len() - i,
    {
        proof {
            assert(notes@[i as int] == orig[j]);
            lemma_filter_take_step(orig, p, j);
            lemma_filter_take_step(orig, q, j);
        }
        if notes[i].is_trashed {
            notes.remove(i);
            removed = removed + 1;
            proof {
                assert(notes@ =~= orig.take(j + 1).filter(p) + orig.skip(j + 1));
            }
        } else {
            proof {
                assert(notes@ =~= orig.take(j + 1).filter(p) + orig.skip(j + 1));
            }
            i = i + 1;
        }
        proof {
            j = j + 1;
        }
    }
    proof {
        assert(j == orig.len());
        lemma_filter_take_all(orig, p);
        lemma_filter_take_all(orig, q);
    }
    removed
}

/// The status the details dialog shows for a note.
pub open spec fn status_label_of(is_pinned: bool, is_trashed: bool) -> Seq<char> {
    if is_trashed {
        "In Trash"@
    } else if is_pinned {
        "Pinned ⭐"@
    } else {
        "Active"@
    }
}

/// The status the details dialog shows for `note`.
pub fn note_status(note: &Note) -> (r: String)
    ensures
        r@ == status_label_of(note.is_pinned, note.is_trashed),
{
    if note.is_trashed {
        String::from_str("In Trash")
    } else if note.is_pinned {
        String::from_str("Pinned ⭐")
    } else {
        String::from_str("Active")
    }
}

/// The tags the details dialog shows: `#a, #b, ...`, or "None".
pub open spec fn info_tags_text_of(tags: Seq<String>) -> Seq<char> {
    if tags.len() == 0 {
        "None"@
    } else {
        tags_field_text(tags)
    }
}

/// The tags the details dialog shows for `tags`.
pub fn info_tags_text(tags: &Vec<String>) -> (r: String)
    ensures
        r@ == info_tags_text_of(tags@),
{
    if tags.len() == 0 {
        String::from_str("None")
    } else {
        tags_field(tags)
    }
}

/// The status line for a note with `words` words, `chars` characters and a
/// reading time of `minutes` minutes.
pub open spec fn stats_line(words: nat, chars: nat, minutes: nat) -> Seq<char> {
    decimal(words) + " words | "@ + decimal(chars) + " characters | ~"@ + decimal(minutes)
        + " min read"@
}

/// The status line for `note`: its words, characters and reading time.
pub fn stats_text(note: &Note) -> (r: String)
    ensures
        r@ == stats_line(
            count_words(note.content@),
            note.content@.len(),
            reading_minutes(count_words(note.content@)),
        ),
{
    let words = note.word_count();
    let chars = note.char_count();
    let minutes = note.reading_time_mins();
    let mut out = String::new();
    push_decimal(&mut out, words as u64);
    out.append(" words | ");
    push_decimal(&mut out, chars as u64);
    out.append(" characters | ~");
    push_decimal(&mut out, minutes as u64);
    out.append(" min read");
    assert(out@ =~= stats_line(
        count_words(note.content@),
        note.content@.len(),
        reading_minutes(count_words(note.content@)),
    ));
    out
}

/// The file name offered when `note` is exported: its display title with
/// spaces turned into underscores, in lower case, then `.txt` or `.md`.
pub open spec fn export_default_name_of(title: Seq<char>, content: Seq<char>, plain_text: bool) -> Seq<char> {
    unicode_lowercase(spaces_to_underscores(display_title_of(title, content))) + (if plain_text {
        ".txt"@
    } else {
        ".md"@
    })
}

/// The file name offered when `note` is exported as plain text or as
/// Markdown.
pub fn export_default_name(note: &Note, plain_text: bool) -> (r: String)
    ensures
        r@ == export_default_name_of(note.title@, note.content@, plain_text),
{
    let title = chars_of(note.display_title().as_str());
    let mut under = String::new();
    let mut i: usize = 0;
    while i < title.len()
        invariant
            i <= title@.len(),
            under@ == spaces_to_underscores(title@.take(i as int)),
        decreases title@.len() - i,
    {
        let c = title[i];
        under.push(if c == ' ' {
            '_'
        } else {
            c
        });
        assert(spaces_to_underscores(title@.take(i + 1)) =~= spaces_to_underscores(
            title@.take(i as int),
        ).push(if c == ' ' {
            '_'
        } else {
            c
        }));
        i = i + 1;
    }
    assert(title@.take(title@.len() as int) =~= title@);
    let mut out = to_lowercase(under.as_str());
    if plain_text {
        out.append(".txt");
    } else {
        out.append(".md");
    }
    out
}

/// Toggling the preview goes edit, preview, split and back: three toggles
/// return to the mode they started from, and each toggle changes it.
pub proof fn lemma_view_mode_cycle(m: ViewMode)
    ensures
        next_view_mode(m) != m,
        next_view_mode(next_view_mode(next_view_mode(m))) == m,
{
}

/// A saved view mode is read back as itself.
pub proof fn lemma_view_mode_name_round_trip(m: ViewMode)
    ensures
        view_mode_from_name(Some(view_mode_name(m))) == m,
{
    reveal_strlit("edit");
    reveal_strlit("preview");
    reveal_strlit("split");
    assert("edit"@.len() == 4 && "preview"@.len() == 7 && "split"@.len() == 5);
}

/// The application reopens where it was left: the settings saved for an
/// open note that is still there and not in the trash, and for a view mode,
/// give that note and that mode back when the notes are opened again.
pub proof fn lemma_reopens_where_left(notes: Seq<Note>, active: Option<Seq<char>>, mode: ViewMode)
    requires
        active matches Some(id) ==> live_id_index_from(notes, id, 0) >= 0,
    ensures
        active is Some ==> initial_active_id(notes, active) == active,
        view_mode_from_name(Some(view_mode_name(mode))) == mode,
{
    lemma_view_mode_name_round_trip(mode);
    if let Some(id) = active {
        lemma_live_id_index_match(notes, id, 0);
    }
}

/// The live note found for `id` has that id.
proof fn lemma_live_id_index_match(notes: Seq<Note>, id: Seq<char>, i: int)
    requires
        0 <= i,
    ensures
        live_id_index_from(notes, id, i) >= 0 ==> live_id_index_from(notes, id, i) < notes.len()
            && notes[live_id_index_from(notes, id, i)].id@ == id,
    decreases notes.len() - i,
{
    if i < notes.len() && !(notes[i].id@ == id && !notes[i].is_trashed) {
        lemma_live_id_index_match(notes, id, i + 1);
    }
}

/// Every note is counted once in the sidebar: under "All Notes" or under
/// "Trash"; and the favorites are among "All Notes".
pub proof fn lemma_counts_partition(notes: Seq<Note>)
    ensures
        untrashed(notes).len() + trashed(notes).len() == notes.len(),
        favorites(notes).len() <= untrashed(notes).len(),
    decreases notes.len(),
{
    reveal(Seq::filter);
    if notes.len() > 0 {
        lemma_counts_partition(notes.drop_last());
    }
}

/// After the trash is emptied nothing is in the trash, and the notes
/// outside it are all still there, in order.
pub proof fn lemma_empty_trash_clears(notes: Seq<Note>)
    ensures
        trashed(untrashed(notes)).len() == 0,
        untrashed(untrashed(notes)) == untrashed(notes),
{
    let u = untrashed(notes);
    broadcast use vstd::seq_lib::group_filter_ensures;
    assert forall|k: int| 0 <= k < u.len() implies !(#[trigger] u[k]).is_trashed by {
        notes.lemma_filter_pred(|n: Note| !n.is_trashed, k);
    }
    lemma_filter_keeps_all(u, |n: Note| !n.is_trashed);
    lemma_filter_drops_all(u, |n: Note| n.is_trashed);
}

/// Filtering keeps a sequence whose items all pass.
proof fn lemma_filter_keeps_all(s: Seq<Note>, p: spec_fn(Note) -> bool)
    requires
        forall|k: int| 0 <= k < s.len() ==> p(#[trigger] s[k]),
    ensures
        s.filter(p) == s,
    decreases s.len(),
{
    reveal(Seq::filter);
    if s.len() > 0 {
        lemma_filter_keeps_all(s.drop_last(), p);
        assert(s.drop_last().push(s.last()) =~= s);
    }
}

/// Filtering empties a sequence whose items all fail.
proof fn lemma_filter_drops_all(s: Seq<Note>, p: spec_fn(Note) -> bool)
    requires
        forall|k: int| 0 <= k < s.len() ==> !p(#[trigger] s[k]),
    ensures
        s.filter(p).len() == 0,
    decreases s.len(),
{
    reveal(Seq::filter);
    if s.len() > 0 {
        lemma_filter_drops_all(s.drop_last(), p);
    }
}

/// A note taken out of the trash is the note that went in, but for the
/// time it was last updated.
pub proof fn lemma_restore_undoes_trash(n: Note, t1: Timestamp, t2: Timestamp)
    requires
        !n.is_trashed,
    ensures
        with_trashed(with_trashed(n, true, t1), false, t2) == (Note { updated_at: t2, ..n }),
{
}

/// In the note list every pinned note comes before every note that is not
/// pinned, and among notes alike in that, the more recently updated first.
pub proof fn lemma_pinned_listed_first(
    notes: Seq<Note>,
    filter: FilterMode,
    query: Seq<char>,
    a: int,
    b: int,
)
    requires
        notes.len() <= usize::MAX,
        0 <= a < b < listing(notes, filter, query).len(),
    ensures
        ({
            let o = listing(notes, filter, query);
            let (x, y) = (notes[o[a] as int], notes[o[b] as int]);
            &&& !(y.is_pinned && !x.is_pinned)
            &&& x.is_pinned == y.is_pinned ==> !earlier(x.updated_at, y.updated_at)
        }),
{
    lemma_listing_is_listing(notes, filter, query);
    let o = listing(notes, filter, query);
    assert(listed_before(notes, o[a] as int, o[b] as int));
}

/// The note list shows the notes that pass the filter and the search, each
/// once.
pub proof fn lemma_listing_shows_matches(notes: Seq<Note>, filter: FilterMode, query: Seq<char>)
    requires
        notes.len() <= usize::MAX,
    ensures
        forall|i: int| 0 <= i < notes.len() ==> (is_listed(filter, query, #[trigger] notes[i])
            <==> lists(listing(notes, filter, query), i)),
        forall|a: int, b: int|
            0 <= a < b < listing(notes, filter, query).len() ==> #[trigger] listing(notes, filter, query)[a]
                != #[trigger] listing(notes, filter, query)[b],
{
    lemma_listing_is_listing(notes, filter, query);
    let o = listing(notes, filter, query);
    assert forall|a: int, b: int| 0 <= a < b < o.len() implies #[trigger] o[a] != #[trigger] o[b] by {
        assert(listed_before(notes, o[a] as int, o[b] as int));
        lemma_listed_before_order(notes, o[a] as int, o[a] as int, o[a] as int);
    }
}

/// What the "delete note" shortcut does.
#[derive(Debug, Clone, Copy, PartialEq, Eq, Structural)]
pub enum DeleteAction {
    /// Ask, then delete the open note for good (in the Trash view).
    ConfirmDeletePermanently,
    /// Put the open note in the trash (in every other view).
    MoveToTrash,
}

/// The window's state.
pub struct Workspace {
    pub notes: Vec<Note>,
    pub active_note_id: Option<String>,
    pub filter_mode: FilterMode,
    pub search_query: String,
    pub view_mode: ViewMode,
}

/// The index of the first note with id `id`.
pub fn find_note(notes: &Vec<Note>, id: &String) -> (r: Option<usize>)
    ensures
        match r {
            Some(k) => k as int == id_index(notes@, id@),
            None => id_index(notes@, id@) == -1,
        },
{
    let mut i: usize = 0;
    while i < notes.len()
        invariant
            i <= notes@.len(),
            id_index(notes@, id@) == id_index_from(notes@, id@, i as int),
        decreases notes@.len() - i,
    {
        if notes[i].id == *id {
            return Some(i);
        }
        i = i + 1;
    }
    None
}

/// The strings of `v`, copied.
pub fn copy_strings(v: &Vec<String>) -> (r: Vec<String>)
    ensures
        r@ == v@,
{
    let mut r: Vec<String> = Vec::new();
    let mut i: usize = 0;
    while i < v.len()
        invariant
            i <= v@.len(),
            r@ == v@.take(i as int),
        decreases v@.len() - i,
    {
        r.push(v[i].clone());
        assert(v@.take(i + 1) =~= v@.take(i as int).push(v@[i as int]));
        i = i + 1;
    }
    assert(v@.take(v@.len() as int) =~= v@);
    r
}

/// The note `n`, copied.
pub fn copy_note(n: &Note) -> (r: Note)
    ensures
        same_note(r, *n),
{
    let tags = copy_strings(&n.tags);
    Note {
        id: n.id.clone(),
        title: n.title.clone(),
        content: n.content.clone(),
        tags,
        is_pinned: n.is_pinned,
        is_trashed: n.is_trashed,
        created_at: n.created_at,
        updated_at: n.updated_at,
    }
}

/// The index of the first note with id `id` that is not in the trash.
fn find_live_note(notes: &Vec<Note>, id: &String) -> (r: Option<usize>)
    ensures
        match r {
            Some(k) => k as int == live_id_index_from(notes@, id@, 0),
            None => live_id_index_from(notes@, id@, 0) == -1,
        },
{
    let mut i: usize = 0;
    while i < notes.len()
        invariant
            i <= notes@.len(),
            live_id_index_from(notes@, id@, 0) == live_id_index_from(notes@, id@, i as int),
        decreases notes@.len() - i,
    {
        if notes[i].id == *id && !notes[i].is_trashed {
            return Some(i);
        }
        i = i + 1;
    }
    None
}

/// The index of the first note not in the trash.
fn find_untrashed(notes: &Vec<Note>) -> (r: Option<usize>)
    ensures
        match r {
            Some(k) => k as int == untrashed_index_from(notes@, 0),
            None => untrashed_index_from(notes@, 0) == -1,
        },
{
    let mut i: usize = 0;
    while i < notes.len()
        invariant
            i <= notes@.len(),
            untrashed_index_from(notes@, 0) == untrashed_index_from(notes@, i as int),
        decreases notes@.len() - i,
    {
        if !notes[i].is_trashed {
            return Some(i);
        }
        i = i + 1;
    }
    None
}

impl Workspace {
    /// The index of the open note, or -1 when none is open or its id is
    /// not among the notes.
    pub open spec fn active_index(&self) -> int {
        match self.active_note_id {
            Some(id) => id_index(self.notes@, id@),
            None => -1,
        }
    }

    /// Whether `order` is the list the sidebar shows.
    pub open spec fn is_listing(&self, order: Seq<usize>) -> bool {
        is_listing(self.notes@, self.filter_mode, self.search_query@, order)
    }

    /// The indices of the notes the sidebar lists, in list order.
    pub fn visible_note_indices(&self) -> (r: Vec<usize>)
        ensures
            r@ == listing(self.notes@, self.filter_mode, self.search_query@),
    {
        let ghost notes = self.notes@;
        let ghost filter = self.filter_mode;
        let ghost query = self.search_query@;
        let mut r: Vec<usize> = Vec::new();
        let mut i: usize = 0;
        while i < self.notes.len()
            invariant
                notes == self.notes@,
                filter == self.filter_mode,
                query == self.search_query@,
                i <= notes.len(),
                is_sorted_listing(notes, r@),
                forall|k: int| 0 <= k < r@.len() ==> (#[trigger] r@[k] as int) < i,
                forall|j: int|
                    0 <= j < i ==> (is_listed(filter, query, #[trigger] notes[j]) <==> lists(
                        r@,
                        j,
                    )),
                forall|j: int| i <= j ==> !lists(r@, j),
            decreases notes.len() - i,
        {
            let n = &self.notes[i];
            if self.filter_mode.matches(n) && n.matches_query(self.search_query.as_str()) {
                let mut p: usize = 0;
                while p < r.len() && !is_listed_before(&self.notes, i, r[p])
                    invariant
                        notes == self.notes@,
                        i < notes.len(),
                        p <= r@.len(),
                        is_sorted_listing(notes, r@),
                        forall|k: int| 0 <= k < r@.len() ==> (#[trigger] r@[k] as int) < i,
                        forall|a: int|
                            0 <= a < p ==> listed_before(notes, #[trigger] r@[a] as int, i as int),
                    decreases r@.len() - p,
                {
                    proof {
                        lemma_listed_before_order(notes, i as int, r@[p as int] as int, i as int);
                    }
                    p = p + 1;
                }
                let ghost old_r = r@;
                r.insert(p, i);
                proof {
                    assert forall|k: int| 0 <= k < r@.len() implies (#[trigger] r@[k] as int)
                        < notes.len() by {
                        if k < p {
                            assert(r@[k] == old_r[k]);
                        } else if k > p {
                            assert(r@[k] == old_r[k - 1]);
                        }
                    }
                    assert forall|a: int, b: int| 0 <= a < b < r@.len() implies listed_before(
                        notes,
                        #[trigger] r@[a] as int,
                        #[trigger] r@[b] as int,
                    ) by {
                        if b < p {
                            assert(r@[a] == old_r[a] && r@[b] == old_r[b]);
                        } else if b == p {
                            assert(r@[a] == old_r[a]);
                        } else if a < p {
                            assert(r@[a] == old_r[a] && r@[b] == old_r[b - 1]);
                        } else if a == p {
                            assert(r@[b] == old_r[b - 1]);
                            if b - 1 > p {
                                assert(listed_before(notes, old_r[p as int] as int, old_r[b - 1] as int));
                                lemma_listed_before_order(
                                    notes,
                                    i as int,
                                    old_r[p as int] as int,
                                    old_r[b - 1] as int,
                                );
                            }
                        } else {
                            assert(r@[a] == old_r[a - 1] && r@[b] == old_r[b - 1]);
                        }
                    }
                    assert forall|k: int| 0 <= k < r@.len() implies (#[trigger] r@[k] as int) < i
                        + 1 by {
                        if k < p {
                            assert(r@[k] == old_r[k]);
                        } else if k > p {
                            assert(r@[k] == old_r[k - 1]);
                        }
                    }
                    assert forall|j: int| #[trigger] lists(r@, j) <==> (lists(old_r, j) || j == i) by {
                        if lists(r@, j) {
                            let k = choose|k: int| 0 <= k < r@.len() && r@[k] as int == j;
                            if k < p {
                                assert(old_r[k] as int == j);
                            } else if k > p {
                                assert(old_r[k - 1] as int == j);
                            }
                        }
                        if lists(old_r, j) {
                            let k = choose|k: int| 0 <= k < old_r.len() && old_r[k] as int == j;
                            if k < p {
                                assert(r@[k] as int == j);
                            } else {
                                assert(r@[k + 1] as int == j);
                            }
                        }
                        if j == i {
                            assert(r@[p as int] as int == j);
                        }
                    }
                }
            } else {
                assert(!is_listed(filter, query, notes[i as int]));
            }
            i = i + 1;
        }
        proof {
            assert(is_listing(notes, filter, query, r@));
            lemma_listing_unique(notes, filter, query, r@, listing(notes, filter, query));
        }
        r
    }

    /// The notes the sidebar lists, in list order.
    pub fn visible_notes(&self) -> (r: Vec<&Note>)
        ensures
            r@.len() == listing(self.notes@, self.filter_mode, self.search_query@).len(),
            forall|k: int|
                0 <= k < r@.len() ==> *(#[trigger] r@[k]) == self.notes@[listing(
                    self.notes@,
                    self.filter_mode,
                    self.search_query@,
                )[k] as int],
    {
        let order = self.visible_note_indices();
        // The number of notes fits a `usize`.
        let _count = self.notes.len();
        proof {
            lemma_listing_is_listing(self.notes@, self.filter_mode, self.search_query@);
        }
        let mut r: Vec<&Note> = Vec::new();
        let mut k: usize = 0;
        while k < order.len()
            invariant
                order@ == listing(self.notes@, self.filter_mode, self.search_query@),
                is_sorted_listing(self.notes@, order@),
                k <= order@.len(),
                r@.len() == k,
                forall|j: int| 0 <= j < k ==> *(#[trigger] r@[j]) == self.notes@[order@[j] as int],
            decreases order@.len() - k,
        {
            let idx = order[k];
            assert((order@[k as int] as int) < self.notes@.len());
            r.push(&self.notes[idx]);
            k = k + 1;
        }
        r
    }

    /// Opens the first note of the list, or none when the list is empty.
    pub fn select_first_visible_note(&mut self)
        ensures
            final(self).notes == old(self).notes,
            final(self).filter_mode == old(self).filter_mode,
            final(self).search_query == old(self).search_query,
            final(self).view_mode == old(self).view_mode,
            opt_text(final(self).active_note_id) == first_listed_id(
                old(self).notes@,
                old(self).filter_mode,
                old(self).search_query@,
            ),
    {
        let order = self.visible_note_indices();
        // The number of notes fits a `usize`.
        let _count = self.notes.len();
        proof {
            lemma_listing_is_listing(self.notes@, self.filter_mode, self.search_query@);
        }
        if order.len() > 0 {
            let id = self.notes[order[0]].id.clone();
            self.active_note_id = Some(id);
        } else {
            self.active_note_id = None;
        }
    }

    /// The state of a window opened on `notes` with the saved `settings`.
    pub fn new(notes: Vec<Note>, settings: &Settings) -> (w: Workspace)
        ensures
            w.notes@ == notes@,
            opt_text(w.active_note_id) == initial_active_id(notes@, opt_text(settings.last_note_id)),
            w.filter_mode == FilterMode::All,
            w.search_query@.len() == 0,
            w.view_mode == view_mode_from_name(opt_text(settings.view_mode)),
    {
        let view_mode = ViewMode::from_setting(&settings.view_mode);
        let remembered: Option<usize> = match &settings.last_note_id {
            Some(id) => find_live_note(&notes, id),
            None => None,
        };
        let first = find_untrashed(&notes);
        proof {
            lemma_untrashed_index_from(notes@, 0);
            if settings.last_note_id is Some {
                lemma_live_id_index_from(notes@, settings.last_note_id->0@, 0);
            }
        }
        let active = match remembered {
            Some(k) => Some(notes[k].id.clone()),
            None => match first {
                Some(k) => Some(notes[k].id.clone()),
                None => None,
            },
        };
        Workspace {
            notes,
            active_note_id: active,
            filter_mode: FilterMode::All,
            search_query: String::new(),
            view_mode,
        }
    }

    /// The settings to save when the window closes: the open note and the
    /// view mode.
    pub fn settings(&self) -> (s: Settings)
        ensures
            opt_text(s.last_note_id) == opt_text(self.active_note_id),
            (s.view_mode matches Some(m) && m@ == view_mode_name(self.view_mode)),
    {
        let last = match &self.active_note_id {
            Some(id) => Some(id.clone()),
            None => None,
        };
        Settings { last_note_id: last, view_mode: Some(self.view_mode.name()) }
    }

    /// The open note, copied.
    pub fn active_note(&self) -> (r: Option<Note>)
        ensures
            self.active_index() >= 0 ==> (r matches Some(n) && same_note(
                n,
                self.notes@[self.active_index()],
            )),
            self.active_index() < 0 ==> r is None,
    {
        match &self.active_note_id {
            Some(id) => {
                proof {
                    lemma_id_index_from(self.notes@, id@, 0);
                }
                match find_note(&self.notes, id) {
                    Some(k) => Some(copy_note(&self.notes[k])),
                    None => None,
                }
            },
            None => None,
        }
    }

    /// Opens a new empty note, first in the list; when the sidebar shows a
    /// tag, the note carries that tag.
    pub fn create_new_note(&mut self)
        ensures
            final(self).notes@.len() == old(self).notes@.len() + 1,
            final(self).notes@.drop_first() == old(self).notes@,
            is_uuid_text(final(self).notes@[0].id@),
            final(self).notes@[0].title@.len() == 0,
            final(self).notes@[0].content@.len() == 0,
            match old(self).filter_mode {
                FilterMode::Tag(t) => final(self).notes@[0].tags@.len() == 1
                    && final(self).notes@[0].tags@[0]@ == t@,
                _ => final(self).notes@[0].tags@.len() == 0,
            },
            !final(self).notes@[0].is_pinned,
            !final(self).notes@[0].is_trashed,
            final(self).notes@[0].created_at == final(self).notes@[0].updated_at,
            final(self).notes@[0].created_at.nanos < 1_000_000_000,
            opt_text(final(self).active_note_id) == Some(final(self).notes@[0].id@),
            final(self).filter_mode == old(self).filter_mode,
            final(self).search_query == old(self).search_query,
            final(self).view_mode == old(self).view_mode,
    {
        let mut note = Note::new();
        match &self.filter_mode {
            FilterMode::Tag(tag) => {
                note.tags.push(tag.clone());
            },
            _ => {},
        }
        let note_id = note.id.clone();
        self.notes.insert(0, note);
        self.active_note_id = Some(note_id);
        assert(self.notes@.drop_first() =~= old(self).notes@);
    }

    /// Opens a copy of the open note, first in the list: a new id, the
    /// title trimmed and marked " (copy)", the same content and tags, not
    /// pinned. Says whether there was an open note to copy.
    pub fn duplicate_active_note(&mut self) -> (copied: bool)
        ensures
            copied == (old(self).active_index() >= 0),
            final(self).filter_mode == old(self).filter_mode,
            final(self).search_query == old(self).search_query,
            final(self).view_mode == old(self).view_mode,
            !copied ==> *final(self) == *old(self),
            copied ==> ({
                let orig = old(self).notes@[old(self).active_index()];
                let c = final(self).notes@[0];
                &&& final(self).notes@.len() == old(self).notes@.len() + 1
                &&& final(self).notes@.drop_first() == old(self).notes@
                &&& is_uuid_text(c.id@)
                &&& c.title@ == trim(orig.title@) + " (copy)"@
                &&& c.content@ == orig.content@
                &&& c.tags@ == orig.tags@
                &&& !c.is_pinned
                &&& !c.is_trashed
                &&& c.created_at == c.updated_at
                &&& c.created_at.nanos < 1_000_000_000
                &&& opt_text(final(self).active_note_id) == Some(c.id@)
            }),
    {
        let k = match position_of(&self.notes, &self.active_note_id) {
            Some(k) => k,
            None => {
                return false;
            },
        };
        let mut copy = Note::new();
        let mut title = trimmed(self.notes[k].title.as_str());
        title.append(" (copy)");
        copy.title = title;
        copy.content = self.notes[k].content.clone();
        copy.tags = copy_strings(&self.notes[k].tags);
        copy.is_pinned = false;
        let copy_id = copy.id.clone();
        self.notes.insert(0, copy);
        self.active_note_id = Some(copy_id);
        assert(self.notes@.drop_first() =~= old(self).notes@);
        true
    }

    /// Opens the note with id `id`. Says whether the open note changed.
    pub fn select_note(&mut self, id: String) -> (changed: bool)
        ensures
            changed == (opt_text(old(self).active_note_id) != Some(id@)),
            opt_text(final(self).active_note_id) == Some(id@),
            final(self).notes == old(self).notes,
            final(self).filter_mode == old(self).filter_mode,
            final(self).search_query == old(self).search_query,
            final(self).view_mode == old(self).view_mode,
    {
        let same = match &self.active_note_id {
            Some(current) => *current == id,
            None => false,
        };
        if same {
            return false;
        }
        self.active_note_id = Some(id);
        true
    }

    /// Shows the notes that pass `filter`, and opens the first of them.
    pub fn set_filter(&mut self, filter: FilterMode)
        ensures
            final(self).filter_mode == filter,
            final(self).notes == old(self).notes,
            final(self).search_query == old(self).search_query,
            final(self).view_mode == old(self).view_mode,
            opt_text(final(self).active_note_id) == first_listed_id(
                old(self).notes@,
                filter,
                old(self).search_query@,
            ),
    {
        self.filter_mode = filter;
        self.select_first_visible_note();
    }

    /// Shows the notes of tag `tag`, or all notes when that tag is already
    /// shown, and opens the first of them.
    pub fn toggle_tag_filter(&mut self, tag: String)
        ensures
            final(self).filter_mode == (match old(self).filter_mode {
                FilterMode::Tag(t) => if t@ == tag@ {
                    FilterMode::All
                } else {
                    FilterMode::Tag(tag)
                },
                _ => FilterMode::Tag(tag),
            }),
            final(self).notes == old(self).notes,
            final(self).search_query == old(self).search_query,
            final(self).view_mode == old(self).view_mode,
            opt_text(final(self).active_note_id) == first_listed_id(
                old(self).notes@,
                final(self).filter_mode,
                old(self).search_query@,
            ),
    {
        let is_current = match &self.filter_mode {
            FilterMode::Tag(t) => *t == tag,
            _ => false,
        };
        if is_current {
            self.set_filter(FilterMode::All);
        } else {
            self.set_filter(FilterMode::Tag(tag));
        }
    }

    /// Pins or unpins the open note.
    pub fn set_active_note_pinned(&mut self, pinned: bool)
        ensures
            final(self).active_note_id == old(self).active_note_id,
            final(self).filter_mode == old(self).filter_mode,
            final(self).search_query == old(self).search_query,
            final(self).view_mode == old(self).view_mode,
            old(self).active_index() < 0 ==> final(self).notes@ == old(self).notes@,
            old(self).active_index() >= 0 ==> ({
                let k = old(self).active_index();
                let (a, b) = (old(self).notes@[k], final(self).notes@[k]);
                &&& same_except(old(self).notes@, final(self).notes@, k)
                &&& b == (Note { is_pinned: pinned, updated_at: b.updated_at, ..a })
                &&& b.updated_at.nanos < 1_000_000_000
            }),
    {
        if let Some(k) = position_of(&self.notes, &self.active_note_id) {
            let mut note = self.notes.remove(k);
            note.is_pinned = pinned;
            note.touch();
            self.notes.insert(k, note);
            assert(same_except(old(self).notes@, self.notes@, k as int));
        }
    }

    /// Puts the open note in the trash and opens the first note of the
    /// list. Returns nothing when no note was open, else the title of the
    /// note put in the trash (empty when the open id named no note).
    pub fn move_active_note_to_trash(&mut self) -> (title: Option<String>)
        ensures
            final(self).filter_mode == old(self).filter_mode,
            final(self).search_query == old(self).search_query,
            final(self).view_mode == old(self).view_mode,
            old(self).active_note_id is None ==> title is None && *final(self) == *old(self),
            old(self).active_note_id is Some ==> ({
                let k = old(self).active_index();
                &&& opt_text(final(self).active_note_id) == first_listed_id(
                    final(self).notes@,
                    final(self).filter_mode,
                    final(self).search_query@,
                )
                &&& k < 0 ==> final(self).notes@ == old(self).notes@ && (title matches Some(t)
                    && t@.len() == 0)
                &&& k >= 0 ==> ({
                    let (a, b) = (old(self).notes@[k], final(self).notes@[k]);
                    &&& same_except(old(self).notes@, final(self).notes@, k)
                    &&& b == with_trashed(a, true, b.updated_at)
                    &&& b.updated_at.nanos < 1_000_000_000
                    &&& title matches Some(t) && t@ == display_title_of(a.title@, a.content@)
                })
            }),
    {
        if self.active_note_id.is_none() {
            return None;
        }
        let mut title = String::new();
        if let Some(k) = position_of(&self.notes, &self.active_note_id) {
            let mut note = self.notes.remove(k);
            note.is_trashed = true;
            note.touch();
            title = note.display_title();
            self.notes.insert(k, note);
            assert(same_except(old(self).notes@, self.notes@, k as int));
        }
        self.select_first_visible_note();
        Some(title)
    }

    /// Takes the open note out of the trash. Returns nothing when no note
    /// was open, else the title of the restored note (empty when the open id
    /// named no note).
    pub fn restore_active_note(&mut self) -> (title: Option<String>)
        ensures
            final(self).active_note_id == old(self).active_note_id,
            final(self).filter_mode == old(self).filter_mode,
            final(self).search_query == old(self).search_query,
            final(self).view_mode == old(self).view_mode,
            old(self).active_note_id is None ==> title is None && final(self).notes@ == old(
                self,
            ).notes@,
            old(self).active_note_id is Some ==> ({
                let k = old(self).active_index();
                &&& k < 0 ==> final(self).notes@ == old(self).notes@ && (title matches Some(t)
                    && t@.len() == 0)
                &&& k >= 0 ==> ({
                    let (a, b) = (old(self).notes@[k], final(self).notes@[k]);
                    &&& same_except(old(self).notes@, final(self).notes@, k)
                    &&& b == with_trashed(a, false, b.updated_at)
                    &&& b.updated_at.nanos < 1_000_000_000
                    &&& title matches Some(t) && t@ == display_title_of(a.title@, a.content@)
                })
            }),
    {
        if self.active_note_id.is_none() {
            return None;
        }
        let mut title = String::new();
        if let Some(k) = position_of(&self.notes, &self.active_note_id) {
            let mut note = self.notes.remove(k);
            note.is_trashed = false;
            note.touch();
            title = note.display_title();
            self.notes.insert(k, note);
            assert(same_except(old(self).notes@, self.notes@, k as int));
        }
        Some(title)
    }

    /// Deletes the open note for good (every note with its id) and opens
    /// the first note of the list. Says whether a note was open.
    pub fn delete_active_note_permanently(&mut self) -> (deleted: bool)
        ensures
            deleted == old(self).active_note_id is Some,
            final(self).filter_mode == old(self).filter_mode,
            final(self).search_query == old(self).search_query,
            final(self).view_mode == old(self).view_mode,
            !deleted ==> *final(self) == *old(self),
            deleted ==> final(self).notes@ == without_id(
                old(self).notes@,
                old(self).active_note_id->0@,
            ),
            deleted ==> opt_text(final(self).active_note_id) == first_listed_id(
                final(self).notes@,
                final(self).filter_mode,
                final(self).search_query@,
            ),
    {
        let id = match &self.active_note_id {
            Some(id) => id.clone(),
            None => {
                return false;
            },
        };
        remove_with_id(&mut self.notes, &id);
        self.select_first_visible_note();
        true
    }

    /// Deletes every note in the trash for good, opens the first note of
    /// the list, and says how many notes were deleted.
    pub fn empty_trash(&mut self) -> (count: usize)
        ensures
            final(self).notes@ == untrashed(old(self).notes@),
            count == trashed(old(self).notes@).len(),
            final(self).filter_mode == old(self).filter_mode,
            final(self).search_query == old(self).search_query,
            final(self).view_mode == old(self).view_mode,
            opt_text(final(self).active_note_id) == first_listed_id(
                final(self).notes@,
                final(self).filter_mode,
                final(self).search_query@,
            ),
    {
        let count = remove_trashed(&mut self.notes);
        self.select_first_visible_note();
        count
    }

    /// Sets the title of the open note.
    pub fn on_title_changed(&mut self, title: String)
        ensures
            final(self).active_note_id == old(self).active_note_id,
            final(self).filter_mode == old(self).filter_mode,
            final(self).search_query == old(self).search_query,
            final(self).view_mode == old(self).view_mode,
            old(self).active_index() < 0 ==> final(self).notes@ == old(self).notes@,
            old(self).active_index() >= 0 ==> ({
                let k = old(self).active_index();
                let (a, b) = (old(self).notes@[k], final(self).notes@[k]);
                &&& same_except(old(self).notes@, final(self).notes@, k)
                &&& b == (Note { title: title, updated_at: b.updated_at, ..a })
                &&& b.updated_at.nanos < 1_000_000_000
            }),
    {
        if let Some(k) = position_of(&self.notes, &self.active_note_id) {
            let mut note = self.notes.remove(k);
            note.title = title;
            note.touch();
            self.notes.insert(k, note);
            assert(same_except(old(self).notes@, self.notes@, k as int));
        }
    }

    /// Sets the content of the open note.
    pub fn on_content_changed(&mut self, content: String)
        ensures
            final(self).active_note_id == old(self).active_note_id,
            final(self).filter_mode == old(self).filter_mode,
            final(self).search_query == old(self).search_query,
            final(self).view_mode == old(self).view_mode,
            old(self).active_index() < 0 ==> final(self).notes@ == old(self).notes@,
            old(self).active_index() >= 0 ==> ({
                let k = old(self).active_index();
                let (a, b) = (old(self).notes@[k], final(self).notes@[k]);
                &&& same_except(old(self).notes@, final(self).notes@, k)
                &&& b == (Note { content: content, updated_at: b.updated_at, ..a })
                &&& b.updated_at.nanos < 1_000_000_000
            }),
    {
        if let Some(k) = position_of(&self.notes, &self.active_note_id) {
            let mut note = self.notes.remove(k);
            note.content = content;
            note.touch();
            self.notes.insert(k, note);
            assert(same_except(old(self).notes@, self.notes@, k as int));
        }
    }

    /// Sets the tags of the open note to those typed in the tags field.
    pub fn on_tags_changed(&mut self, tags_text: String)
        ensures
            final(self).active_note_id == old(self).active_note_id,
            final(self).filter_mode == old(self).filter_mode,
            final(self).search_query == old(self).search_query,
            final(self).view_mode == old(self).view_mode,
            old(self).active_index() < 0 ==> final(self).notes@ == old(self).notes@,
            old(self).active_index() >= 0 ==> ({
                let k = old(self).active_index();
                let (a, b) = (old(self).notes@[k], final(self).notes@[k]);
                &&& same_except(old(self).notes@, final(self).notes@, k)
                &&& b == (Note { tags: b.tags, updated_at: b.updated_at, ..a })
                &&& b.updated_at.nanos < 1_000_000_000
                &&& views(b.tags@) == parse_tags_of(tags_text@)
            }),
    {
        let tags = parse_tags(tags_text.as_str());
        if let Some(k) = position_of(&self.notes, &self.active_note_id) {
            let mut note = self.notes.remove(k);
            note.tags = tags;
            note.touch();
            self.notes.insert(k, note);
            assert(same_except(old(self).notes@, self.notes@, k as int));
        }
    }

    /// The numbers the sidebar shows: notes not in the trash, pinned notes
    /// not in the trash, and notes in the trash.
    pub fn note_counts(&self) -> (r: (usize, usize, usize))
        ensures
            r.0 == untrashed(self.notes@).len(),
            r.1 == favorites(self.notes@).len(),
            r.2 == trashed(self.notes@).len(),
    {
        let ghost notes = self.notes@;
        let ghost p = |n: Note| !n.is_trashed;
        let ghost f = |n: Note| !n.is_trashed && n.is_pinned;
        let ghost t = |n: Note| n.is_trashed;
        let mut total: usize = 0;
        let mut pinned: usize = 0;
        let mut in_trash: usize = 0;
        let mut i: usize = 0;
        while i < self.notes.len()
            invariant
                notes == self.notes@,
                i <= notes.len(),
                total == notes.take(i as int).filter(p).len(),
                pinned == notes.take(i as int).filter(f).len(),
                in_trash == notes.take(i as int).filter(t).len(),
                total <= i && pinned <= i && in_trash <= i,
                p == (|n: Note| !n.is_trashed),
                f == (|n: Note| !n.is_trashed && n.is_pinned),
                t == (|n: Note| n.is_trashed),
            decreases notes.len() - i,
        {
            proof {
                lemma_filter_take_step(notes, p, i as int);
                lemma_filter_take_step(notes, f, i as int);
                lemma_filter_take_step(notes, t, i as int);
            }
            let n = &self.notes[i];
            if n.is_trashed {
                in_trash = in_trash + 1;
            } else {
                total = total + 1;
                if n.is_pinned {
                    pinned = pinned + 1;
                }
            }
            i = i + 1;
        }
        proof {
            lemma_filter_take_all(notes, p);
            lemma_filter_take_all(notes, f);
            lemma_filter_take_all(notes, t);
        }
        (total, pinned, in_trash)
    }

    /// The tag list of the sidebar.
    pub fn tag_summary(&self) -> (r: Vec<(String, usize)>)
        ensures
            is_tag_summary(self.notes@, r@),
            forall|k: int| 0 <= k < r@.len() ==> (#[trigger] r@[k]).1 >= 1,
    {
        tag_summary(&self.notes)
    }

    /// Adds an imported note first in the list and opens it.
    pub fn open_imported_note(&mut self, note: Note)
        ensures
            final(self).notes@ == seq![note] + old(self).notes@,
            opt_text(final(self).active_note_id) == Some(note.id@),
            final(self).filter_mode == old(self).filter_mode,
            final(self).search_query == old(self).search_query,
            final(self).view_mode == old(self).view_mode,
    {
        let id = note.id.clone();
        self.notes.insert(0, note);
        self.active_note_id = Some(id);
        assert(self.notes@ =~= seq![note] + old(self).notes@);
    }

    /// What the "delete note" shortcut does in the current view: in the
    /// Trash view it deletes for good after asking, elsewhere it puts the
    /// note in the trash.
    pub fn delete_shortcut_action(&self) -> (r: DeleteAction)
        ensures
            r == (if self.filter_mode is Trash {
                DeleteAction::ConfirmDeletePermanently
            } else {
                DeleteAction::MoveToTrash
            }),
    {
        match self.filter_mode {
            FilterMode::Trash => DeleteAction::ConfirmDeletePermanently,
            _ => DeleteAction::MoveToTrash,
        }
    }

    /// Shows the open note in `mode`.
    pub fn set_view_mode(&mut self, mode: ViewMode)
        ensures
            final(self).view_mode == mode,
            final(self).notes == old(self).notes,
            final(self).active_note_id == old(self).active_note_id,
            final(self).filter_mode == old(self).filter_mode,
            final(self).search_query == old(self).search_query,
    {
        self.view_mode = mode;
    }
}

} // verus!
