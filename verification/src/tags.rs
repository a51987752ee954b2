//! Tags as the editor shows and reads them: the text of the tags field and
//! the tags read back from it.

use vstd::prelude::*;
use crate::models::Note;
use crate::storage::{hashtags, push_hashtags};
use crate::text::{chars_of, is_white_space, skip_char, string_of_range, trim, trim_range, trim_start, trim_end, trim_start_char};

verus! {

/// The texts of `v`.
pub open spec fn views(v: Seq<String>) -> Seq<Seq<char>> {
    v.map_values(|t: String| t@)
}

/// Whether `c` separates the tags typed in the tags field.
pub open spec fn is_tag_separator(c: char) -> bool {
    c == ',' || c == ' '
}

/// The index of the last separator of `s`, or -1.
pub open spec fn last_separator(s: Seq<char>) -> int
    decreases s.len(),
{
    if s.len() == 0 {
        -1
    } else if is_tag_separator(s.last()) {
        s.len() - 1
    } else {
        last_separator(s.drop_last())
    }
}

/// The tag a piece of the field stands for, as a list of at most one: the
/// piece trimmed and without its leading `#` marks, unless that is empty.
pub open spec fn kept_tag(piece: Seq<char>) -> Seq<Seq<char>> {
    let t = trim_start_char(trim(piece), '#');
    if t.len() > 0 {
        seq![t]
    } else {
        seq![]
    }
}

/// The tags typed in the field `s`: the pieces between commas and spaces,
/// each trimmed and without leading `#`, the empty ones left out.
pub open spec fn parse_tags_of(s: Seq<char>) -> Seq<Seq<char>>
    decreases s.len(),
{
    let i = last_separator(s);
    if 0 <= i < s.len() {
        parse_tags_of(s.take(i)) + kept_tag(s.skip(i + 1))
    } else {
        kept_tag(s)
    }
}

/// The tags of the pieces before index `start` (which follows a separator).
pub open spec fn tags_before(s: Seq<char>, start: int) -> Seq<Seq<char>> {
    if start > 0 {
        parse_tags_of(s.take(start - 1))
    } else {
        seq![]
    }
}

/// The last separator is the one before `start` when none follows it.
proof fn lemma_last_separator(s: Seq<char>, start: int)
    requires
        0 <= start <= s.len(),
        start > 0 ==> is_tag_separator(s[start - 1]),
        forall|k: int| start <= k < s.len() ==> !is_tag_separator(#[trigger] s[k]),
    ensures
        last_separator(s) == start - 1,
    decreases s.len(),
{
    if s.len() > start {
        let t = s.drop_last();
        assert forall|k: int| start <= k < t.len() implies !is_tag_separator(#[trigger] t[k]) by {
            assert(t[k] == s[k]);
        }
        if start > 0 {
            assert(t[start - 1] == s[start - 1]);
        }
        lemma_last_separator(t, start);
    }
}

/// The tags of `s` are those before the last piece and that of the last
/// piece, which starts at `start`.
proof fn lemma_parse_split(s: Seq<char>, start: int)
    requires
        0 <= start <= s.len(),
        start > 0 ==> is_tag_separator(s[start - 1]),
        forall|k: int| start <= k < s.len() ==> !is_tag_separator(#[trigger] s[k]),
    ensures
        parse_tags_of(s) == tags_before(s, start) + kept_tag(s.skip(start)),
{
    lemma_last_separator(s, start);
    if start == 0 {
        assert(s.skip(0) =~= s);
        assert(tags_before(s, start) + kept_tag(s.skip(start)) =~= kept_tag(s));
    }
}

/// Appends to `r` the tag of the piece `v[lo..hi]`, if it has one.
fn push_tag(r: &mut Vec<String>, v: &Vec<char>, lo: usize, hi: usize)
    requires
        lo <= hi <= v.len(),
    ensures
        views(final(r)@) == views(old(r)@) + kept_tag(v@.subrange(lo as int, hi as int)),
{
    let (a, b) = trim_range(v, lo, hi);
    let z = skip_char(v, a, b, '#');
    if z < b {
        let t = string_of_range(v, z, b);
        r.push(t);
        assert(views(r@) =~= views(old(r)@) + kept_tag(v@.subrange(lo as int, hi as int)));
    } else {
        assert(views(r@) =~= views(old(r)@) + kept_tag(v@.subrange(lo as int, hi as int)));
    }
}

/// The tags typed in the tags field `text`.
pub fn parse_tags(text: &str) -> (r: Vec<String>)
    ensures
        views(r@) == parse_tags_of(text@),
{
    let v = chars_of(text);
    let mut r: Vec<String> = Vec::new();
    let mut start: usize = 0;
    let mut i: usize = 0;
    assert(views(r@) =~= tags_before(v@, 0));
    while i < v.len()
        invariant
            v@ == text@,
            start <= i <= v@.len(),
            views(r@) == tags_before(v@, start as int),
            start > 0 ==> is_tag_separator(v@[start - 1]),
            forall|k: int| start <= k < i ==> !is_tag_separator(#[trigger] v@[k]),
        decreases v@.len() - i,
    {
        if v[i] == ',' || v[i] == ' ' {
            push_tag(&mut r, &v, start, i);
            proof {
                let p = v@.take(i as int);
                assert forall|k: int| start <= k < p.len() implies !is_tag_separator(
                    #[trigger] p[k],
                ) by {
                    assert(p[k] == v@[k]);
                }
                if start > 0 {
                    assert(p[start - 1] == v@[start - 1]);
                    assert(p.take(start - 1) =~= v@.take(start - 1));
                }
                lemma_parse_split(p, start as int);
                assert(p.skip(start as int) =~= v@.subrange(start as int, i as int));
                assert(v@.take(i + 1 - 1) =~= p);
            }
            start = i + 1;
        }
        i = i + 1;
    }
    push_tag(&mut r, &v, start, v.len());
    proof {
        lemma_parse_split(v@, start as int);
        assert(v@.skip(start as int) =~= v@.subrange(start as int, v@.len() as int));
    }
    r
}

/// The text the tags field shows for `tags`: `#a, #b, ...`.
pub open spec fn tags_field_text(tags: Seq<String>) -> Seq<char> {
    hashtags(tags, ", "@)
}

/// The text the tags field shows for `tags`.
pub fn tags_field(tags: &Vec<String>) -> (r: String)
    ensures
        r@ == tags_field_text(tags@),
{
    let mut out = String::new();
    push_hashtags(&mut out, tags, ", ");
    assert(Seq::<char>::empty() + hashtags(tags@, ", "@) =~= hashtags(tags@, ", "@));
    out
}

/// Whether `t` reads back as itself from the tags field: not empty, not
/// starting with `#`, and without commas or white space.
pub open spec fn is_plain_tag(t: Seq<char>) -> bool {
    &&& t.len() > 0
    &&& t[0] != '#'
    &&& forall|k: int| 0 <= k < t.len() ==> !is_white_space(#[trigger] t[k]) && t[k] != ','
}

/// The piece `#t` of a plain tag `t` reads back as `t` and holds no
/// separator.
proof fn lemma_hash_tag_piece(t: Seq<char>)
    requires
        is_plain_tag(t),
    ensures
        kept_tag(seq!['#'] + t) == seq![t],
        forall|k: int| 0 <= k < (seq!['#'] + t).len() ==> !is_tag_separator(
            #[trigger] (seq!['#'] + t)[k],
        ),
{
    let s = seq!['#'] + t;
    assert(s[0] == '#');
    assert(s.last() == t.last());
    assert(!is_white_space(t[t.len() - 1]));
    assert(trim_start(s) == s);
    assert(trim_end(s) == s);
    assert(s.drop_first() =~= t);
    assert(trim_start_char(s, '#') == trim_start_char(t, '#'));
    assert(trim_start_char(t, '#') == t);
    assert forall|k: int| 0 <= k < s.len() implies !is_tag_separator(#[trigger] s[k]) by {
        if k > 0 {
            assert(s[k] == t[k - 1]);
            assert(!is_white_space(t[k - 1]));
        }
    }
}

/// Tags that read back as themselves are read back from the text the tags
/// field shows for them.
pub proof fn lemma_tags_field_round_trip(tags: Seq<String>)
    requires
        forall|k: int| 0 <= k < tags.len() ==> is_plain_tag(#[trigger] tags[k]@),
    ensures
        parse_tags_of(tags_field_text(tags)) == views(tags),
    decreases tags.len(),
{
    let s = tags_field_text(tags);
    if tags.len() == 0 {
        assert(s.len() == 0);
        lemma_parse_split(s, 0);
        assert(trim(s) =~= s);
        assert(views(tags) =~= Seq::<Seq<char>>::empty());
        assert(parse_tags_of(s) =~= views(tags));
    } else if tags.len() == 1 {
        let t = tags[0]@;
        assert(is_plain_tag(tags[0]@));
        lemma_hash_tag_piece(t);
        lemma_parse_split(s, 0);
        assert(s.skip(0) =~= s);
        assert(views(tags) =~= seq![t]);
    } else {
        let front = tags.drop_last();
        assert forall|k: int| 0 <= k < front.len() implies is_plain_tag(#[trigger] front[k]@) by {
            assert(front[k] == tags[k]);
        }
        lemma_tags_field_round_trip(front);
        assert(is_plain_tag(tags[tags.len() - 1]@));
        reveal_strlit(", ");
        assert(s =~= tags_field_text(front) + seq![',', ' '] + (seq!['#'] + tags.last()@));
        lemma_parse_appended_tag(tags_field_text(front), tags.last()@);
        assert(views(tags) =~= views(front).push(tags.last()@));
    }
}

/// Reading back `p, #t` gives the tags of `p` and then `t`.
proof fn lemma_parse_appended_tag(p: Seq<char>, t: Seq<char>)
    requires
        is_plain_tag(t),
    ensures
        parse_tags_of(p + seq![',', ' '] + (seq!['#'] + t)) == parse_tags_of(p).push(t),
{
    lemma_hash_tag_piece(t);
    let h = seq!['#'] + t;
    let s = p + seq![',', ' '] + h;
    let n = p.len() as int;
    assert forall|k: int| n + 2 <= k < s.len() implies !is_tag_separator(#[trigger] s[k]) by {
        assert(s[k] == h[k - n - 2]);
    }
    assert(s[n + 1] == ' ');
    lemma_parse_split(s, n + 2);
    assert(s.skip(n + 2) =~= h);
    let q = s.take(n + 1);
    assert(q =~= p + seq![',']);
    assert(q[n] == ',');
    lemma_parse_split(q, n + 1);
    assert(q.skip(n + 1) =~= Seq::<char>::empty());
    assert(trim(Seq::<char>::empty()) =~= Seq::<char>::empty());
    assert(q.take(n) =~= p);
    assert(kept_tag(Seq::<char>::empty()) =~= Seq::<Seq<char>>::empty());
    assert(parse_tags_of(q) =~= parse_tags_of(p));
    assert(parse_tags_of(s) =~= parse_tags_of(p).push(t));
}

/// Whether `a` sorts before `b`: compared character by character, a
/// proper prefix first. (This is the order of `String`, whose bytes are
/// UTF-8, which orders as the characters do.)
pub open spec fn text_less(a: Seq<char>, b: Seq<char>) -> bool
    decreases a.len(),
{
    if a.len() == 0 {
        b.len() > 0
    } else if b.len() == 0 {
        false
    } else if a[0] != b[0] {
        (a[0] as int) < (b[0] as int)
    } else {
        text_less(a.drop_first(), b.drop_first())
    }
}

/// `text_less` is a strict total order.
pub proof fn lemma_text_less_order(a: Seq<char>, b: Seq<char>, c: Seq<char>)
    ensures
        !text_less(a, a),
        a != b ==> (text_less(a, b) || text_less(b, a)),
        !(text_less(a, b) && text_less(b, a)),
        text_less(a, b) && text_less(b, c) ==> text_less(a, c),
{
    lemma_text_less_irreflexive(a);
    lemma_text_less_total(a, b);
    lemma_text_less_transitive(a, b, a);
    lemma_text_less_transitive(a, b, c);
}

/// No text sorts before itself.
proof fn lemma_text_less_irreflexive(a: Seq<char>)
    ensures
        !text_less(a, a),
    decreases a.len(),
{
    if a.len() > 0 {
        lemma_text_less_irreflexive(a.drop_first());
    }
}

/// Of two different texts one sorts before the other.
proof fn lemma_text_less_total(a: Seq<char>, b: Seq<char>)
    ensures
        a != b ==> (text_less(a, b) || text_less(b, a)),
    decreases a.len(),
{
    if a.len() == 0 && b.len() == 0 {
        assert(a =~= b);
    } else if a.len() > 0 && b.len() > 0 && a[0] == b[0] {
        lemma_text_less_total(a.drop_first(), b.drop_first());
        if a != b {
            assert(a.drop_first() != b.drop_first()) by {
                if a.drop_first() == b.drop_first() {
                    assert(a =~= seq![a[0]] + a.drop_first());
                    assert(b =~= seq![b[0]] + b.drop_first());
                }
            }
        }
    } else if a.len() > 0 && b.len() > 0 {
        assert((a[0] as int) != (b[0] as int));
    }
}

/// Sorting before is transitive.
proof fn lemma_text_less_transitive(a: Seq<char>, b: Seq<char>, c: Seq<char>)
    ensures
        text_less(a, b) && text_less(b, c) ==> text_less(a, c),
    decreases a.len(),
{
    if a.len() > 0 && b.len() > 0 && c.len() > 0 {
        lemma_text_less_transitive(a.drop_first(), b.drop_first(), c.drop_first());
    }
}

/// Whether `a` sorts before `b`.
pub fn text_less_than(a: &str, b: &str) -> (r: bool)
    ensures
        r == text_less(a@, b@),
{
    let x = chars_of(a);
    let y = chars_of(b);
    let mut i: usize = 0;
    assert(x@.skip(0) =~= x@ && y@.skip(0) =~= y@);
    while i < x.len() && i < y.len()
        invariant
            x@ == a@,
            y@ == b@,
            i <= x@.len(),
            i <= y@.len(),
            text_less(a@, b@) == text_less(x@.skip(i as int), y@.skip(i as int)),
        decreases x@.len() - i,
    {
        let ghost (p, q) = (x@.skip(i as int), y@.skip(i as int));
        assert(p[0] == x@[i as int] && q[0] == y@[i as int]);
        if x[i] != y[i] {
            return x[i] < y[i];
        }
        assert(p.drop_first() =~= x@.skip(i + 1));
        assert(q.drop_first() =~= y@.skip(i + 1));
        i = i + 1;
    }
    i < y.len()
}

/// Whether note `n` carries the tag `t`.
pub open spec fn note_has_tag(n: Note, t: Seq<char>) -> bool {
    lists_text(n.tags@, t)
}

/// Whether a note not in the trash carries the tag `t`.
pub open spec fn has_live_tag(notes: Seq<Note>, t: Seq<char>) -> bool {
    exists|i: int| 0 <= i < notes.len() && !notes[i].is_trashed && note_has_tag(#[trigger] notes[i], t)
}

/// The notes not in the trash that carry the tag `t`.
pub open spec fn tagged(notes: Seq<Note>, t: Seq<char>) -> Seq<Note> {
    notes.filter(|n: Note| !n.is_trashed && note_has_tag(n, t))
}

/// Whether `r` is the tag list of the sidebar for `notes`: every tag that
/// a note not in the trash carries, once each, in the order of `text_less`,
/// with the number of such notes that carry it.
pub open spec fn is_tag_summary(notes: Seq<Note>, r: Seq<(String, usize)>) -> bool {
    &&& forall|a: int, b: int| 0 <= a < b < r.len() ==> text_less(#[trigger] r[a].0@, #[trigger] r[b].0@)
    &&& forall|k: int| 0 <= k < r.len() ==> has_live_tag(notes, #[trigger] r[k].0@)
    &&& forall|k: int| 0 <= k < r.len() ==> (#[trigger] r[k]).1 == tagged(notes, r[k].0@).len()
    &&& forall|t: Seq<char>| has_live_tag(notes, t) ==> exists|k: int| 0 <= k < r.len() && (#[trigger] r[k]).0@ == t
}

/// Whether note `n` carries the tag `t` among its first `k` tags.
pub open spec fn has_tag_before(n: Note, t: Seq<char>, k: int) -> bool {
    exists|j: int| 0 <= j < k && #[trigger] n.tags@[j]@ == t
}

/// Whether a note before index `i` not in the trash carries the tag `t`,
/// or note `i`, when not in the trash, carries it among its first `k` tags.
pub open spec fn seen_tag(notes: Seq<Note>, i: int, k: int, t: Seq<char>) -> bool {
    ||| exists|j: int| 0 <= j < i && !notes[j].is_trashed && note_has_tag(#[trigger] notes[j], t)
    ||| (0 <= i < notes.len() && !notes[i].is_trashed && has_tag_before(notes[i], t, k))
}

/// Whether `keys` lists its texts strictly in the order of `text_less`.
pub open spec fn strictly_sorted(keys: Seq<String>) -> bool {
    forall|a: int, b: int| 0 <= a < b < keys.len() ==> text_less(#[trigger] keys[a]@, #[trigger] keys[b]@)
}

/// Whether some string of `keys` has the text `u`.
pub open spec fn lists_text(keys: Seq<String>, u: Seq<char>) -> bool {
    exists|k: int| 0 <= k < keys.len() && #[trigger] keys[k]@ == u
}

/// Adds `t` to the sorted `keys` unless it is there.
fn insert_key(keys: &mut Vec<String>, t: &String)
    requires
        strictly_sorted(old(keys)@),
    ensures
        strictly_sorted(final(keys)@),
        forall|u: Seq<char>| #[trigger] lists_text(final(keys)@, u)
            <==> (u == t@ || lists_text(old(keys)@, u)),
{
    let mut p: usize = 0;
    while p < keys.len() && text_less_than(keys[p].as_str(), t.as_str())
        invariant
            p <= keys@.len(),
            keys@ == old(keys)@,
            forall|a: int| 0 <= a < p ==> text_less(#[trigger] keys@[a]@, t@),
        decreases keys@.len() - p,
    {
        p = p + 1;
    }
    if p < keys.len() && keys[p] == *t {
        assert forall|u: Seq<char>| #[trigger] lists_text(keys@, u)
            <==> (u == t@ || lists_text(old(keys)@, u)) by {
            if u == t@ {
                assert(keys@[p as int]@ == u);
            }
        }
        return;
    }
    let ghost old_keys = keys@;
    proof {
        if p < old_keys.len() {
            lemma_text_less_order(old_keys[p as int]@, t@, t@);
            assert(old_keys[p as int]@ != t@);
            assert(text_less(t@, old_keys[p as int]@));
        }
    }
    keys.insert(p, t.clone());
    proof {
        assert forall|a: int, b: int| 0 <= a < b < keys@.len() implies text_less(
            #[trigger] keys@[a]@,
            #[trigger] keys@[b]@,
        ) by {
            if b < p {
                assert(keys@[a] == old_keys[a] && keys@[b] == old_keys[b]);
            } else if b == p {
                assert(keys@[a] == old_keys[a]);
            } else if a < p {
                assert(keys@[a] == old_keys[a] && keys@[b] == old_keys[b - 1]);
                lemma_text_less_order(old_keys[a]@, t@, old_keys[p as int]@);
                if b - 1 > p {
                    lemma_text_less_order(old_keys[a]@, old_keys[p as int]@, old_keys[b - 1]@);
                }
            } else if a == p {
                assert(keys@[b] == old_keys[b - 1]);
                if b - 1 > p {
                    lemma_text_less_order(t@, old_keys[p as int]@, old_keys[b - 1]@);
                }
            } else {
                assert(keys@[a] == old_keys[a - 1] && keys@[b] == old_keys[b - 1]);
            }
        }
        assert forall|u: Seq<char>| #[trigger] lists_text(keys@, u)
            <==> (u == t@ || lists_text(old_keys, u)) by {
            if lists_text(keys@, u) {
                let k = choose|k: int| 0 <= k < keys@.len() && #[trigger] keys@[k]@ == u;
                if k < p {
                    assert(old_keys[k]@ == u);
                } else if k > p {
                    assert(old_keys[k - 1]@ == u);
                }
            }
            if u == t@ {
                assert(keys@[p as int]@ == u);
            }
            if lists_text(old_keys, u) {
                let k = choose|k: int| 0 <= k < old_keys.len() && #[trigger] old_keys[k]@ == u;
                if k < p {
                    assert(keys@[k]@ == u);
                } else {
                    assert(keys@[k + 1]@ == u);
                }
            }
        }
    }
}

/// Whether note `n` carries the tag `t`.
fn carries_tag(n: &Note, t: &String) -> (r: bool)
    ensures
        r == note_has_tag(*n, t@),
{
    let mut k: usize = 0;
    while k < n.tags.len()
        invariant
            k <= n.tags@.len(),
            forall|j: int| 0 <= j < k ==> #[trigger] n.tags@[j]@ != t@,
        decreases n.tags@.len() - k,
    {
        if n.tags[k] == *t {
            return true;
        }
        k = k + 1;
    }
    false
}

/// The number of notes not in the trash that carry the tag `t`.
fn count_tagged(notes: &Vec<Note>, t: &String) -> (r: usize)
    ensures
        r == tagged(notes@, t@).len(),
{
    let ghost p = |n: Note| !n.is_trashed && note_has_tag(n, t@);
    let mut count: usize = 0;
    let mut i: usize = 0;
    while i < notes.len()
        invariant
            i <= notes@.len(),
            count == notes@.take(i as int).filter(p).len(),
            count <= i,
            p == (|n: Note| !n.is_trashed && note_has_tag(n, t@)),
        decreases notes@.len() - i,
    {
        proof {
            crate::workspace::lemma_filter_take_step(notes@, p, i as int);
        }
        if !notes[i].is_trashed && carries_tag(&notes[i], t) {
            count = count + 1;
        }
        i = i + 1;
    }
    proof {
        crate::workspace::lemma_filter_take_all(notes@, p);
    }
    count
}

/// The sorted tags carried by the notes not in the trash.
fn live_tags(notes: &Vec<Note>) -> (keys: Vec<String>)
    ensures
        strictly_sorted(keys@),
        forall|u: Seq<char>| #[trigger] lists_text(keys@, u)
            <==> has_live_tag(notes@, u),
{
    let mut keys: Vec<String> = Vec::new();
    let mut i: usize = 0;
    while i < notes.len()
        invariant
            i <= notes@.len(),
            strictly_sorted(keys@),
            forall|u: Seq<char>| #[trigger] lists_text(keys@, u)
                <==> seen_tag(notes@, i as int, 0, u),
        decreases notes@.len() - i,
    {
        let n = &notes[i];
        if !n.is_trashed {
            let mut k: usize = 0;
            while k < n.tags.len()
                invariant
                    i < notes@.len(),
                    *n == notes@[i as int],
                    !n.is_trashed,
                    k <= n.tags@.len(),
                    strictly_sorted(keys@),
                    forall|u: Seq<char>| #[trigger] lists_text(keys@, u)
                        <==> seen_tag(notes@, i as int, k as int, u),
                decreases n.tags@.len() - k,
            {
                let ghost before = keys@;
                insert_key(&mut keys, &n.tags[k]);
                proof {
                    assert forall|u: Seq<char>| seen_tag(notes@, i as int, k + 1, u) <==> (u == n.tags@[k as int]@
                        || seen_tag(notes@, i as int, k as int, u)) by {
                        if has_tag_before(*n, u, k + 1) && u != n.tags@[k as int]@ {
                            let j = choose|j: int| 0 <= j < k + 1 && #[trigger] n.tags@[j]@ == u;
                            assert(has_tag_before(*n, u, k as int));
                        }
                        if u == n.tags@[k as int]@ {
                            assert(has_tag_before(*n, u, k + 1));
                        }
                        if has_tag_before(*n, u, k as int) {
                            let j = choose|j: int| 0 <= j < k && #[trigger] n.tags@[j]@ == u;
                            assert(has_tag_before(*n, u, k + 1));
                        }
                    }
                }
                k = k + 1;
            }
            proof {
                assert forall|u: Seq<char>| seen_tag(notes@, i + 1, 0, u) <==> seen_tag(notes@, i as int, k as int, u) by {
                    if has_tag_before(*n, u, k as int) {
                        let j = choose|j: int| 0 <= j < k && #[trigger] n.tags@[j]@ == u;
                        assert(note_has_tag(notes@[i as int], u));
                    }
                    if exists|j: int| 0 <= j < i + 1 && !notes@[j].is_trashed && note_has_tag(#[trigger] notes@[j], u) {
                        let j = choose|j: int| 0 <= j < i + 1 && !notes@[j].is_trashed && note_has_tag(#[trigger] notes@[j], u);
                        if j == i {
                            let m = choose|m: int| 0 <= m < n.tags@.len() && #[trigger] n.tags@[m]@ == u;
                            assert(has_tag_before(*n, u, k as int));
                        }
                    }
                }
            }
        } else {
            proof {
                assert forall|u: Seq<char>| seen_tag(notes@, i + 1, 0, u) <==> seen_tag(notes@, i as int, 0, u) by {
                    if exists|j: int| 0 <= j < i + 1 && !notes@[j].is_trashed && note_has_tag(#[trigger] notes@[j], u) {
                        let j = choose|j: int| 0 <= j < i + 1 && !notes@[j].is_trashed && note_has_tag(#[trigger] notes@[j], u);
                        assert(j != i);
                    }
                }
            }
        }
        i = i + 1;
    }
    keys
}

/// A tag carried by a note not in the trash is counted for at least one
/// note.
pub proof fn lemma_live_tag_counted(notes: Seq<Note>, t: Seq<char>)
    requires
        has_live_tag(notes, t),
    ensures
        tagged(notes, t).len() >= 1,
{
    let i = choose|i: int| 0 <= i < notes.len() && !notes[i].is_trashed && note_has_tag(#[trigger] notes[i], t);
    let p = |n: Note| !n.is_trashed && note_has_tag(n, t);
    assert(p(notes[i]));
    notes.lemma_filter_contains(p, i);
}

/// The tag list of the sidebar: each tag carried by a note not in the
/// trash, once, in sorted order, with the number of such notes that carry
/// it (at least one).
pub fn tag_summary(notes: &Vec<Note>) -> (r: Vec<(String, usize)>)
    ensures
        is_tag_summary(notes@, r@),
        forall|k: int| 0 <= k < r@.len() ==> (#[trigger] r@[k]).1 >= 1,
{
    let keys = live_tags(notes);
    let mut r: Vec<(String, usize)> = Vec::new();
    let mut k: usize = 0;
    while k < keys.len()
        invariant
            k <= keys@.len(),
            r@.len() == k,
            strictly_sorted(keys@),
            forall|u: Seq<char>| #[trigger] lists_text(keys@, u)
                <==> has_live_tag(notes@, u),
            forall|j: int| 0 <= j < k ==> (#[trigger] r@[j]).0@ == keys@[j]@,
            forall|j: int| 0 <= j < k ==> (#[trigger] r@[j]).1 == tagged(notes@, keys@[j]@).len(),
        decreases keys@.len() - k,
    {
        let count = count_tagged(notes, &keys[k]);
        r.push((keys[k].clone(), count));
        k = k + 1;
    }
    proof {
        assert forall|a: int, b: int| 0 <= a < b < r@.len() implies text_less(#[trigger] r@[a].0@, #[trigger] r@[b].0@) by {
            assert(text_less(keys@[a]@, keys@[b]@));
        }
        assert forall|j: int| 0 <= j < r@.len() implies has_live_tag(notes@, #[trigger] r@[j].0@) by {
            assert(keys@[j]@ == r@[j].0@);
            assert(lists_text(keys@, r@[j].0@));
        }
        assert forall|j: int| 0 <= j < r@.len() implies (#[trigger] r@[j]).1 >= 1 by {
            assert(lists_text(keys@, keys@[j]@));
            lemma_live_tag_counted(notes@, keys@[j]@);
        }
        assert forall|t: Seq<char>| has_live_tag(notes@, t) implies exists|j: int| 0 <= j < r@.len() && (#[trigger] r@[j]).0@ == t by {
            assert(lists_text(keys@, t));
            let j = choose|j: int| 0 <= j < keys@.len() && #[trigger] keys@[j]@ == t;
            assert(r@[j].0@ == t);
        }
    }
    r
}

} // verus!
