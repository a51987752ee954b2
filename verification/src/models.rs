//! Notes and the rules that read them: titles, excerpts, search, counts and
//! the sidebar filters.

use vstd::prelude::*;
use crate::text::{
    chars_of, contains_seq, contains_str, count_words, eq_ignore_ascii_case,
    ascii_lower_code, eq_ignore_ascii_case_seq, is_blank, line_ranges, lines, string_of_range, skip_char,
    to_lowercase, trim, trim_range, trim_start_char, trimmed, unicode_lowercase, word_count_of,
};

verus! {

/// A point in time: whole seconds since the Unix epoch and the nanoseconds
/// past that second.
#[derive(Debug, Clone, Copy, PartialEq, Eq, Structural)]
pub struct Timestamp {
    pub secs: i64,
    pub nanos: u32,
}

/// Whether `a` is strictly earlier than `b`.
pub open spec fn earlier(a: Timestamp, b: Timestamp) -> bool {
    a.secs < b.secs || (a.secs == b.secs && a.nanos < b.nanos)
}

impl Timestamp {
    /// Whether `self` is strictly earlier than `other`.
    pub fn is_before(&self, other: &Timestamp) -> (r: bool)
        ensures
            r == earlier(*self, *other),
    {
        self.secs < other.secs || (self.secs == other.secs && self.nanos < other.nanos)
    }
}

/// Reads the system clock with `chrono::Utc::now`. The time it returns is
/// whatever the clock says; stated is only what the source shows of every
/// reading: it is built from a `Duration` since the epoch, whose sub-second
/// part is below one second, so its nanoseconds are below 10^9. (The call
/// panics when the clock is before the epoch.)
#[verifier::external_body]
pub(crate) fn clock_now() -> (t: Timestamp)
    ensures
        t.nanos < 1_000_000_000,
{
    let now = chrono::Utc::now();
    Timestamp { secs: now.timestamp(), nanos: now.timestamp_subsec_nanos() }
}

/// Whether `c` is an ASCII lower-case hexadecimal digit.
pub open spec fn is_lower_hex(c: char) -> bool {
    ('0' <= c <= '9') || ('a' <= c <= 'f')
}

/// Whether `s` is a version 4 UUID written hyphenated in lower case:
/// `xxxxxxxx-xxxx-4xxx-yxxx-xxxxxxxxxxxx`, with `y` one of `8`, `9`, `a`,
/// `b` (the RFC 4122 variant).
pub open spec fn is_uuid_text(s: Seq<char>) -> bool {
    &&& s.len() == 36
    &&& forall|i: int|
        0 <= i < 36 ==> if i == 8 || i == 13 || i == 18 || i == 23 {
            s[i] == '-'
        } else {
            is_lower_hex(#[trigger] s[i])
        }
    &&& s[14] == '4'
    &&& (s[19] == '8' || s[19] == '9' || s[19] == 'a' || s[19] == 'b')
}

/// Makes a random (version 4) UUID with `uuid::Uuid::new_v4` and writes it
/// with `to_string`, which the crate formats as hyphenated lower-case hex.
/// `new_v4` sets the version nibble to 4 and the variant bits to RFC 4122;
/// the other digits are chance and only their shape is stated. (`new_v4`
/// panics when the system gives no random bytes.)
#[verifier::external_body]
pub(crate) fn new_uuid_text() -> (r: String)
    ensures
        is_uuid_text(r@),
{
    uuid::Uuid::new_v4().to_string()
}

/// A note.
#[derive(Debug, Clone, PartialEq)]
pub struct Note {
    pub id: String,
    pub title: String,
    pub content: String,
    pub tags: Vec<String>,
    pub is_pinned: bool,
    pub is_trashed: bool,
    pub created_at: Timestamp,
    pub updated_at: Timestamp,
}

/// Whether `a` and `b` hold the same note: the same fields, the tags
/// compared as sequences.
pub open spec fn same_note(a: Note, b: Note) -> bool {
    &&& a.id == b.id
    &&& a.title == b.title
    &&& a.content == b.content
    &&& a.tags@ == b.tags@
    &&& a.is_pinned == b.is_pinned
    &&& a.is_trashed == b.is_trashed
    &&& a.created_at == b.created_at
    &&& a.updated_at == b.updated_at
}

/// The title shown for a note that has none.
pub open spec fn untitled_text() -> Seq<char> {
    "Untitled Note"@
}

/// The excerpt shown for a note without further text.
pub open spec fn no_text() -> Seq<char> {
    "No additional text"@
}

/// `s` cut to its first `n` characters, with an ellipsis, when it is longer.
pub open spec fn ellipsized(s: Seq<char>, n: nat) -> Seq<char> {
    if s.len() > n {
        s.take(n as int) + "…"@
    } else {
        s
    }
}

/// The lines of `ls` from index `i` on that are not blank, in order.
pub open spec fn nonblank_from(ls: Seq<Seq<char>>, i: int) -> Seq<Seq<char>>
    decreases ls.len() - i,
{
    if i < 0 || i >= ls.len() {
        seq![]
    } else if is_blank(ls[i]) {
        nonblank_from(ls, i + 1)
    } else {
        seq![ls[i]] + nonblank_from(ls, i + 1)
    }
}

/// The lines of `ls` that are not blank, in order.
pub open spec fn nonblank(ls: Seq<Seq<char>>) -> Seq<Seq<char>> {
    nonblank_from(ls, 0)
}

/// A heading line cleaned for use as a title: trimmed, without its leading
/// `#`s, trimmed again.
pub open spec fn title_line_text(l: Seq<char>) -> Seq<char> {
    trim(trim_start_char(trim(l), '#'))
}

/// The title a note is shown under: its trimmed title; without one, its
/// first non-blank content line cleaned of heading marks and cut to 40
/// characters; and "Untitled Note" when that is empty too.
pub open spec fn display_title_of(title: Seq<char>, content: Seq<char>) -> Seq<char> {
    if trim(title).len() > 0 {
        trim(title)
    } else {
        let nb = nonblank(lines(content));
        if nb.len() > 0 && title_line_text(nb[0]).len() > 0 {
            ellipsized(title_line_text(nb[0]), 40)
        } else {
            untitled_text()
        }
    }
}

/// A content line cleaned for use as an excerpt: trimmed, without leading
/// `#`, `-`, `*` and `>` runs (in that order), trimmed again.
pub open spec fn excerpt_line_text(l: Seq<char>) -> Seq<char> {
    trim(
        trim_start_char(
            trim_start_char(trim_start_char(trim_start_char(trim(l), '#'), '-'), '*'),
            '>',
        ),
    )
}

/// The excerpt shown under a note in the list: the first non-blank content
/// line (the second one for an untitled note, whose first line is the
/// title), cleaned and cut to 60 characters, or "No additional text".
pub open spec fn excerpt_of(title: Seq<char>, content: Seq<char>) -> Seq<char> {
    let nb = nonblank(lines(content));
    let raw = if trim(title).len() > 0 {
        if nb.len() >= 1 {
            nb[0]
        } else {
            no_text()
        }
    } else {
        if nb.len() >= 2 {
            nb[1]
        } else {
            no_text()
        }
    };
    if excerpt_line_text(raw).len() == 0 {
        no_text()
    } else {
        ellipsized(excerpt_line_text(raw), 60)
    }
}

/// Whether a note with this title, content and tags matches a search query:
/// the trimmed, lower-cased query is empty or occurs in the lower-cased
/// title, content or one of the tags.
pub open spec fn matches_query_of(
    title: Seq<char>,
    content: Seq<char>,
    tags: Seq<String>,
    query: Seq<char>,
) -> bool {
    let q = unicode_lowercase(trim(query));
    ||| q.len() == 0
    ||| contains_seq(unicode_lowercase(title), q)
    ||| contains_seq(unicode_lowercase(content), q)
    ||| exists|i: int| 0 <= i < tags.len() && contains_seq(unicode_lowercase(#[trigger] tags[i]@), q)
}

/// The estimated reading time in minutes for a text of `words` words.
pub open spec fn reading_minutes(words: nat) -> nat {
    if words == 0 {
        0
    } else if words / 200 >= 1 {
        words / 200
    } else {
        1
    }
}

/// The number of lines of a text: 0 for the empty text.
pub open spec fn line_count_of(content: Seq<char>) -> nat {
    if content.len() == 0 {
        0
    } else {
        lines(content).len()
    }
}

/// Every note has a title to show: the display title is never empty, and
/// a display title is never longer than the trimmed title, or else 41
/// characters (40 and the ellipsis).
pub proof fn lemma_display_title_nonempty(title: Seq<char>, content: Seq<char>)
    ensures
        display_title_of(title, content).len() > 0,
        trim(title).len() == 0 ==> display_title_of(title, content).len() <= 41,
{
    reveal_strlit("Untitled Note");
    reveal_strlit("…");
}

/// The sidebar's filters: every note is listed under exactly one of "All
/// Notes" and "Trash", and a note listed under "Favorites" or under a tag is
/// listed under "All Notes".
pub proof fn lemma_filters_partition(tags: Seq<String>, is_pinned: bool, is_trashed: bool, tag: String)
    ensures
        filter_matches(FilterMode::All, tags, is_pinned, is_trashed) != filter_matches(
            FilterMode::Trash,
            tags,
            is_pinned,
            is_trashed,
        ),
        filter_matches(FilterMode::Favorites, tags, is_pinned, is_trashed) ==> filter_matches(
            FilterMode::All,
            tags,
            is_pinned,
            is_trashed,
        ),
        filter_matches(FilterMode::Tag(tag), tags, is_pinned, is_trashed) ==> filter_matches(
            FilterMode::All,
            tags,
            is_pinned,
            is_trashed,
        ),
{
}

/// A note outside the trash is listed under a tag when any one of its tags,
/// at whatever position, is that tag up to ASCII case; and only then.
pub proof fn lemma_tag_filter_any_tag(tags: Seq<String>, is_pinned: bool, is_trashed: bool, t: String, k: int)
    requires
        0 <= k < tags.len(),
    ensures
        !is_trashed && tags[k]@.len() == t@.len() && (forall|j: int|
            0 <= j < t@.len() ==> ascii_lower_code(#[trigger] tags[k]@[j]) == ascii_lower_code(t@[j]))
            ==> filter_matches(FilterMode::Tag(t), tags, is_pinned, is_trashed),
        tags[k]@ == t@ && !is_trashed ==> filter_matches(FilterMode::Tag(t), tags, is_pinned, is_trashed),
        filter_matches(FilterMode::Tag(t), tags, is_pinned, is_trashed) ==> !is_trashed && exists|i: int|
            0 <= i < tags.len() && (#[trigger] tags[i]@).len() == t@.len() && forall|j: int|
                0 <= j < t@.len() ==> ascii_lower_code(tags[i]@[j]) == ascii_lower_code(t@[j]),
{
    if !is_trashed && tags[k]@.len() == t@.len() && (forall|j: int|
        0 <= j < t@.len() ==> ascii_lower_code(#[trigger] tags[k]@[j]) == ascii_lower_code(t@[j])) {
        assert(eq_ignore_ascii_case_seq(tags[k]@, t@));
    }
    if filter_matches(FilterMode::Tag(t), tags, is_pinned, is_trashed) {
        let i = choose|i: int| 0 <= i < tags.len() && eq_ignore_ascii_case_seq(#[trigger] tags[i]@, t@);
        assert(tags[i]@.len() == t@.len());
    }
}

/// The first non-blank line from index `f` on is line `i` when the lines
/// between are blank.
proof fn lemma_first_nonblank(ls: Seq<Seq<char>>, f: int, i: int)
    requires
        0 <= f <= i < ls.len(),
        forall|j: int| f <= j < i ==> trim(#[trigger] ls[j]).len() == 0,
        trim(ls[i]).len() > 0,
    ensures
        nonblank_from(ls, f).len() > 0,
        nonblank_from(ls, f)[0] == ls[i],
    decreases i - f,
{
    if f < i {
        lemma_first_nonblank(ls, f + 1, i);
    }
}

/// No line from index `f` on is non-blank when all of them are blank.
proof fn lemma_all_blank(ls: Seq<Seq<char>>, f: int)
    requires
        0 <= f,
        forall|j: int| f <= j < ls.len() ==> trim(#[trigger] ls[j]).len() == 0,
    ensures
        nonblank_from(ls, f).len() == 0,
    decreases ls.len() - f,
{
    if f < ls.len() {
        lemma_all_blank(ls, f + 1);
    }
}

/// A note without a title is shown under its first non-blank content line,
/// whatever that line starts with: trimmed, without its leading `#` marks,
/// trimmed again, and cut to 40 characters and an ellipsis; "Untitled Note"
/// only when that leaves nothing or every line is blank.
pub proof fn lemma_untitled_display_title(title: Seq<char>, content: Seq<char>, i: int)
    requires
        trim(title).len() == 0,
        0 <= i < lines(content).len(),
        forall|j: int| 0 <= j < i ==> trim(#[trigger] lines(content)[j]).len() == 0,
        trim(lines(content)[i]).len() > 0,
    ensures
        ({
            let c = trim(trim_start_char(trim(lines(content)[i]), '#'));
            &&& c.len() > 0 && c.len() <= 40 ==> display_title_of(title, content) == c
            &&& c.len() > 40 ==> display_title_of(title, content) == c.take(40) + "…"@
            &&& c.len() == 0 ==> display_title_of(title, content) == "Untitled Note"@
        }),
{
    lemma_first_nonblank(lines(content), 0, i);
}

/// A note without a title whose content lines are all blank is shown as
/// "Untitled Note".
pub proof fn lemma_blank_note_untitled(title: Seq<char>, content: Seq<char>)
    requires
        trim(title).len() == 0,
        forall|j: int| 0 <= j < lines(content).len() ==> trim(#[trigger] lines(content)[j]).len() == 0,
    ensures
        display_title_of(title, content) == "Untitled Note"@,
{
    lemma_all_blank(lines(content), 0);
}

/// The placeholder excerpt is its own cleaned form and short enough.
pub proof fn lemma_no_text_is_clean()
    ensures
        excerpt_line_text(no_text()) == no_text(),
        ellipsized(no_text(), 60) == no_text(),
{
    reveal_strlit("No additional text");
    let t = no_text();
    assert(t.len() == 18);
    assert(t[0] == 'N');
    assert(t.last() == 't');
    assert(!crate::text::is_white_space(t[0]));
    assert(!crate::text::is_white_space(t.last()));
    assert(crate::text::trim_start(t) == t);
    assert(crate::text::trim_end(t) == t);
    assert(trim(t) == t);
    assert(trim_start_char(t, '#') == t);
    assert(trim_start_char(t, '-') == t);
    assert(trim_start_char(t, '*') == t);
    assert(trim_start_char(t, '>') == t);
}

/// The text `v[lo..hi]`, cut to `n` characters with an ellipsis when longer.
fn ellipsize_range(v: &Vec<char>, lo: usize, hi: usize, n: usize) -> (r: String)
    requires
        lo <= hi <= v.len(),
    ensures
        r@ == ellipsized(v@.subrange(lo as int, hi as int), n as nat),
{
    if hi - lo > n {
        let mut s = string_of_range(v, lo, lo + n);
        s.append("…");
        assert(v@.subrange(lo as int, hi as int).take(n as int) =~= v@.subrange(
            lo as int,
            lo + n,
        ));
        s
    } else {
        string_of_range(v, lo, hi)
    }
}

/// Scans the lines of `c` (whose ranges are `ranges`) from line `k` on for
/// the first `want` non-blank ones; returns their trimmed ranges.
fn first_nonblank_lines(c: &Vec<char>, ranges: &Vec<(usize, usize)>, want: usize) -> (r: Vec<
    (usize, usize),
>)
    requires
        ranges@.len() == lines(c@).len(),
        forall|k: int|
            #![trigger ranges@[k]]
            0 <= k < ranges@.len() ==> ranges@[k].0 <= ranges@[k].1 <= c@.len() && lines(c@)[k]
                == c@.subrange(ranges@[k].0 as int, ranges@[k].1 as int),
    ensures
        r@.len() == if nonblank(lines(c@)).len() < want {
            nonblank(lines(c@)).len()
        } else {
            want as nat
        },
        forall|j: int|
            #![trigger r@[j]]
            0 <= j < r@.len() ==> r@[j].0 <= r@[j].1 <= c@.len() && c@.subrange(
                r@[j].0 as int,
                r@[j].1 as int,
            ) == trim(nonblank(lines(c@))[j]),
{
    let ghost ls = lines(c@);
    let mut r: Vec<(usize, usize)> = Vec::new();
    let mut k: usize = 0;
    while k < ranges.len() && r.len() < want
        invariant
            ranges@.len() == ls.len(),
            ls == lines(c@),
            forall|j: int|
                #![trigger ranges@[j]]
                0 <= j < ranges@.len() ==> ranges@[j].0 <= ranges@[j].1 <= c@.len() && ls[j]
                    == c@.subrange(ranges@[j].0 as int, ranges@[j].1 as int),
            k <= ranges@.len(),
            r@.len() <= want,
            r@.len() + nonblank_from(ls, k as int).len() == nonblank(ls).len(),
            forall|j: int|
                0 <= j < nonblank_from(ls, k as int).len() ==> #[trigger] nonblank(ls)[r@.len()
                    + j] == nonblank_from(ls, k as int)[j],
            forall|j: int|
                #![trigger r@[j]]
                0 <= j < r@.len() ==> r@[j].0 <= r@[j].1 <= c@.len() && c@.subrange(
                    r@[j].0 as int,
                    r@[j].1 as int,
                ) == trim(nonblank(ls)[j]),
        decreases ranges@.len() - k,
    {
        let (lo, hi) = ranges[k];
        assert(ranges@[k as int] == (lo, hi));
        let (x, y) = trim_range(c, lo, hi);
        let ghost rest = nonblank_from(ls, k + 1);
        if x < y {
            assert(nonblank_from(ls, k as int) == seq![ls[k as int]] + rest);
            assert(nonblank(ls)[r@.len() + 0int] == nonblank_from(ls, k as int)[0]);
            let ghost old_len = r@.len();
            r.push((x, y));
            assert forall|j: int| 0 <= j < rest.len() implies #[trigger] nonblank(ls)[r@.len()
                + j] == rest[j] by {
                assert(nonblank(ls)[old_len + (j + 1)] == nonblank_from(ls, k as int)[j + 1]);
            }
        } else {
            assert(nonblank_from(ls, k as int) == rest);
        }
        k = k + 1;
    }
    if r.len() < want {
        assert(nonblank_from(ls, k as int).len() == 0);
    }
    r
}

impl Note {
    /// A new empty note with a fresh UUID, created and updated now.
    pub fn new() -> (n: Note)
        ensures
            is_uuid_text(n.id@),
            n.title@.len() == 0,
            n.content@.len() == 0,
            n.tags@.len() == 0,
            !n.is_pinned,
            !n.is_trashed,
            n.created_at == n.updated_at,
            n.created_at.nanos < 1_000_000_000,
    {
        let now = clock_now();
        Note {
            id: new_uuid_text(),
            title: String::new(),
            content: String::new(),
            tags: Vec::new(),
            is_pinned: false,
            is_trashed: false,
            created_at: now,
            updated_at: now,
        }
    }

    /// A new note with the given title and content.
    pub fn with_title_and_content(title: &str, content: &str) -> (n: Note)
        ensures
            is_uuid_text(n.id@),
            n.title@ == title@,
            n.content@ == content@,
            n.tags@.len() == 0,
            !n.is_pinned,
            !n.is_trashed,
            n.created_at == n.updated_at,
            n.created_at.nanos < 1_000_000_000,
    {
        let mut note = Note::new();
        note.title = String::from_str(title);
        note.content = String::from_str(content);
        note
    }

    /// The title the note is shown under.
    pub fn display_title(&self) -> (r: String)
        ensures
            r@ == display_title_of(self.title@, self.content@),
    {
        let t = chars_of(self.title.as_str());
        let (a, b) = trim_range(&t, 0, t.len());
        assert(t@.subrange(0, t@.len() as int) =~= t@);
        if a < b {
            return string_of_range(&t, a, b);
        }
        let c = chars_of(self.content.as_str());
        let ranges = line_ranges(&c);
        let first = first_nonblank_lines(&c, &ranges, 1);
        if first.len() == 1 {
            let (x, y) = first[0];
            assert(first@[0] == (x, y));
            let z = skip_char(&c, x, y, '#');
            let (p, q) = trim_range(&c, z, y);
            if p < q {
                return ellipsize_range(&c, p, q, 40);
            }
        }
        String::from_str("Untitled Note")
    }

    /// The excerpt shown under the note in the list.
    pub fn excerpt(&self) -> (r: String)
        ensures
            r@ == excerpt_of(self.title@, self.content@),
    {
        let t = chars_of(self.title.as_str());
        let (a, b) = trim_range(&t, 0, t.len());
        assert(t@.subrange(0, t@.len() as int) =~= t@);
        let c = chars_of(self.content.as_str());
        let ranges = line_ranges(&c);
        let want: usize = if a < b {
            1
        } else {
            2
        };
        let found = first_nonblank_lines(&c, &ranges, want);
        if found.len() == want {
            let (x, y) = found[want - 1];
            assert(found@[want - 1] == (x, y));
            let ghost raw = nonblank(lines(c@))[want - 1];
            let (x1, y1) = trim_range(&c, x, y);
            assert(c@.subrange(x1 as int, y1 as int) == trim(raw)) by {
                crate::text::lemma_trim_idempotent(raw);
            }
            let z1 = skip_char(&c, x1, y1, '#');
            let z2 = skip_char(&c, z1, y1, '-');
            let z3 = skip_char(&c, z2, y1, '*');
            let z4 = skip_char(&c, z3, y1, '>');
            let (p, q) = trim_range(&c, z4, y1);
            if p < q {
                return ellipsize_range(&c, p, q, 60);
            }
        }
        proof {
            lemma_no_text_is_clean();
        }
        String::from_str("No additional text")
    }

    /// Whether the note matches the search `query`.
    pub fn matches_query(&self, query: &str) -> (r: bool)
        ensures
            r == matches_query_of(self.title@, self.content@, self.tags@, query@),
            trim(query@).len() == 0 ==> r,
    {
        let trimmed_query = trimmed(query);
        let q = to_lowercase(trimmed_query.as_str());
        if q.as_str().is_empty() {
            return true;
        }
        let title = to_lowercase(self.title.as_str());
        if contains_str(title.as_str(), q.as_str()) {
            return true;
        }
        let content = to_lowercase(self.content.as_str());
        if contains_str(content.as_str(), q.as_str()) {
            return true;
        }
        let mut i: usize = 0;
        while i < self.tags.len()
            invariant
                i <= self.tags@.len(),
                q@ == unicode_lowercase(trim(query@)),
                forall|k: int|
                    0 <= k < i ==> !contains_seq(unicode_lowercase(#[trigger] self.tags@[k]@), q@),
            decreases self.tags@.len() - i,
        {
            let tag = to_lowercase(self.tags[i].as_str());
            if contains_str(tag.as_str(), q.as_str()) {
                return true;
            }
            i = i + 1;
        }
        false
    }

    /// The number of words of the content.
    pub fn word_count(&self) -> (r: usize)
        ensures
            r == count_words(self.content@),
    {
        word_count_of(self.content.as_str())
    }

    /// The number of characters of the content.
    pub fn char_count(&self) -> (r: usize)
        ensures
            r == self.content@.len(),
    {
        chars_of(self.content.as_str()).len()
    }

    /// The number of lines of the content.
    pub fn line_count(&self) -> (r: usize)
        ensures
            r == line_count_of(self.content@),
    {
        let c = chars_of(self.content.as_str());
        if c.len() == 0 {
            0
        } else {
            line_ranges(&c).len()
        }
    }

    /// The estimated reading time of the content, in minutes (200 words a
    /// minute, at least one minute for a non-empty text).
    pub fn reading_time_mins(&self) -> (r: usize)
        ensures
            r == reading_minutes(count_words(self.content@)),
    {
        let words = self.word_count();
        if words == 0 {
            0
        } else if words / 200 >= 1 {
            words / 200
        } else {
            1
        }
    }

    /// Marks the note as updated now: its update time becomes a reading of
    /// the clock (whole seconds and fewer than 10^9 nanoseconds).
    pub fn touch(&mut self)
        ensures
            final(self).updated_at.nanos < 1_000_000_000,
            final(self).id == old(self).id,
            final(self).title == old(self).title,
            final(self).content == old(self).content,
            final(self).tags == old(self).tags,
            final(self).is_pinned == old(self).is_pinned,
            final(self).is_trashed == old(self).is_trashed,
            final(self).created_at == old(self).created_at,
    {
        self.updated_at = clock_now();
    }
}

/// Which notes the sidebar shows.
#[derive(Debug, Clone, PartialEq)]
pub enum FilterMode {
    All,
    Favorites,
    Trash,
    Tag(String),
}

/// Whether a note with the given tags and flags passes the filter.
pub open spec fn filter_matches(
    mode: FilterMode,
    tags: Seq<String>,
    is_pinned: bool,
    is_trashed: bool,
) -> bool {
    match mode {
        FilterMode::All => !is_trashed,
        FilterMode::Favorites => !is_trashed && is_pinned,
        FilterMode::Trash => is_trashed,
        FilterMode::Tag(t) => !is_trashed && exists|i: int|
            0 <= i < tags.len() && eq_ignore_ascii_case_seq(#[trigger] tags[i]@, t@),
    }
}

impl FilterMode {
    /// Whether `note` passes the filter.
    pub fn matches(&self, note: &Note) -> (r: bool)
        ensures
            r == filter_matches(*self, note.tags@, note.is_pinned, note.is_trashed),
    {
        match self {
            FilterMode::All => !note.is_trashed,
            FilterMode::Favorites => !note.is_trashed && note.is_pinned,
            FilterMode::Trash => note.is_trashed,
            FilterMode::Tag(tag) => {
                if note.is_trashed {
                    return false;
                }
                let mut i: usize = 0;
                while i < note.tags.len()
                    invariant
                        i <= note.tags@.len(),
                        *self == FilterMode::Tag(*tag),
                        !note.is_trashed,
                        forall|k: int|
                            0 <= k < i ==> !eq_ignore_ascii_case_seq(
                                #[trigger] note.tags@[k]@,
                                tag@,
                            ),
                    decreases note.tags@.len() - i,
                {
                    if eq_ignore_ascii_case(note.tags[i].as_str(), tag.as_str()) {
                        assert(eq_ignore_ascii_case_seq(note.tags@[i as int]@, tag@));
                        return true;
                    }
                    i = i + 1;
                }
                false
            },
        }
    }
}

} // verus!
