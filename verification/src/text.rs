//! Character-level text rules shared by the notes model, the importer and
//! the Markdown renderer: Unicode white space, trimming, line splitting,
//! substring search, word counting, case folding and decimal numbers.

use vstd::prelude::*;

verus! {

pub assume_specification[ String::push ](s: &mut String, ch: char)
    ensures
        final(s)@ == old(s)@.push(ch),
;

/// Whether `c` has the Unicode `White_Space` property (the characters that
/// `char::is_whitespace` accepts).
pub open spec fn is_white_space(c: char) -> bool {
    let n = c as u32;
    ||| 0x9 <= n <= 0xd
    ||| n == 0x20
    ||| n == 0x85
    ||| n == 0xa0
    ||| n == 0x1680
    ||| 0x2000 <= n <= 0x200a
    ||| n == 0x2028
    ||| n == 0x2029
    ||| n == 0x202f
    ||| n == 0x205f
    ||| n == 0x3000
}

/// `s` without its leading white space.
pub open spec fn trim_start(s: Seq<char>) -> Seq<char>
    decreases s.len(),
{
    if s.len() > 0 && is_white_space(s[0]) {
        trim_start(s.drop_first())
    } else {
        s
    }
}

/// `s` without its trailing white space.
pub open spec fn trim_end(s: Seq<char>) -> Seq<char>
    decreases s.len(),
{
    if s.len() > 0 && is_white_space(s.last()) {
        trim_end(s.drop_last())
    } else {
        s
    }
}

/// `s` without white space at either end.
pub open spec fn trim(s: Seq<char>) -> Seq<char> {
    trim_end(trim_start(s))
}

/// `s` without the leading run of the character `c`.
pub open spec fn trim_start_char(s: Seq<char>, c: char) -> Seq<char>
    decreases s.len(),
{
    if s.len() > 0 && s[0] == c {
        trim_start_char(s.drop_first(), c)
    } else {
        s
    }
}

/// Whether `s` is empty once trimmed.
pub open spec fn is_blank(s: Seq<char>) -> bool {
    trim(s).len() == 0
}

/// Whether `c` has the White_Space property.
pub fn is_whitespace(c: char) -> (r: bool)
    ensures
        r == is_white_space(c),
{
    let n = c as u32;
    (0x9 <= n && n <= 0xd) || n == 0x20 || n == 0x85 || n == 0xa0 || n == 0x1680 || (0x2000
        <= n && n <= 0x200a) || n == 0x2028 || n == 0x2029 || n == 0x202f || n == 0x205f || n
        == 0x3000
}

/// The characters of `s`, in order.
pub fn chars_of(s: &str) -> (v: Vec<char>)
    ensures
        v@ == s@,
{
    let mut v: Vec<char> = Vec::new();
    for c in it: s.chars()
        invariant
            v@ == it.seq().take(it.index() as int),
            it.seq() == s@,
    {
        v.push(c);
    }
    v
}

/// The string made of `v[lo..hi]`.
pub fn string_of_range(v: &Vec<char>, lo: usize, hi: usize) -> (s: String)
    requires
        lo <= hi <= v.len(),
    ensures
        s@ == v@.subrange(lo as int, hi as int),
{
    let mut s = String::new();
    let mut i: usize = lo;
    while i < hi
        invariant
            lo <= i <= hi <= v.len(),
            s@ == v@.subrange(lo as int, i as int),
        decreases hi - i,
    {
        s.push(v[i]);
        assert(v@.subrange(lo as int, i as int).push(v@[i as int]) =~= v@.subrange(
            lo as int,
            i + 1,
        ));
        i = i + 1;
    }
    s
}

/// Appends the characters `v[lo..hi]` to `s`.
pub fn push_range(s: &mut String, v: &Vec<char>, lo: usize, hi: usize)
    requires
        lo <= hi <= v.len(),
    ensures
        final(s)@ == old(s)@ + v@.subrange(lo as int, hi as int),
{
    let mut i: usize = lo;
    while i < hi
        invariant
            lo <= i <= hi <= v.len(),
            s@ == old(s)@ + v@.subrange(lo as int, i as int),
        decreases hi - i,
    {
        s.push(v[i]);
        assert(old(s)@ + v@.subrange(lo as int, i as int).push(v@[i as int]) =~= old(s)@
            + v@.subrange(lo as int, i + 1));
        i = i + 1;
    }
}

/// The first index in `lo..hi` from which `v[k..hi]` is `v[lo..hi]` without
/// its leading white space.
pub fn skip_white_space(v: &Vec<char>, lo: usize, hi: usize) -> (k: usize)
    requires
        lo <= hi <= v.len(),
    ensures
        lo <= k <= hi,
        v@.subrange(k as int, hi as int) == trim_start(v@.subrange(lo as int, hi as int)),
{
    let mut k = lo;
    while k < hi && is_whitespace(v[k])
        invariant
            lo <= k <= hi <= v.len(),
            trim_start(v@.subrange(k as int, hi as int)) == trim_start(
                v@.subrange(lo as int, hi as int),
            ),
        decreases hi - k,
    {
        assert(v@.subrange(k as int, hi as int).drop_first() =~= v@.subrange(k + 1, hi as int));
        k = k + 1;
    }
    k
}

/// The first index in `lo..hi` from which `v[k..hi]` is `v[lo..hi]` without
/// its leading run of `c`.
pub fn skip_char(v: &Vec<char>, lo: usize, hi: usize, c: char) -> (k: usize)
    requires
        lo <= hi <= v.len(),
    ensures
        lo <= k <= hi,
        v@.subrange(k as int, hi as int) == trim_start_char(v@.subrange(lo as int, hi as int), c),
{
    let mut k = lo;
    while k < hi && v[k] == c
        invariant
            lo <= k <= hi <= v.len(),
            trim_start_char(v@.subrange(k as int, hi as int), c) == trim_start_char(
                v@.subrange(lo as int, hi as int),
                c,
            ),
        decreases hi - k,
    {
        assert(v@.subrange(k as int, hi as int).drop_first() =~= v@.subrange(k + 1, hi as int));
        k = k + 1;
    }
    k
}

/// The end index in `lo..hi` up to which `v[lo..k]` is `v[lo..hi]` without
/// its trailing white space.
pub fn drop_white_space_end(v: &Vec<char>, lo: usize, hi: usize) -> (k: usize)
    requires
        lo <= hi <= v.len(),
    ensures
        lo <= k <= hi,
        v@.subrange(lo as int, k as int) == trim_end(v@.subrange(lo as int, hi as int)),
{
    let mut k = hi;
    while k > lo && is_whitespace(v[k - 1])
        invariant
            lo <= k <= hi <= v.len(),
            trim_end(v@.subrange(lo as int, k as int)) == trim_end(
                v@.subrange(lo as int, hi as int),
            ),
        decreases k - lo,
    {
        assert(v@.subrange(lo as int, k as int).drop_last() =~= v@.subrange(lo as int, k - 1));
        k = k - 1;
    }
    k
}

/// Both ends of `v[lo..hi]` once trimmed.
pub fn trim_range(v: &Vec<char>, lo: usize, hi: usize) -> (r: (usize, usize))
    requires
        lo <= hi <= v.len(),
    ensures
        lo <= r.0 <= r.1 <= hi,
        v@.subrange(r.0 as int, r.1 as int) == trim(v@.subrange(lo as int, hi as int)),
{
    let a = skip_white_space(v, lo, hi);
    let b = drop_white_space_end(v, a, hi);
    (a, b)
}

/// Trimming the start twice is trimming it once; what is left starts
/// with a character that is not white space.
pub proof fn lemma_trim_start_idempotent(s: Seq<char>)
    ensures
        trim_start(trim_start(s)) == trim_start(s),
        trim_start(s).len() > 0 ==> !is_white_space(trim_start(s)[0]),
    decreases s.len(),
{
    if s.len() > 0 && is_white_space(s[0]) {
        lemma_trim_start_idempotent(s.drop_first());
    }
}

/// Trimming the end twice is trimming it once; what is left ends with a
/// character that is not white space.
pub proof fn lemma_trim_end_idempotent(s: Seq<char>)
    ensures
        trim_end(trim_end(s)) == trim_end(s),
        trim_end(s).len() > 0 ==> !is_white_space(trim_end(s).last()),
    decreases s.len(),
{
    if s.len() > 0 && is_white_space(s.last()) {
        lemma_trim_end_idempotent(s.drop_last());
    }
}

/// Trimming the end of a text that starts with a character that is not
/// white space leaves its start alone.
pub proof fn lemma_trim_end_keeps_start(s: Seq<char>)
    requires
        s.len() > 0 ==> !is_white_space(s[0]),
    ensures
        trim_end(s).len() > 0 ==> !is_white_space(trim_end(s)[0]),
        trim_start(trim_end(s)) == trim_end(s),
    decreases s.len(),
{
    if s.len() > 0 && is_white_space(s.last()) {
        if s.len() > 1 {
            assert(s.drop_last()[0] == s[0]);
        }
        lemma_trim_end_keeps_start(s.drop_last());
    }
}

/// Trimming twice is trimming once.
pub proof fn lemma_trim_idempotent(s: Seq<char>)
    ensures
        trim(trim(s)) == trim(s),
{
    lemma_trim_start_idempotent(s);
    lemma_trim_end_keeps_start(trim_start(s));
    lemma_trim_end_idempotent(trim_start(s));
}

/// `s` with white space removed from both ends.
pub fn trimmed(s: &str) -> (r: String)
    ensures
        r@ == trim(s@),
{
    let v = chars_of(s);
    let (a, b) = trim_range(&v, 0, v.len());
    assert(v@.subrange(0, v.len() as int) =~= v@);
    string_of_range(&v, a, b)
}

/// `s` with trailing white space removed.
pub fn trimmed_end(s: &str) -> (r: String)
    ensures
        r@ == trim_end(s@),
{
    let v = chars_of(s);
    let b = drop_white_space_end(&v, 0, v.len());
    assert(v@.subrange(0, v.len() as int) =~= v@);
    string_of_range(&v, 0, b)
}

/// `s` with leading white space removed.
pub fn trimmed_start(s: &str) -> (r: String)
    ensures
        r@ == trim_start(s@),
{
    let v = chars_of(s);
    let a = skip_white_space(&v, 0, v.len());
    assert(v@.subrange(0, v.len() as int) =~= v@);
    string_of_range(&v, a, v.len())
}


/// The index of the first `'\n'` at or after `i`, or `s.len()` when there
/// is none.
pub open spec fn line_end(s: Seq<char>, i: int) -> int
    decreases s.len() - i,
{
    if i >= s.len() {
        s.len() as int
    } else if s[i] == '\n' {
        i
    } else {
        line_end(s, i + 1)
    }
}

/// The line `s[i..e]`; a line ended by a newline loses one trailing `'\r'`.
pub open spec fn line_text(s: Seq<char>, i: int, e: int) -> Seq<char> {
    if e < s.len() && e > i && s[e - 1] == '\r' {
        s.subrange(i, e - 1)
    } else {
        s.subrange(i, e)
    }
}

/// The lines of `s` that start at or after `i`.
pub open spec fn lines_from(s: Seq<char>, i: int) -> Seq<Seq<char>>
    decreases s.len() - i,
{
    if i < 0 || i >= s.len() {
        seq![]
    } else {
        let e = line_end(s, i);
        if e < i || e >= s.len() {
            seq![line_text(s, i, e)]
        } else {
            seq![line_text(s, i, e)] + lines_from(s, e + 1)
        }
    }
}

/// The lines of `s`, as `str::lines` gives them: split at `'\n'`, a
/// `"\r\n"` ending counts as one line ending, and a final line ending adds
/// no empty line.
pub open spec fn lines(s: Seq<char>) -> Seq<Seq<char>> {
    lines_from(s, 0)
}

/// A line ends at or after its start, within the text, on a newline.
pub proof fn lemma_line_end_bounds(s: Seq<char>, i: int)
    requires
        0 <= i,
    ensures
        i <= line_end(s, i) <= s.len() || (i > s.len() && line_end(s, i) == s.len()),
        line_end(s, i) < s.len() ==> s[line_end(s, i)] == '\n',
    decreases s.len() - i,
{
    if i < s.len() && s[i] != '\n' {
        lemma_line_end_bounds(s, i + 1);
    }
}

/// The lines `ls` joined by newlines.
pub open spec fn join_lines(ls: Seq<Seq<char>>) -> Seq<char>
    decreases ls.len(),
{
    if ls.len() == 0 {
        seq![]
    } else if ls.len() == 1 {
        ls[0]
    } else {
        join_lines(ls.drop_last()) + seq!['\n'] + ls.last()
    }
}

/// Line ends and lines are unchanged by text put in front.
pub proof fn lemma_lines_shift(a: Seq<char>, b: Seq<char>, j: int)
    requires
        0 <= j <= b.len(),
    ensures
        line_end(a + b, a.len() + j) == a.len() + line_end(b, j),
        lines_from(a + b, a.len() + j) == lines_from(b, j),
    decreases b.len() - j,
{
    let s = a + b;
    let n = a.len() as int;
    if j < b.len() {
        assert(s[n + j] == b[j]);
        if b[j] != '\n' {
            lemma_lines_shift(a, b, j + 1);
        }
        let e = line_end(b, j);
        lemma_line_end_bounds(b, j);
        assert(line_text(s, n + j, n + e) =~= line_text(b, j, e)) by {
            if e < b.len() && e > j {
                assert(s[n + e - 1] == b[e - 1]);
            }
        }
        if e < b.len() {
            lemma_lines_shift(a, b, e + 1);
        }
    }
}

/// Joining a first line to more lines puts a newline between.
pub proof fn lemma_join_lines_prepend(x: Seq<char>, ls: Seq<Seq<char>>)
    ensures
        join_lines(seq![x] + ls) == if ls.len() == 0 {
            x
        } else {
            x + seq!['\n'] + join_lines(ls)
        },
    decreases ls.len(),
{
    let t = seq![x] + ls;
    assert(join_lines(seq![x]) == x);
    if ls.len() == 1 {
        assert(t.drop_last() =~= seq![x]);
        assert(join_lines(ls) == ls[0]);
        assert(t.last() == ls[0]);
    } else if ls.len() > 1 {
        assert(t.drop_last() =~= seq![x] + ls.drop_last());
        lemma_join_lines_prepend(x, ls.drop_last());
        assert(t.last() == ls.last());
        assert(join_lines(t) =~= x + seq!['\n'] + join_lines(ls));
    } else {
        assert(t =~= seq![x]);
    }
}

/// Text without carriage returns that does not end with a newline is its
/// lines joined by newlines.
pub proof fn lemma_join_lines_of_lines(c: Seq<char>, i: int)
    requires
        0 <= i <= c.len(),
        forall|k: int| 0 <= k < c.len() ==> #[trigger] c[k] != '\r',
        c.len() > 0 ==> c.last() != '\n',
    ensures
        join_lines(lines_from(c, i)) == c.subrange(i, c.len() as int),
    decreases c.len() - i,
{
    if i < c.len() {
        let e = line_end(c, i);
        lemma_line_end_bounds(c, i);
        if e < c.len() {
            assert(e + 1 < c.len());
            lemma_join_lines_of_lines(c, e + 1);
            lemma_join_lines_prepend(line_text(c, i, e), lines_from(c, e + 1));
            assert(lines_from(c, e + 1).len() > 0);
            assert(c.subrange(i, c.len() as int) =~= c.subrange(i, e) + seq!['\n'] + c.subrange(
                e + 1,
                c.len() as int,
            ));
        } else {
            assert(join_lines(seq![line_text(c, i, e)]) == line_text(c, i, e));
        }
    } else {
        assert(c.subrange(i, c.len() as int) =~= Seq::<char>::empty());
    }
}

/// The ranges `(lo, hi)` of the lines of `v`: line `k` is `v[lo..hi]`.
pub fn line_ranges(v: &Vec<char>) -> (r: Vec<(usize, usize)>)
    ensures
        r@.len() == lines(v@).len(),
        forall|k: int|
            #![trigger r@[k]]
            0 <= k < r@.len() ==> r@[k].0 <= r@[k].1 <= v@.len() && lines(v@)[k] == v@.subrange(
                r@[k].0 as int,
                r@[k].1 as int,
            ),
{
    let ghost s = v@;
    let n = v.len();
    let mut r: Vec<(usize, usize)> = Vec::new();
    let mut i: usize = 0;
    while i < n
        invariant
            n == v.len(),
            s == v@,
            i <= n,
            r@.len() + lines_from(s, i as int).len() == lines(s).len(),
            forall|k: int|
                #![trigger r@[k]]
                0 <= k < r@.len() ==> r@[k].0 <= r@[k].1 <= n && lines(s)[k] == s.subrange(
                    r@[k].0 as int,
                    r@[k].1 as int,
                ),
            forall|k: int|
                0 <= k < lines_from(s, i as int).len() ==> #[trigger] lines(s)[r@.len() + k]
                    == lines_from(s, i as int)[k],
        decreases n - i,
    {
        let mut e = i;
        while e < n && v[e] != '\n'
            invariant
                n == v.len(),
                s == v@,
                i <= e <= n,
                line_end(s, e as int) == line_end(s, i as int),
            decreases n - e,
        {
            e = e + 1;
        }
        proof {
            lemma_line_end_bounds(s, i as int);
        }
        let hi = if e < n && e > i && v[e - 1] == '\r' {
            e - 1
        } else {
            e
        };
        let ghost old_r = r@;
        let ghost rest = lines_from(s, e + 1);
        assert(lines_from(s, i as int) == seq![line_text(s, i as int, e as int)] + rest);
        r.push((i, hi));
        assert forall|k: int|
            0 <= k < rest.len() implies #[trigger] lines(s)[r@.len() + k] == rest[k] by {
            assert(lines(s)[old_r.len() + (k + 1)] == lines_from(s, i as int)[k + 1]);
        }
        assert(lines(s)[old_r.len() + 0int] == lines_from(s, i as int)[0]);
        if e == n {
            assert(rest.len() == 0);
            i = n;
        } else {
            i = e + 1;
        }
    }
    assert(lines_from(s, n as int).len() == 0);
    r
}

/// The lines of `s`.
pub fn lines_of(s: &str) -> (r: Vec<String>)
    ensures
        r@.len() == lines(s@).len(),
        forall|k: int| 0 <= k < r@.len() ==> #[trigger] r@[k]@ == lines(s@)[k],
{
    let v = chars_of(s);
    let ranges = line_ranges(&v);
    let mut r: Vec<String> = Vec::new();
    let mut k: usize = 0;
    while k < ranges.len()
        invariant
            v@ == s@,
            ranges@.len() == lines(v@).len(),
            forall|j: int|
                #![trigger ranges@[j]]
                0 <= j < ranges@.len() ==> ranges@[j].0 <= ranges@[j].1 <= v@.len() && lines(v@)[j]
                    == v@.subrange(ranges@[j].0 as int, ranges@[j].1 as int),
            k <= ranges.len(),
            r@.len() == k,
            forall|j: int| 0 <= j < k ==> #[trigger] r@[j]@ == lines(s@)[j],
        decreases ranges.len() - k,
    {
        let (lo, hi) = ranges[k];
        assert(ranges@[k as int] == (lo, hi));
        let line = string_of_range(&v, lo, hi);
        r.push(line);
        k = k + 1;
    }
    r
}


/// Whether `needle` occurs in `hay` starting at index `i`.
pub open spec fn occurs_at(hay: Seq<char>, needle: Seq<char>, i: int) -> bool {
    0 <= i && i + needle.len() <= hay.len() && hay.subrange(i, i + needle.len()) == needle
}

/// Whether `needle` occurs somewhere in `hay` (an empty needle always does).
pub open spec fn contains_seq(hay: Seq<char>, needle: Seq<char>) -> bool {
    exists|i: int| #[trigger] occurs_at(hay, needle, i)
}

/// Whether `needle` occurs in `hay` at index `i`.
fn matches_at(hay: &Vec<char>, needle: &Vec<char>, i: usize) -> (r: bool)
    requires
        i + needle.len() <= hay.len(),
    ensures
        r == occurs_at(hay@, needle@, i as int),
{
    let m = needle.len();
    let mut j: usize = 0;
    while j < m
        invariant
            m == needle.len(),
            i + m <= hay.len(),
            j <= m,
            forall|k: int| 0 <= k < j ==> hay@[i + k] == needle@[k],
        decreases m - j,
    {
        if hay[i + j] != needle[j] {
            assert(hay@.subrange(i as int, i + m)[j as int] != needle@[j as int]);
            return false;
        }
        j = j + 1;
    }
    assert(hay@.subrange(i as int, i + m) =~= needle@);
    true
}

/// Whether `needle` occurs in `hay`.
pub fn contains_chars(hay: &Vec<char>, needle: &Vec<char>) -> (r: bool)
    ensures
        r == contains_seq(hay@, needle@),
{
    let n = hay.len();
    let m = needle.len();
    if m > n {
        assert forall|i: int| !occurs_at(hay@, needle@, i) by {}
        return false;
    }
    let last = n - m;
    let mut i: usize = 0;
    loop
        invariant
            n == hay.len(),
            m == needle.len(),
            last == n - m,
            i <= last,
            forall|k: int| 0 <= k < i ==> !occurs_at(hay@, needle@, k),
        ensures
            forall|k: int| 0 <= k <= last ==> !occurs_at(hay@, needle@, k),
        decreases last - i,
    {
        if matches_at(hay, needle, i) {
            return true;
        }
        if i == last {
            break ;
        }
        i = i + 1;
    }
    assert forall|k: int| !occurs_at(hay@, needle@, k) by {
        if 0 <= k <= last {
        }
    }
    false
}

/// Whether `needle` occurs in `hay`.
pub fn contains_str(hay: &str, needle: &str) -> (r: bool)
    ensures
        r == contains_seq(hay@, needle@),
{
    let h = chars_of(hay);
    let n = chars_of(needle);
    contains_chars(&h, &n)
}

/// The number of words of `s`: maximal runs of characters that are not
/// white space (what `str::split_whitespace` yields).
pub open spec fn count_words(s: Seq<char>) -> nat
    decreases s.len(),
{
    if s.len() == 0 {
        0
    } else {
        let starts = !is_white_space(s.last()) && (s.len() == 1 || is_white_space(
            s[s.len() - 2],
        ));
        count_words(s.drop_last()) + if starts {
            1nat
        } else {
            0nat
        }
    }
}

/// A text has no more words than characters.
pub proof fn lemma_count_words_bound(s: Seq<char>)
    ensures
        count_words(s) <= s.len(),
    decreases s.len(),
{
    if s.len() > 0 {
        lemma_count_words_bound(s.drop_last());
    }
}

/// The number of words of `s`.
pub fn word_count_of(s: &str) -> (r: usize)
    ensures
        r == count_words(s@),
{
    let v = chars_of(s);
    let n = v.len();
    let mut count: usize = 0;
    let mut i: usize = 0;
    while i < n
        invariant
            n == v.len(),
            v@ == s@,
            i <= n,
            count == count_words(v@.take(i as int)),
        decreases n - i,
    {
        let ghost t = v@.take(i + 1);
        assert(t.drop_last() =~= v@.take(i as int));
        proof {
            lemma_count_words_bound(v@.take(i as int));
        }
        if !is_whitespace(v[i]) && (i == 0 || is_whitespace(v[i - 1])) {
            count = count + 1;
        }
        i = i + 1;
    }
    assert(v@.take(n as int) =~= v@);
    count
}

/// The code of `c` with ASCII upper-case letters mapped to lower case.
pub open spec fn ascii_lower_code(c: char) -> u32 {
    let n = c as u32;
    if 0x41 <= n <= 0x5a {
        (n + 0x20) as u32
    } else {
        n
    }
}

/// Whether `a` and `b` are equal when ASCII letters are compared without
/// regard to case (what `str::eq_ignore_ascii_case` decides).
pub open spec fn eq_ignore_ascii_case_seq(a: Seq<char>, b: Seq<char>) -> bool {
    a.len() == b.len() && forall|i: int|
        0 <= i < a.len() ==> #[trigger] ascii_lower_code(a[i]) == ascii_lower_code(b[i])
}

/// The code of `c` with ASCII upper-case letters lowered.
fn lower_code(c: char) -> (r: u32)
    ensures
        r == ascii_lower_code(c),
{
    let n = c as u32;
    if 0x41 <= n && n <= 0x5a {
        n + 0x20
    } else {
        n
    }
}

/// Whether `a` and `b` are equal up to ASCII case.
pub fn eq_ignore_ascii_case(a: &str, b: &str) -> (r: bool)
    ensures
        r == eq_ignore_ascii_case_seq(a@, b@),
{
    let x = chars_of(a);
    let y = chars_of(b);
    if x.len() != y.len() {
        return false;
    }
    let mut i: usize = 0;
    while i < x.len()
        invariant
            x@ == a@,
            y@ == b@,
            x.len() == y.len(),
            i <= x.len(),
            forall|k: int| 0 <= k < i ==> #[trigger] ascii_lower_code(x@[k]) == ascii_lower_code(y@[k]),
        decreases x.len() - i,
    {
        if lower_code(x[i]) != lower_code(y[i]) {
            return false;
        }
        i = i + 1;
    }
    true
}

/// Whether two character sequences are equal.
pub fn same_chars(a: &str, b: &str) -> (r: bool)
    ensures
        r == (a@ == b@),
{
    let x = chars_of(a);
    let y = chars_of(b);
    if x.len() != y.len() {
        return false;
    }
    let mut i: usize = 0;
    while i < x.len()
        invariant
            x@ == a@,
            y@ == b@,
            x.len() == y.len(),
            i <= x.len(),
            forall|k: int| 0 <= k < i ==> x@[k] == y@[k],
        decreases x.len() - i,
    {
        if x[i] != y[i] {
            return false;
        }
        i = i + 1;
    }
    assert(x@ =~= y@);
    true
}

/// The full Unicode lower-case mapping of `s`, as `str::to_lowercase`
/// computes it.
pub uninterp spec fn unicode_lowercase(s: Seq<char>) -> Seq<char>;

/// Calls `str::to_lowercase`; its result is the Unicode lower-case mapping
/// of the argument, which depends on the argument alone and is named, not
/// spelled out, here. Stated besides: the empty string maps to itself (each
/// character maps to its own lower-case form, and there are none).
#[verifier::external_body]
pub(crate) fn to_lowercase(s: &str) -> (r: String)
    ensures
        r@ == unicode_lowercase(s@),
        s@.len() == 0 ==> r@.len() == 0,
{
    s.to_lowercase()
}

/// The decimal digit character for `d < 10`.
pub open spec fn digit_char(d: nat) -> char {
    (0x30 + d) as char
}

/// The decimal representation of `n`, without leading zeros.
pub open spec fn decimal(n: nat) -> Seq<char>
    decreases n,
{
    if n < 10 {
        seq![digit_char(n)]
    } else {
        decimal(n / 10).push(digit_char(n % 10))
    }
}

/// The decimal representation of the integer `n`, with a leading `'-'`
/// when it is negative.
pub open spec fn decimal_int(n: int) -> Seq<char> {
    if n < 0 {
        seq!['-'] + decimal((-n) as nat)
    } else {
        decimal(n as nat)
    }
}

/// The digit character for `d`.
fn digit(d: u64) -> (c: char)
    requires
        d < 10,
    ensures
        c == digit_char(d as nat),
{
    let b = (0x30 + d) as u8;
    b as char
}

/// Appends the decimal representation of `n` to `s`.
pub fn push_decimal(s: &mut String, n: u64)
    ensures
        final(s)@ == old(s)@ + decimal(n as nat),
    decreases n,
{
    if n < 10 {
        s.push(digit(n));
        assert(old(s)@.push(digit_char(n as nat)) =~= old(s)@ + decimal(n as nat));
    } else {
        push_decimal(s, n / 10);
        s.push(digit(n % 10));
        assert((old(s)@ + decimal((n / 10) as nat)).push(digit_char((n % 10) as nat)) =~= old(
            s,
        )@ + decimal(n as nat));
    }
}

/// The decimal representation of `n`.
pub fn decimal_string(n: u64) -> (r: String)
    ensures
        r@ == decimal(n as nat),
{
    let mut s = String::new();
    push_decimal(&mut s, n);
    assert(Seq::<char>::empty() + decimal(n as nat) =~= decimal(n as nat));
    s
}

/// Appends the decimal representation of the integer `n` to `s`.
pub fn push_decimal_i64(s: &mut String, n: i64)
    ensures
        final(s)@ == old(s)@ + decimal_int(n as int),
{
    if n < 0 {
        s.push('-');
        let m: u64 = ((-(n + 1)) as u64) + 1;
        assert(m == -(n as int));
        push_decimal(s, m);
        assert(old(s)@.push('-') + decimal(m as nat) =~= old(s)@ + (seq!['-'] + decimal(
            m as nat,
        )));
    } else {
        push_decimal(s, n as u64);
    }
}

/// The value of the decimal digits `d` (most significant first).
pub open spec fn digits_value(d: Seq<char>) -> nat
    decreases d.len(),
{
    if d.len() == 0 {
        0
    } else {
        digits_value(d.drop_last()) * 10 + ((d.last() as u32) - 0x30) as nat
    }
}

/// Whether every character of `d` is an ASCII digit.
pub open spec fn all_digits(d: Seq<char>) -> bool {
    forall|i: int| 0 <= i < d.len() ==> 0x30 <= #[trigger] (d[i] as u32) <= 0x39
}

/// What `u32::from_str` gives for `s`: an optional `'+'`, then one or more
/// ASCII digits whose value fits in a `u32`.
pub open spec fn parse_u32_spec(s: Seq<char>) -> Option<u32> {
    let d = if s.len() > 0 && s[0] == '+' {
        s.drop_first()
    } else {
        s
    };
    if d.len() == 0 || !all_digits(d) || digits_value(d) > u32::MAX {
        None
    } else {
        Some(digits_value(d) as u32)
    }
}

/// The value of one more digit.
proof fn lemma_digits_value_step(d: Seq<char>, i: int)
    requires
        0 <= i < d.len(),
    ensures
        digits_value(d.take(i + 1)) == digits_value(d.take(i)) * 10 + ((d[i] as u32) - 0x30) as nat,
{
    assert(d.take(i + 1).drop_last() =~= d.take(i));
}

/// Parses `s` as `u32::from_str` does.
pub fn parse_u32(s: &str) -> (r: Option<u32>)
    ensures
        r == parse_u32_spec(s@),
{
    let v = chars_of(s);
    let start: usize = if v.len() > 0 && v[0] == '+' {
        1
    } else {
        0
    };
    let ghost d = v@.subrange(start as int, v@.len() as int);
    assert(d =~= (if v@.len() > 0 && v@[0] == '+' {
        v@.drop_first()
    } else {
        v@
    }));
    if start == v.len() {
        return None;
    }
    let mut value: u64 = 0;
    let mut i: usize = start;
    while i < v.len()
        invariant
            v@ == s@,
            start <= i <= v.len(),
            d == v@.subrange(start as int, v@.len() as int),
            d == (if s@.len() > 0 && s@[0] == '+' {
                s@.drop_first()
            } else {
                s@
            }),
            value == digits_value(d.take(i - start)),
            value <= u32::MAX,
            all_digits(d.take(i - start)),
        decreases v.len() - i,
    {
        let n = v[i] as u32;
        proof {
            lemma_digits_value_step(d, i - start);
        }
        if n < 0x30 || n > 0x39 {
            assert(d[i - start] == v@[i as int]);
            assert(!(0x30 <= (d[i - start] as u32) <= 0x39));
            assert(!all_digits(d));
            return None;
        }
        let next = value * 10 + (n - 0x30) as u64;
        assert(d[i - start] == v@[i as int]);
        if next > 0xffff_ffff {
            proof {
                lemma_digits_prefix_bound(d, i - start + 1);
            }
            assert(digits_value(d.take(i - start + 1)) == next);
            assert(digits_value(d) > u32::MAX);
            return None;
        }
        assert(all_digits(d.take(i - start + 1))) by {
            assert forall|k: int| 0 <= k < i - start + 1 implies 0x30 <= #[trigger] (d.take(
                i - start + 1,
            )[k] as u32) <= 0x39 by {
                if k < i - start {
                    assert(d.take(i - start + 1)[k] == d.take(i - start)[k]);
                }
            }
        }
        value = next;
        i = i + 1;
    }
    assert(d.take(v.len() - start) =~= d);
    Some(value as u32)
}

/// The value of a prefix of the digits is at most that of all of them.
proof fn lemma_digits_prefix_bound(d: Seq<char>, k: int)
    requires
        0 <= k <= d.len(),
    ensures
        digits_value(d.take(k)) <= digits_value(d),
    decreases d.len() - k,
{
    if k < d.len() {
        lemma_digits_prefix_bound(d, k + 1);
        lemma_digits_value_step(d, k);
    } else {
        assert(d.take(k) =~= d);
    }
}

} // verus!
