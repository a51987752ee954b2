//! What the note store computes around its files: where they live, the
//! settings kept between runs, the starter notes, and the text of exported
//! and imported notes.

use vstd::prelude::*;
use vstd::string::StringSliceAdditionalSpecFns;
use crate::models::{
    clock_now, display_title_of, is_uuid_text, new_uuid_text, Note, Timestamp,
};
use crate::workspace::{lemma_filter_take_all, lemma_filter_take_step, untrashed};
use crate::text::{
    contains_seq, is_white_space, lemma_join_lines_of_lines, lemma_join_lines_prepend, lemma_lines_shift, occurs_at,
    lemma_trim_end_idempotent, lemma_trim_end_keeps_start, lemma_trim_idempotent,
    lemma_trim_start_idempotent, line_end, line_text, lines_from, chars_of, decimal_int, drop_white_space_end, join_lines, line_ranges, lines, push_decimal_i64,
    push_range, skip_white_space, string_of_range, trim, trim_range, trim_start, trimmed_start,
};

verus! {

/// The path separator `/`.
pub open spec fn slash() -> u8 {
    0x2f
}

/// A directory path as the prefix of the paths of its entries: a `/` is
/// added unless the path is empty or already ends with one.
pub open spec fn dir_prefix(base: Seq<u8>) -> Seq<u8> {
    if base.len() > 0 && base.last() != slash() {
        base.push(slash())
    } else {
        base
    }
}

/// `name` joined onto `base` as `PathBuf::join` does on Unix, paths taken
/// as the bytes they are made of: an absolute `name` replaces `base`;
/// otherwise `name` goes after `base`, with a `/` between them unless `base`
/// is empty or already ends with one.
pub open spec fn path_join(base: Seq<u8>, name: Seq<u8>) -> Seq<u8> {
    if name.len() > 0 && name[0] == slash() {
        name
    } else {
        dir_prefix(base) + name
    }
}

/// Appends the bytes of `s` to `out`.
fn push_bytes(out: &mut Vec<u8>, s: &[u8])
    ensures
        final(out)@ == old(out)@ + s@,
{
    let mut i: usize = 0;
    while i < s.len()
        invariant
            i <= s@.len(),
            out@ == old(out)@ + s@.take(i as int),
        decreases s@.len() - i,
    {
        out.push(s[i]);
        assert(s@.take(i + 1) =~= s@.take(i as int).push(s@[i as int]));
        i = i + 1;
    }
    assert(s@.take(s@.len() as int) =~= s@);
}

/// `name` joined onto `base`.
pub fn join_path(base: &[u8], name: &[u8]) -> (r: Vec<u8>)
    ensures
        r@ == path_join(base@, name@),
{
    let mut r: Vec<u8> = Vec::new();
    if name.len() > 0 && name[0] == 0x2f {
        push_bytes(&mut r, name);
        assert(r@ =~= name@);
        return r;
    }
    push_bytes(&mut r, base);
    if base.len() > 0 && base[base.len() - 1] != 0x2f {
        r.push(0x2f);
    }
    push_bytes(&mut r, name);
    assert(r@ =~= dir_prefix(base@) + name@);
    r
}

/// The directory of the note store, given the user's data directory.
pub open spec fn data_dir_path(user_data_dir: Option<Seq<u8>>) -> Seq<u8> {
    match user_data_dir {
        Some(d) => path_join(d, "mynote".spec_bytes()),
        None => ".mynote".spec_bytes(),
    }
}

/// Whether `p` is a directory the note store may live in.
pub open spec fn is_data_dir_path(p: Seq<u8>) -> bool {
    exists|d: Option<Seq<u8>>| p == data_dir_path(d)
}

/// The file that holds the notes in the data directory `dir`.
pub open spec fn notes_file_path(dir: Seq<u8>) -> Seq<u8> {
    path_join(dir, "notes.json".spec_bytes())
}

/// The file that holds the settings in the data directory `dir`.
pub open spec fn settings_file_path(dir: Seq<u8>) -> Seq<u8> {
    path_join(dir, "settings.json".spec_bytes())
}

/// The user's data directory, from `dirs::data_dir` (on Linux
/// `$XDG_DATA_HOME` or `$HOME/.local/share`), as the bytes of the path;
/// `None` when there is none. It depends on the environment, so nothing is
/// stated of it.
#[verifier::external_body]
fn user_data_dir() -> (r: Option<Vec<u8>>) {
    match dirs::data_dir() {
        Some(p) => Some(p.into_os_string().into_encoded_bytes()),
        None => None,
    }
}

/// The directory of the note store for the given user data directory:
/// `mynote` inside it, or `.mynote` when there is none.
pub fn data_dir_from(user_data_dir: Option<&[u8]>) -> (r: Vec<u8>)
    ensures
        r@ == data_dir_path(
            match user_data_dir {
                Some(d) => Some(d@),
                None => None,
            },
        ),
{
    match user_data_dir {
        Some(d) => join_path(d, "mynote".as_bytes()),
        None => vstd::slice::slice_to_vec(".mynote".as_bytes()),
    }
}

/// Settings and notes live in two different files of one directory.
pub proof fn lemma_settings_apart_from_notes(dir: Seq<u8>)
    ensures
        notes_file_path(dir) == dir_prefix(dir) + "notes.json".spec_bytes(),
        settings_file_path(dir) == dir_prefix(dir) + "settings.json".spec_bytes(),
        notes_file_path(dir) != settings_file_path(dir),
{
    reveal_strlit("notes.json");
    reveal_strlit("settings.json");
    broadcast use vstd::string::is_ascii_spec_bytes;
    assert(vstd::string::is_ascii("notes.json"));
    assert(vstd::string::is_ascii("settings.json"));
    assert("notes.json".spec_bytes().len() == 10);
    assert("settings.json".spec_bytes().len() == 13);
    assert("notes.json".spec_bytes()[0] == 0x6e);
    assert("settings.json".spec_bytes()[0] == 0x73);
}

/// The settings kept between runs.
#[derive(Debug, Clone, PartialEq)]
pub struct Settings {
    pub last_note_id: Option<String>,
    pub view_mode: Option<String>,
}

impl Default for Settings {
    fn default() -> (s: Settings)
        ensures
            s.last_note_id is None,
            s.view_mode is None,
    {
        Settings { last_note_id: None, view_mode: None }
    }
}

/// Where the notes are stored and the text that goes into their files.
pub struct Storage;

/// The hashtags `#t` of `tags`, separated by `sep`.
pub open spec fn hashtags(tags: Seq<String>, sep: Seq<char>) -> Seq<char>
    decreases tags.len(),
{
    if tags.len() == 0 {
        seq![]
    } else if tags.len() == 1 {
        seq!['#'] + tags[0]@
    } else {
        hashtags(tags.drop_last(), sep) + sep + seq!['#'] + tags.last()@
    }
}

/// Appends the hashtags of `tags`, separated by `sep`, to `out`.
pub fn push_hashtags(out: &mut String, tags: &Vec<String>, sep: &str)
    ensures
        final(out)@ == old(out)@ + hashtags(tags@, sep@),
{
    let mut i: usize = 0;
    while i < tags.len()
        invariant
            i <= tags@.len(),
            out@ == old(out)@ + hashtags(tags@.take(i as int), sep@),
        decreases tags@.len() - i,
    {
        let ghost before = out@;
        if i > 0 {
            out.append(sep);
        }
        out.push('#');
        out.append(tags[i].as_str());
        let ghost t = tags@.take(i + 1);
        assert(t.drop_last() =~= tags@.take(i as int));
        assert(t.last() == tags@[i as int]);
        if i > 0 {
            assert(out@ =~= old(out)@ + (hashtags(t.drop_last(), sep@) + sep@ + seq!['#']
                + t.last()@));
        } else {
            assert(t.len() == 1);
            assert(hashtags(tags@.take(i as int), sep@) =~= Seq::<char>::empty());
            assert(out@ =~= old(out)@ + (seq!['#'] + t[0]@));
        }
        i = i + 1;
    }
    assert(tags@.take(tags@.len() as int) =~= tags@);
}

/// The Markdown text a note is exported as: a `# title` heading when it
/// has a title, a `Tags:` line when it has tags, then the content.
pub open spec fn export_text_of(title: Seq<char>, tags: Seq<String>, content: Seq<char>) -> Seq<
    char,
> {
    (if trim(title).len() > 0 {
        seq!['#', ' '] + trim(title) + seq!['\n', '\n']
    } else {
        seq![]
    }) + (if tags.len() > 0 {
        "Tags: "@ + hashtags(tags, seq![' ']) + seq!['\n', '\n']
    } else {
        seq![]
    }) + content
}

/// Strips `p` from the front of `s` as often as it is there.
pub open spec fn strip_prefix_all(s: Seq<char>, p: Seq<char>) -> Seq<char>
    decreases s.len(),
{
    if p.len() > 0 && p.len() <= s.len() && s.take(p.len() as int) == p {
        strip_prefix_all(s.skip(p.len() as int), p)
    } else {
        s
    }
}

/// Whether imported text starts with a `# ` heading line.
pub open spec fn starts_with_heading(content: Seq<char>) -> bool {
    lines(content).len() > 0 && lines(content)[0].len() >= 2 && lines(content)[0][0] == '#'
        && lines(content)[0][1] == ' '
}

/// The title of an imported note: its `# ` heading without the marks, or
/// else the file's stem, or else "Imported Note".
pub open spec fn import_title_of(file_stem: Option<Seq<char>>, content: Seq<char>) -> Seq<char> {
    if starts_with_heading(content) {
        trim(strip_prefix_all(lines(content)[0], seq!['#', ' ']))
    } else {
        match file_stem {
            Some(s) => s,
            None => "Imported Note"@,
        }
    }
}

/// The content of an imported note: the text after the heading line with
/// leading white space removed, or the whole text when there is no heading.
pub open spec fn import_content_of(content: Seq<char>) -> Seq<char> {
    if starts_with_heading(content) {
        trim_start(join_lines(lines(content).drop_first()))
    } else {
        content
    }
}

/// The number of bytes of `c` in UTF-8.
pub open spec fn utf8_width(c: char) -> nat {
    let n = c as u32;
    if n < 0x80 {
        1
    } else if n < 0x800 {
        2
    } else if n < 0x10000 {
        3
    } else {
        4
    }
}

/// The number of bytes of `s` in UTF-8.
pub open spec fn utf8_len(s: Seq<char>) -> nat
    decreases s.len(),
{
    if s.len() == 0 {
        0
    } else {
        utf8_len(s.drop_last()) + utf8_width(s.last())
    }
}

/// The longest prefix of `s` whose UTF-8 encoding has at most `n` bytes.
pub open spec fn prefix_within_bytes(s: Seq<char>, n: nat) -> Seq<char>
    decreases s.len(),
{
    if s.len() == 0 || utf8_width(s[0]) > n {
        seq![]
    } else {
        seq![s[0]] + prefix_within_bytes(s.drop_first(), (n - utf8_width(s[0])) as nat)
    }
}

/// Whether the first 8 bytes of `id` end on a character boundary, so that
/// `&id[..8]` is defined.
pub open spec fn has_eight_byte_prefix(id: Seq<char>) -> bool {
    utf8_len(prefix_within_bytes(id, 8)) == 8
}

/// The name of `unicode_alphanumeric`'s argument set: the characters that
/// `char::is_alphanumeric` accepts (Unicode `Alphabetic` or `Numeric`).
pub uninterp spec fn unicode_alphanumeric(c: char) -> bool;

/// Calls `char::is_alphanumeric`; its answer depends on the character
/// alone and follows Unicode tables, so it is named, not spelled out.
#[verifier::external_body]
pub(crate) fn is_alphanumeric(c: char) -> (r: bool)
    ensures
        r == unicode_alphanumeric(c),
{
    c.is_alphanumeric()
}

/// The character a file name keeps for `c`: letters, digits, spaces, `-`
/// and `_` stay, everything else becomes `_`.
pub open spec fn file_name_char(c: char) -> char {
    if unicode_alphanumeric(c) || c == ' ' || c == '-' || c == '_' {
        c
    } else {
        '_'
    }
}

/// `s` with spaces turned into underscores.
pub open spec fn spaces_to_underscores(s: Seq<char>) -> Seq<char> {
    s.map_values(|c: char| if c == ' ' { '_' } else { c })
}

/// The line starting at `i` ends at the first newline at or after `i`.
proof fn lemma_line_end_at(s: Seq<char>, i: int, m: int)
    requires
        0 <= i <= m < s.len(),
        s[m] == '\n',
        forall|k: int| i <= k < m ==> #[trigger] s[k] != '\n',
    ensures
        line_end(s, i) == m,
    decreases m - i,
{
    if i < m {
        lemma_line_end_at(s, i + 1, m);
    }
}

/// The text of a note exported with a title, seen line by line: its first
/// line is the heading `# title`, its second is empty, and the rest are the
/// lines of what follows.
proof fn lemma_export_lines(t: Seq<char>, rest: Seq<char>)
    requires
        t.len() > 0,
        !is_white_space(t.last()),
        forall|k: int| 0 <= k < t.len() ==> #[trigger] t[k] != '\n',
    ensures
        lines(seq!['#', ' '] + t + seq!['\n', '\n'] + rest) == seq![seq!['#', ' '] + t, Seq::<char>::empty()]
            + lines(rest),
{
    let head = seq!['#', ' '] + t + seq!['\n', '\n'];
    let s = head + rest;
    let m = t.len() + 2int;
    assert forall|k: int| 0 <= k < m implies #[trigger] s[k] != '\n' by {
        if k >= 2 {
            assert(s[k] == t[k - 2]);
        }
    }
    assert(s[m] == '\n');
    assert(s[m + 1] == '\n');
    lemma_line_end_at(s, 0, m);
    assert(s[m - 1] == t.last());
    assert(line_text(s, 0, m) =~= seq!['#', ' '] + t);
    lemma_line_end_at(s, m + 1, m + 1);
    assert(line_text(s, m + 1, m + 1) =~= Seq::<char>::empty());
    lemma_lines_shift(head, rest, 0);
    assert(lines_from(s, m + 2) == lines_from(rest, 0));
    assert(lines_from(s, m + 1) =~= seq![Seq::<char>::empty()] + lines(rest));
    assert(lines(s) =~= seq![seq!['#', ' '] + t, Seq::<char>::empty()] + lines(rest));
}

/// Exporting a note and importing the file gives its title back, trimmed,
/// when the title is one line that does not itself start with `# `; and
/// for a note without tags, its content without leading white space (its
/// lines rejoined by newlines, which is the content itself when it holds no
/// carriage return and does not end with a newline).
pub proof fn lemma_export_import_round_trip(
    title: Seq<char>,
    tags: Seq<String>,
    content: Seq<char>,
    stem: Option<Seq<char>>,
)
    requires
        trim(title).len() > 0,
        forall|k: int| 0 <= k < trim(title).len() ==> #[trigger] trim(title)[k] != '\n',
        !(trim(title).len() >= 2 && trim(title)[0] == '#' && trim(title)[1] == ' '),
    ensures
        import_title_of(stem, export_text_of(title, tags, content)) == trim(title),
        tags.len() == 0 ==> import_content_of(export_text_of(title, tags, content)) == trim_start(
            join_lines(lines(content)),
        ),
        tags.len() == 0 && (forall|k: int| 0 <= k < content.len() ==> #[trigger] content[k] != '\r')
            && (content.len() > 0 ==> content.last() != '\n') ==> import_content_of(
            export_text_of(title, tags, content),
        ) == trim_start(content),
{
    let t = trim(title);
    lemma_trim_idempotent(title);
    lemma_trim_start_idempotent(title);
    lemma_trim_end_keeps_start(trim_start(title));
    lemma_trim_end_idempotent(trim_start(title));
    assert(!is_white_space(t.last()));
    let rest = (if tags.len() > 0 {
        "Tags: "@ + hashtags(tags, seq![' ']) + seq!['\n', '\n']
    } else {
        seq![]
    }) + content;
    let s = export_text_of(title, tags, content);
    assert(s =~= seq!['#', ' '] + t + seq!['\n', '\n'] + rest);
    lemma_export_lines(t, rest);
    let first = seq!['#', ' '] + t;
    assert(lines(s)[0] == first);
    assert(starts_with_heading(s));
    assert(first.take(2) =~= seq!['#', ' ']);
    assert(first.skip(2) =~= t);
    assert(strip_prefix_all(t, seq!['#', ' ']) == t) by {
        if t.len() >= 2 {
            assert(t.take(2) != seq!['#', ' ']) by {
                if t.take(2) == seq!['#', ' '] {
                    assert(t[0] == t.take(2)[0] && t[1] == t.take(2)[1]);
                }
            }
        }
    }
    assert(strip_prefix_all(first, seq!['#', ' ']) == t);
    if tags.len() == 0 {
        assert(rest =~= content);
        assert(lines(s).drop_first() =~= seq![Seq::<char>::empty()] + lines(content));
        lemma_join_lines_prepend(Seq::<char>::empty(), lines(content));
        let j = join_lines(lines(content));
        if lines(content).len() > 0 {
            let x = Seq::<char>::empty() + seq!['\n'] + j;
            assert(x[0] == '\n');
            assert(x.drop_first() =~= j);
        } else {
            assert(j =~= Seq::<char>::empty());
        }
        if (forall|k: int| 0 <= k < content.len() ==> #[trigger] content[k] != '\r') && (content.len() > 0
            ==> content.last() != '\n') {
            lemma_join_lines_of_lines(content, 0);
            assert(content.subrange(0, content.len() as int) =~= content);
        }
    }
}

/// An exported note with tags holds the line `Tags: #t1 #t2 ...`, whatever
/// its title (right at the start when it has no title); it ends with the
/// note's content; and a note with neither title nor tags exports as its
/// content alone.
pub proof fn lemma_export_keeps_tags(title: Seq<char>, tags: Seq<String>, content: Seq<char>)
    ensures
        tags.len() > 0 ==> contains_seq(
            export_text_of(title, tags, content),
            "Tags: "@ + hashtags(tags, seq![' ']),
        ),
        tags.len() > 0 && trim(title).len() == 0 ==> export_text_of(title, tags, content).take(
            ("Tags: "@ + hashtags(tags, seq![' '])).len() as int,
        ) == "Tags: "@ + hashtags(tags, seq![' ']),
        export_text_of(title, tags, content).len() >= content.len(),
        export_text_of(title, tags, content).skip(
            export_text_of(title, tags, content).len() - content.len(),
        ) == content,
        tags.len() == 0 && trim(title).len() == 0 ==> export_text_of(title, tags, content) == content,
{
    let h = if trim(title).len() > 0 {
        seq!['#', ' '] + trim(title) + seq!['\n', '\n']
    } else {
        Seq::<char>::empty()
    };
    let line = "Tags: "@ + hashtags(tags, seq![' ']);
    let tp = if tags.len() > 0 {
        line + seq!['\n', '\n']
    } else {
        Seq::<char>::empty()
    };
    let e = export_text_of(title, tags, content);
    assert(e =~= h + tp + content);
    assert(e.skip(e.len() - content.len()) =~= content);
    if tags.len() > 0 {
        assert(e.subrange(h.len() as int, h.len() + line.len() as int) =~= line);
        assert(occurs_at(e, line, h.len() as int));
        if trim(title).len() == 0 {
            assert(e.take(line.len() as int) =~= line);
        }
    } else if trim(title).len() == 0 {
        assert(e =~= content);
    }
}

/// Trimming the start of `x` drops its first `n` characters, all white
/// space, up to the first character that is not.
proof fn lemma_trim_start_skip(x: Seq<char>) -> (n: int)
    ensures
        0 <= n <= x.len(),
        trim_start(x) == x.skip(n),
        forall|k: int| 0 <= k < n ==> is_white_space(#[trigger] x[k]),
        n < x.len() ==> !is_white_space(x[n]),
    decreases x.len(),
{
    if x.len() > 0 && is_white_space(x[0]) {
        let m = lemma_trim_start_skip(x.drop_first());
        assert(x.drop_first().skip(m) =~= x.skip(m + 1));
        assert forall|k: int| 0 <= k < m + 1 implies is_white_space(#[trigger] x[k]) by {
            if k > 0 {
                assert(x[k] == x.drop_first()[k - 1]);
            }
        }
        if m + 1 < x.len() {
            assert(x[m + 1] == x.drop_first()[m]);
        }
        m + 1
    } else {
        assert(x.skip(0) =~= x);
        0
    }
}

/// Lines joined by newlines hold each of the lines.
proof fn lemma_join_lines_holds(ls: Seq<Seq<char>>, k: int) -> (p: int)
    requires
        0 <= k < ls.len(),
    ensures
        occurs_at(join_lines(ls), ls[k], p),
    decreases ls.len(),
{
    let j = join_lines(ls);
    if ls.len() == 1 {
        assert(j.subrange(0, ls[0].len() as int) =~= ls[0]);
        0
    } else if k == ls.len() - 1 {
        let f = join_lines(ls.drop_last());
        let q = f.len() + 1int;
        assert(j.subrange(q, q + ls[k].len() as int) =~= ls[k]);
        q
    } else {
        let f = join_lines(ls.drop_last());
        let q = lemma_join_lines_holds(ls.drop_last(), k);
        assert(ls.drop_last()[k] == ls[k]);
        assert(j.subrange(q, q + ls[k].len() as int) =~= f.subrange(q, q + ls[k].len() as int));
        q
    }
}

/// A text holding `l` holds, once its start is trimmed, `l` with its start
/// trimmed.
proof fn lemma_trim_start_holds(j: Seq<char>, l: Seq<char>, p: int)
    requires
        occurs_at(j, l, p),
    ensures
        contains_seq(trim_start(j), trim_start(l)),
{
    let n = lemma_trim_start_skip(j);
    let m = lemma_trim_start_skip(l);
    let t = trim_start(j);
    let tl = trim_start(l);
    if n <= p + m {
        if n <= p {
            assert forall|k: int| 0 <= k < tl.len() implies t[p + m - n + k] == tl[k] by {
                assert(t[p + m - n + k] == j[p + m + k]);
                assert(j[p + m + k] == l[m + k]);
            }
            assert(t.subrange(p + m - n, p + m - n + tl.len()) =~= tl);
            assert(occurs_at(t, tl, p + m - n));
        } else {
            if n < p + m {
                assert(j[n] == l[n - p]);
                assert(is_white_space(l[n - p]));
            }
            assert forall|k: int| 0 <= k < tl.len() implies t[k] == tl[k] by {
                assert(t[k] == j[n + k]);
                assert(j[n + k] == l[m + k]);
            }
            assert(t.subrange(0, tl.len() as int) =~= tl);
            assert(occurs_at(t, tl, 0));
        }
    } else {
        if m < l.len() {
            assert(j[p + m] == l[m]);
            assert(is_white_space(j[p + m]));
        }
        assert(tl.len() == 0);
        assert(t.subrange(0, 0) =~= tl);
        assert(occurs_at(t, tl, 0));
    }
}

/// Importing a text that starts with a `# ` heading line keeps every line
/// after the heading: each of them (with its leading white space removed,
/// which matters for the first line kept) occurs in the imported content.
pub proof fn lemma_import_keeps_lines(text: Seq<char>, k: int)
    requires
        lines(text).len() > 0,
        lines(text)[0].len() >= 2,
        lines(text)[0][0] == '#',
        lines(text)[0][1] == ' ',
        1 <= k < lines(text).len(),
    ensures
        contains_seq(import_content_of(text), trim_start(lines(text)[k])),
{
    let rest = lines(text).drop_first();
    assert(rest[k - 1] == lines(text)[k]);
    let p = lemma_join_lines_holds(rest, k - 1);
    lemma_trim_start_holds(join_lines(rest), rest[k - 1], p);
}

/// The file name a note is backed up under: its display title made safe
/// for file names, trimmed, spaces turned into underscores, then `_`, the
/// first 8 bytes of its id and `.md`.
pub open spec fn export_file_name_of(note: Note) -> Seq<char> {
    spaces_to_underscores(
        trim(display_title_of(note.title@, note.content@).map_values(|c: char| file_name_char(c))),
    ) + seq!['_'] + prefix_within_bytes(note.id@, 8) + ".md"@
}

/// The name under which `backup_file_name` files a corrupt notes file.
pub open spec fn backup_file_name_of(timestamp: int) -> Seq<char> {
    "notes_backup_"@ + decimal_int(timestamp) + ".json"@
}

/// A starter note created and updated at `now`.
fn starter_note(title: &str, content: &str, tags: Vec<String>, is_pinned: bool, now: Timestamp) -> (n: Note)
    ensures
        is_uuid_text(n.id@),
        n.title@ == title@,
        n.content@ == content@,
        n.tags == tags,
        n.is_pinned == is_pinned,
        !n.is_trashed,
        n.created_at == now,
        n.updated_at == now,
{
    Note {
        id: new_uuid_text(),
        title: String::from_str(title),
        content: String::from_str(content),
        tags,
        is_pinned,
        is_trashed: false,
        created_at: now,
        updated_at: now,
    }
}

/// The two tags `a` and `b`.
fn tag_list2(a: &str, b: &str) -> (v: Vec<String>)
    ensures
        v@.len() == 2,
        v@[0]@ == a@,
        v@[1]@ == b@,
{
    let mut v = Vec::new();
    v.push(String::from_str(a));
    v.push(String::from_str(b));
    v
}

/// The trimmed range of `c[lo..hi]` with the repeated `"# "` prefix gone.
fn strip_heading_marks(c: &Vec<char>, lo: usize, hi: usize) -> (k: usize)
    requires
        lo <= hi <= c.len(),
    ensures
        lo <= k <= hi,
        c@.subrange(k as int, hi as int) == strip_prefix_all(
            c@.subrange(lo as int, hi as int),
            seq!['#', ' '],
        ),
{
    let mut k = lo;
    while hi - k >= 2 && c[k] == '#' && c[k + 1] == ' '
        invariant
            lo <= k <= hi <= c.len(),
            strip_prefix_all(c@.subrange(k as int, hi as int), seq!['#', ' ']) == strip_prefix_all(
                c@.subrange(lo as int, hi as int),
                seq!['#', ' '],
            ),
        decreases hi - k,
    {
        let ghost t = c@.subrange(k as int, hi as int);
        assert(t.take(2) =~= seq!['#', ' ']);
        assert(t.skip(2) =~= c@.subrange(k + 2, hi as int));
        k = k + 2;
    }
    let ghost t = c@.subrange(k as int, hi as int);
    if hi - k >= 2 {
        assert(t.take(2) != seq!['#', ' ']) by {
            assert(t.take(2)[0] == c@[k as int]);
            assert(t.take(2)[1] == c@[k + 1]);
        }
    }
    k
}

impl Storage {
    /// The directory of the note store: `mynote` in the user's data
    /// directory, or `.mynote` when the system names none.
    pub fn get_data_dir() -> (r: Vec<u8>)
        ensures
            is_data_dir_path(r@),
    {
        let user = user_data_dir();
        let r = match &user {
            Some(d) => data_dir_from(Some(d.as_slice())),
            None => data_dir_from(None),
        };
        proof {
            let d = match user {
                Some(d) => Some(d@),
                None => None,
            };
            assert(r@ == data_dir_path(d));
        }
        r
    }

    /// The directory of the note store when `override_dir` may name
    /// another one (a throwaway directory for stress runs): that directory
    /// when given, else the usual one.
    pub fn data_dir_for(override_dir: Option<&[u8]>) -> (r: Vec<u8>)
        ensures
            match override_dir {
                Some(o) => r@ == o@,
                None => is_data_dir_path(r@),
            },
    {
        match override_dir {
            Some(o) => vstd::slice::slice_to_vec(o),
            None => Self::get_data_dir(),
        }
    }

    /// The file that holds the notes in the data directory `dir`.
    pub fn notes_file_in(dir: &[u8]) -> (r: Vec<u8>)
        ensures
            r@ == notes_file_path(dir@),
    {
        join_path(dir, "notes.json".as_bytes())
    }

    /// The file that holds the settings in the data directory `dir`.
    pub fn settings_file_in(dir: &[u8]) -> (r: Vec<u8>)
        ensures
            r@ == settings_file_path(dir@),
    {
        join_path(dir, "settings.json".as_bytes())
    }

    /// The file that holds the notes: `notes.json` in the data directory.
    pub fn get_notes_file() -> (r: Vec<u8>)
        ensures
            exists|dir: Seq<u8>| is_data_dir_path(dir) && r@ == notes_file_path(dir),
    {
        let dir = Self::get_data_dir();
        Self::notes_file_in(dir.as_slice())
    }

    /// The file that holds the settings: `settings.json` in the data
    /// directory.
    pub fn get_settings_file() -> (r: Vec<u8>)
        ensures
            exists|dir: Seq<u8>| is_data_dir_path(dir) && r@ == settings_file_path(dir),
    {
        let dir = Self::get_data_dir();
        Self::settings_file_in(dir.as_slice())
    }

    /// The Markdown text `note` is exported as.
    pub fn export_text(note: &Note) -> (r: String)
        ensures
            r@ == export_text_of(note.title@, note.tags@, note.content@),
    {
        let t = chars_of(note.title.as_str());
        let (a, b) = trim_range(&t, 0, t.len());
        assert(t@.subrange(0, t@.len() as int) =~= t@);
        let mut out = String::new();
        if a < b {
            out.push('#');
            out.push(' ');
            push_range(&mut out, &t, a, b);
            out.push('\n');
            out.push('\n');
        }
        let ghost head = out@;
        if note.tags.len() > 0 {
            out.append("Tags: ");
            push_hashtags(&mut out, &note.tags, " ");
            out.push('\n');
            out.push('\n');
        }
        let ghost middle = out@;
        out.append(note.content.as_str());
        proof {
            reveal_strlit(" ");
            assert(" "@ =~= seq![' ']);
            let title_part = if trim(note.title@).len() > 0 {
                seq!['#', ' '] + trim(note.title@) + seq!['\n', '\n']
            } else {
                Seq::<char>::empty()
            };
            assert(head =~= title_part);
            let tags_part = if note.tags@.len() > 0 {
                "Tags: "@ + hashtags(note.tags@, seq![' ']) + seq!['\n', '\n']
            } else {
                Seq::<char>::empty()
            };
            assert(middle =~= title_part + tags_part);
        }
        out
    }

    /// The file name `note` is backed up under.
    pub fn export_file_name(note: &Note) -> (r: String)
        requires
            has_eight_byte_prefix(note.id@),
        ensures
            r@ == export_file_name_of(*note),
    {
        let title = note.display_title();
        let t = chars_of(title.as_str());
        let mut safe: Vec<char> = Vec::new();
        let mut i: usize = 0;
        while i < t.len()
            invariant
                i <= t.len(),
                safe@ == t@.take(i as int).map_values(|c: char| file_name_char(c)),
            decreases t.len() - i,
        {
            let c = t[i];
            let keep = is_alphanumeric(c) || c == ' ' || c == '-' || c == '_';
            safe.push(if keep {
                c
            } else {
                '_'
            });
            assert(t@.take(i + 1).map_values(|c: char| file_name_char(c)) =~= t@.take(
                i as int,
            ).map_values(|c: char| file_name_char(c)).push(file_name_char(c)));
            i = i + 1;
        }
        assert(t@.take(t.len() as int) =~= t@);
        let (a, b) = trim_range(&safe, 0, safe.len());
        assert(safe@.subrange(0, safe@.len() as int) =~= safe@);
        let mut out = String::new();
        let mut k = a;
        while k < b
            invariant
                a <= k <= b <= safe.len(),
                out@ == spaces_to_underscores(safe@.subrange(a as int, k as int)),
            decreases b - k,
        {
            let c = safe[k];
            out.push(if c == ' ' {
                '_'
            } else {
                c
            });
            assert(spaces_to_underscores(safe@.subrange(a as int, k + 1)) =~= spaces_to_underscores(
                safe@.subrange(a as int, k as int),
            ).push(if c == ' ' {
                '_'
            } else {
                c
            }));
            k = k + 1;
        }
        out.push('_');
        let id = chars_of(note.id.as_str());
        let mut used: u64 = 0;
        let mut j: usize = 0;
        assert(id@.take(0) + prefix_within_bytes(id@.skip(0), 8) =~= prefix_within_bytes(id@, 8)) by {
            assert(id@.skip(0) =~= id@);
        }
        while j < id.len() && used + utf8_width_of(id[j]) <= 8
            invariant
                j <= id.len(),
                used <= 8,
                id@.take(j as int) + prefix_within_bytes(id@.skip(j as int), (8 - used) as nat)
                    == prefix_within_bytes(id@, 8),
            decreases id.len() - j,
        {
            let ghost rest = id@.skip(j as int);
            assert(rest[0] == id@[j as int]);
            assert(rest.drop_first() =~= id@.skip(j + 1));
            assert(id@.take(j as int).push(id@[j as int]) =~= id@.take(j + 1));
            used = used + utf8_width_of(id[j]);
            j = j + 1;
        }
        proof {
            let rest = id@.skip(j as int);
            if j < id.len() {
                assert(rest[0] == id@[j as int]);
            }
            assert(prefix_within_bytes(rest, (8 - used) as nat) =~= Seq::<char>::empty());
            assert(id@.take(j as int) + Seq::<char>::empty() =~= id@.take(j as int));
        }
        push_range(&mut out, &id, 0, j);
        assert(id@.subrange(0, j as int) =~= id@.take(j as int));
        out.append(".md");
        out
    }

    /// The note made from an imported file with the given stem and text:
    /// a `# ` heading line becomes its title, the rest its content, and it
    /// is tagged `imported`.
    pub fn imported_note(file_stem: Option<&str>, content: &str) -> (n: Note)
        ensures
            is_uuid_text(n.id@),
            n.title@ == import_title_of(
                match file_stem {
                    Some(s) => Some(s@),
                    None => None,
                },
                content@,
            ),
            n.content@ == import_content_of(content@),
            n.tags@.len() == 1,
            n.tags@[0]@ == "imported"@,
            !n.is_pinned,
            !n.is_trashed,
            n.created_at == n.updated_at,
    {
        let c = chars_of(content);
        let ranges = line_ranges(&c);
        let ghost ls = lines(c@);
        let mut note = Note::new();
        let mut heading = false;
        if ranges.len() > 0 {
            let (lo, hi) = ranges[0];
            assert(ranges@[0] == (lo, hi));
            if hi - lo >= 2 && c[lo] == '#' && c[lo + 1] == ' ' {
                heading = true;
                let k = strip_heading_marks(&c, lo, hi);
                let (p, q) = trim_range(&c, k, hi);
                note.title = string_of_range(&c, p, q);
                let mut body = String::new();
                let mut j: usize = 1;
                while j < ranges.len()
                    invariant
                        1 <= j <= ranges@.len(),
                        ranges@.len() == ls.len(),
                        ls == lines(c@),
                        forall|x: int|
                            #![trigger ranges@[x]]
                            0 <= x < ranges@.len() ==> ranges@[x].0 <= ranges@[x].1 <= c@.len()
                                && ls[x] == c@.subrange(ranges@[x].0 as int, ranges@[x].1 as int),
                        body@ == join_lines(ls.subrange(1, j as int)),
                    decreases ranges@.len() - j,
                {
                    let (x, y) = ranges[j];
                    assert(ranges@[j as int] == (x, y));
                    if j > 1 {
                        body.push('\n');
                    }
                    push_range(&mut body, &c, x, y);
                    let ghost s = ls.subrange(1, j + 1);
                    assert(s.drop_last() =~= ls.subrange(1, j as int));
                    assert(s.last() == ls[j as int]);
                    if j == 1 {
                        assert(join_lines(ls.subrange(1, j as int)) =~= Seq::<char>::empty());
                        assert(s.len() == 1);
                    }
                    j = j + 1;
                }
                assert(ls.subrange(1, ls.len() as int) =~= ls.drop_first());
                note.content = trimmed_start(body.as_str());
            }
        }
        if !heading {
            note.title = match file_stem {
                Some(s) => String::from_str(s),
                None => String::from_str("Imported Note"),
            };
            note.content = String::from_str(content);
        }
        note.tags.push(String::from_str("imported"));
        note
    }

    /// The notes a new store starts with.
    pub fn default_starter_notes() -> (r: Vec<Note>)
        ensures
            r@.len() == 3,
            forall|i: int| 0 <= i < 3 ==> is_uuid_text(#[trigger] r@[i].id@),
            forall|i: int| 0 <= i < 3 ==> !(#[trigger] r@[i]).is_trashed,
            forall|i: int| 0 <= i < 3 ==> (#[trigger] r@[i]).created_at == r@[0].created_at,
            forall|i: int| 0 <= i < 3 ==> (#[trigger] r@[i]).updated_at == r@[0].created_at,
            r@[0].title@ == WELCOME_TITLE@,
            r@[0].content@ == WELCOME_CONTENT@,
            r@[0].tags@.len() == 2,
            r@[0].tags@[0]@ == "welcome"@,
            r@[0].tags@[1]@ == "guide"@,
            r@[0].is_pinned,
            r@[1].title@ == SHORTCUTS_TITLE@,
            r@[1].content@ == SHORTCUTS_CONTENT@,
            r@[1].tags@.len() == 2,
            r@[1].tags@[0]@ == "shortcuts"@,
            r@[1].tags@[1]@ == "tips"@,
            !r@[1].is_pinned,
            r@[2].title@ == IDEAS_TITLE@,
            r@[2].content@ == IDEAS_CONTENT@,
            r@[2].tags@.len() == 3,
            r@[2].tags@[0]@ == "linux"@,
            r@[2].tags@[1]@ == "ideas"@,
            r@[2].tags@[2]@ == "todo"@,
            !r@[2].is_pinned,
    {
        let now = clock_now();
        let mut notes: Vec<Note> = Vec::new();
        notes.push(starter_note(WELCOME_TITLE, WELCOME_CONTENT, tag_list2("welcome", "guide"), true, now));
        notes.push(starter_note(SHORTCUTS_TITLE, SHORTCUTS_CONTENT, tag_list2("shortcuts", "tips"), false, now));
        let mut ideas_tags = tag_list2("linux", "ideas");
        ideas_tags.push(String::from_str("todo"));
        notes.push(starter_note(IDEAS_TITLE, IDEAS_CONTENT, ideas_tags, false, now));
        notes
    }

    /// The files a backup of `notes` writes: for each note not in the trash,
    /// in order, the name it is backed up under and its exported text.
    pub fn backup_files(notes: &Vec<Note>) -> (r: Vec<(String, String)>)
        requires
            forall|i: int|
                0 <= i < notes@.len() && !notes@[i].is_trashed ==> has_eight_byte_prefix(
                    #[trigger] notes@[i].id@,
                ),
        ensures
            r@.len() == untrashed(notes@).len(),
            forall|k: int|
                0 <= k < r@.len() ==> (#[trigger] r@[k]).0@ == export_file_name_of(
                    untrashed(notes@)[k],
                ) && r@[k].1@ == export_text_of(
                    untrashed(notes@)[k].title@,
                    untrashed(notes@)[k].tags@,
                    untrashed(notes@)[k].content@,
                ),
    {
        let ghost p = |n: Note| !n.is_trashed;
        let mut r: Vec<(String, String)> = Vec::new();
        let mut i: usize = 0;
        while i < notes.len()
            invariant
                i <= notes@.len(),
                p == (|n: Note| !n.is_trashed),
                forall|j: int|
                    0 <= j < notes@.len() && !notes@[j].is_trashed ==> has_eight_byte_prefix(
                        #[trigger] notes@[j].id@,
                    ),
                r@.len() == notes@.take(i as int).filter(p).len(),
                forall|k: int|
                    0 <= k < r@.len() ==> (#[trigger] r@[k]).0@ == export_file_name_of(
                        notes@.take(i as int).filter(p)[k],
                    ) && r@[k].1@ == export_text_of(
                        notes@.take(i as int).filter(p)[k].title@,
                        notes@.take(i as int).filter(p)[k].tags@,
                        notes@.take(i as int).filter(p)[k].content@,
                    ),
            decreases notes@.len() - i,
        {
            proof {
                lemma_filter_take_step(notes@, p, i as int);
            }
            let n = &notes[i];
            if !n.is_trashed {
                let name = Self::export_file_name(n);
                let text = Self::export_text(n);
                r.push((name, text));
            }
            i = i + 1;
        }
        proof {
            lemma_filter_take_all(notes@, p);
        }
        r
    }

    /// The name a corrupt notes file is backed up under, for the given Unix
    /// time: `notes_backup_<time>.json`.
    pub fn backup_file_name(timestamp: i64) -> (r: String)
        ensures
            r@ == backup_file_name_of(timestamp as int),
    {
        let mut r = String::from_str("notes_backup_");
        push_decimal_i64(&mut r, timestamp);
        r.append(".json");
        r
    }
}

/// The number of bytes of `c` in UTF-8.
fn utf8_width_of(c: char) -> (r: u64)
    ensures
        r == utf8_width(c),
{
    let n = c as u32;
    if n < 0x80 {
        1
    } else if n < 0x800 {
        2
    } else if n < 0x10000 {
        3
    } else {
        4
    }
}

/// The title of the first starter note.
pub const WELCOME_TITLE: &'static str = "Welcome to MyNote! 🚀";
/// The content of the first starter note.
pub const WELCOME_CONTENT: &'static str = r#"# Welcome to MyNote

**MyNote** is a super-fast, clean, and modern note-taking application designed natively for Linux.

### Key Features:
- ⚡ **Blazing Fast & Lightweight**: Written in Rust + GTK4 & Libadwaita.
- 💾 **Automatic Instant Saving**: Never worry about losing your thoughts.
- 🏷️ **Tags & Organization**: Tag notes with `#work`, `#ideas`, `#todo` to stay organized.
- ⭐ **Favorites / Pinning**: Pin your most important notes to the top.
- 🔍 **Real-time Search**: Instant search through titles, content, and tags.
- 📝 **Rich Markdown Support**: Live preview, formatting toolbar, and keyboard shortcuts.
- 📤 **Export & Import**: Export to Markdown (`.md`) or Plain Text (`.txt`).
- 🗑️ **Trash Bin**: Safely restore deleted notes or empty trash whenever needed.

### Markdown Tips:
- Use `**bold**` or `*italic*`
- Use `# Heading 1`, `## Heading 2`
- Use `- [ ] Task item` for checkboxes
- Use `- Bullet item` for lists
- Use ```` ```rust ```` for code blocks
- Use `> Quotes` for highlights

Enjoy note-taking with MyNote! 🎉"#;
/// The title of the second starter note.
pub const SHORTCUTS_TITLE: &'static str = "Keyboard Shortcuts ⌨️";
/// The content of the second starter note.
pub const SHORTCUTS_CONTENT: &'static str = r#"# Handy Keyboard Shortcuts

Boost your productivity with these keyboard shortcuts:

| Action | Shortcut |
|---|---|
| **New Note** | `Ctrl + N` |
| **Search Notes** | `Ctrl + F` |
| **Toggle Favorite / Pin** | `Ctrl + D` |
| **Export Note** | `Ctrl + E` |
| **Import Note** | `Ctrl + I` |
| **Toggle Markdown Preview** | `Ctrl + P` |
| **Delete / Trash Note** | `Ctrl + Delete` |
| **Keyboard Shortcuts Help** | `Ctrl + ?` |
| **Quit MyNote** | `Ctrl + Q` |

*Tip: Press `Ctrl + F` anytime to quickly filter your notes list.*"#;
/// The title of the third starter note.
pub const IDEAS_TITLE: &'static str = "Linux Setup & Project Ideas 🐧";
/// The content of the third starter note.
pub const IDEAS_CONTENT: &'static str = r#"# Linux Setup & Projects

Here is an example note for tracking tasks and ideas:

### Project Goals:
- [x] Configure Linux desktop environment
- [x] Install Rust development toolchain
- [ ] Build a lightning-fast native note app
- [ ] Star MyNote on GitHub ⭐

### Useful Linux Commands:
```bash
# Update system packages
sudo pacman -Syu    # Arch Linux
sudo apt update     # Ubuntu / Debian
sudo dnf upgrade    # Fedora

# Check disk space
df -h
```

> "Simplicity is prerequisite for reliability." — Edsger W. Dijkstra"#;

} // verus!

