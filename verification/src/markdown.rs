//! Rendering of Markdown notes as Pango markup for the preview pane.
//!
//! The Markdown itself is parsed by `pulldown_cmark`; the events it yields
//! are carried into the library as [`MdEvent`] values and turned into Pango
//! markup by a verified renderer.

use vstd::prelude::*;
use crate::markup::{
    balanced_events, balanced_markup, lemma_pango_markup_well_formed, markup_tags,
    preview_tags_only,
};
use crate::text::{chars_of, is_white_space, lemma_trim_end_idempotent, trim_end, trimmed_end};
use pulldown_cmark::{Event, Options, Parser, Tag, TagEnd};

verus! {

/// A Markdown event of `pulldown_cmark`, carried through opaquely.
#[verifier::external_type_specification]
#[verifier::external_body]
pub struct ExEvent<'a>(Event<'a>);

/// The start tag of a `pulldown_cmark` element, carried through opaquely.
#[verifier::external_type_specification]
#[verifier::external_body]
pub struct ExTag<'a>(Tag<'a>);

/// The end tag of a `pulldown_cmark` element, carried through opaquely.
#[verifier::external_type_specification]
#[verifier::external_body]
pub struct ExTagEnd(TagEnd);

/// The start of a Markdown element, as far as the preview distinguishes it.
#[derive(Debug, Clone, PartialEq)]
pub enum MdTag {
    /// A heading of level 1 to 6.
    Heading(u8),
    BlockQuote,
    CodeBlock,
    List,
    Item,
    Emphasis,
    Strong,
    Strikethrough,
    /// A link to the given destination.
    Link(String),
    /// An image with the given source.
    Image(String),
    Table,
    TableCell,
    /// Any other element (paragraphs and table rows among them): its start
    /// writes nothing.
    Other,
}

/// The end of a Markdown element, as far as the preview distinguishes it.
#[derive(Debug, Clone, Copy, PartialEq, Eq)]
pub enum MdTagEnd {
    Paragraph,
    Heading,
    BlockQuote,
    CodeBlock,
    List,
    Item,
    Emphasis,
    Strong,
    Strikethrough,
    Link,
    Image,
    Table,
    TableRow,
    /// Any other element (table cells among them): its end writes nothing.
    Other,
}

/// One event of the Markdown parse.
#[derive(Debug, Clone, PartialEq)]
pub enum MdEvent {
    Start(MdTag),
    End(MdTagEnd),
    Text(String),
    Code(String),
    TaskListMarker(bool),
    SoftBreak,
    HardBreak,
    Rule,
    /// Any other event (HTML, math, footnote references): it writes nothing.
    Other,
}

/// The events that `pulldown_cmark` yields for a Markdown text, with tables,
/// task lists and strikethrough enabled, each carried over as an [`MdEvent`].
pub uninterp spec fn cmark_events(markdown: Seq<char>) -> Seq<MdEvent>;

/// Parses `markdown` with `Parser::new_ext` (tables, task
/// lists and strikethrough enabled) and carries each event over as an
/// [`MdEvent`]. The parse is a function of the text alone; its result is
/// named by [`cmark_events`], not spelled out. Stated besides: its elements
/// are balanced. `pulldown_cmark` documents of `Event::Start` that start and
/// end events are guaranteed to be balanced, and each start tag and its end
/// tag are carried over to the same kind of element (see `event_tags`).
#[verifier::external_body]
pub(crate) fn markdown_events(markdown: &str) -> (events: Vec<MdEvent>)
    ensures
        events@ == cmark_events(markdown@),
        balanced_events(events@),
{
    let mut options = Options::empty();
    options.insert(Options::ENABLE_TABLES);
    options.insert(Options::ENABLE_TASKLISTS);
    options.insert(Options::ENABLE_STRIKETHROUGH);
    Parser::new_ext(markdown, options).map(event_from_cmark).collect()
}

/// Carries a `pulldown_cmark::Event` over to an [`MdEvent`], one variant for
/// one variant, text payloads copied into `String`s. Used by
/// [`markdown_events`] only; what it yields is part of [`cmark_events`].
#[verifier::external_body]
fn event_from_cmark(e: Event) -> MdEvent {
    match e {
        Event::Start(t) => MdEvent::Start(tag_from_cmark(t)),
        Event::End(t) => MdEvent::End(tag_end_from_cmark(t)),
        Event::Text(s) => MdEvent::Text(s.to_string()),
        Event::Code(s) => MdEvent::Code(s.to_string()),
        Event::TaskListMarker(b) => MdEvent::TaskListMarker(b),
        Event::SoftBreak => MdEvent::SoftBreak,
        Event::HardBreak => MdEvent::HardBreak,
        Event::Rule => MdEvent::Rule,
        _ => MdEvent::Other,
    }
}

/// Carries a `pulldown_cmark::Tag` over to an [`MdTag`]; used by
/// [`event_from_cmark`] only.
#[verifier::external_body]
fn tag_from_cmark(t: Tag) -> MdTag {
    match t {
        Tag::Heading { level, .. } => MdTag::Heading(level as u8),
        Tag::BlockQuote(_) => MdTag::BlockQuote,
        Tag::CodeBlock(_) => MdTag::CodeBlock,
        Tag::List(_) => MdTag::List,
        Tag::Item => MdTag::Item,
        Tag::Emphasis => MdTag::Emphasis,
        Tag::Strong => MdTag::Strong,
        Tag::Strikethrough => MdTag::Strikethrough,
        Tag::Link { dest_url, .. } => MdTag::Link(dest_url.to_string()),
        Tag::Image { dest_url, .. } => MdTag::Image(dest_url.to_string()),
        Tag::Table(_) => MdTag::Table,
        Tag::TableCell => MdTag::TableCell,
        _ => MdTag::Other,
    }
}

/// Carries a `pulldown_cmark::TagEnd` over to an [`MdTagEnd`]; used by
/// [`event_from_cmark`] only.
#[verifier::external_body]
fn tag_end_from_cmark(t: TagEnd) -> MdTagEnd {
    match t {
        TagEnd::Paragraph => MdTagEnd::Paragraph,
        TagEnd::Heading(_) => MdTagEnd::Heading,
        TagEnd::BlockQuote(_) => MdTagEnd::BlockQuote,
        TagEnd::CodeBlock => MdTagEnd::CodeBlock,
        TagEnd::List(_) => MdTagEnd::List,
        TagEnd::Item => MdTagEnd::Item,
        TagEnd::Emphasis => MdTagEnd::Emphasis,
        TagEnd::Strong => MdTagEnd::Strong,
        TagEnd::Strikethrough => MdTagEnd::Strikethrough,
        TagEnd::Link => MdTagEnd::Link,
        TagEnd::Image => MdTagEnd::Image,
        TagEnd::Table => MdTagEnd::Table, TagEnd::TableRow => MdTagEnd::TableRow,
        _ => MdTagEnd::Other,
    }
}

// ---------------------------------------------------------------------------
// Escaping

/// The Pango/XML form of one character.
pub open spec fn escape_char(c: char) -> Seq<char> {
    if c == '&' {
        "&amp;"@
    } else if c == '<' {
        "&lt;"@
    } else if c == '>' {
        "&gt;"@
    } else if c == '"' {
        "&quot;"@
    } else if c == '\'' {
        "&apos;"@
    } else {
        seq![c]
    }
}

/// `s` with the five XML special characters replaced by their entities.
pub open spec fn escape_xml_seq(s: Seq<char>) -> Seq<char>
    decreases s.len(),
{
    if s.len() == 0 {
        seq![]
    } else {
        escape_xml_seq(s.drop_last()) + escape_char(s.last())
    }
}

/// Appends the escaped form of `v` to `out`.
pub fn push_escaped(out: &mut String, v: &Vec<char>)
    ensures
        final(out)@ == old(out)@ + escape_xml_seq(v@),
{
    let mut i: usize = 0;
    while i < v.len()
        invariant
            i <= v.len(),
            out@ == old(out)@ + escape_xml_seq(v@.take(i as int)),
        decreases v.len() - i,
    {
        let c = v[i];
        let ghost before = out@;
        if c == '&' {
            out.append("&amp;");
        } else if c == '<' {
            out.append("&lt;");
        } else if c == '>' {
            out.append("&gt;");
        } else if c == '"' {
            out.append("&quot;");
        } else if c == '\'' {
            out.append("&apos;");
        } else {
            out.push(c);
        }
        assert(out@ == before + escape_char(c));
        assert(v@.take(i + 1).drop_last() =~= v@.take(i as int));
        assert(old(out)@ + escape_xml_seq(v@.take(i as int)) + escape_char(c) =~= old(out)@
            + escape_xml_seq(v@.take(i + 1)));
        i = i + 1;
    }
    assert(v@.take(v.len() as int) =~= v@);
}

/// Whether `c` is one of the characters that markup gives a meaning to.
pub open spec fn is_markup_char(c: char) -> bool {
    c == '<' || c == '>' || c == '"' || c == '\''
}

/// Escaped text holds no `<`, `>`, `"` or `'`, so it can never open or
/// close a tag or end an attribute value; and text without the five special
/// characters is left as it is.
pub proof fn lemma_escape_xml_safe(s: Seq<char>)
    ensures
        forall|k: int| 0 <= k < escape_xml_seq(s).len() ==> !is_markup_char(#[trigger] escape_xml_seq(s)[k]),
        (forall|k: int| 0 <= k < s.len() ==> !is_markup_char(#[trigger] s[k]) && s[k] != '&')
            ==> escape_xml_seq(s) == s,
    decreases s.len(),
{
    reveal_strlit("&amp;");
    reveal_strlit("&lt;");
    reveal_strlit("&gt;");
    reveal_strlit("&quot;");
    reveal_strlit("&apos;");
    if s.len() > 0 {
        let t = s.drop_last();
        lemma_escape_xml_safe(t);
        let e = escape_xml_seq(s);
        let a = escape_xml_seq(t);
        let b = escape_char(s.last());
        assert(e == a + b);
        assert forall|k: int| 0 <= k < e.len() implies !is_markup_char(#[trigger] e[k]) by {
            if k < a.len() {
                assert(e[k] == a[k]);
            } else {
                assert(e[k] == b[k - a.len()]);
            }
        }
        if forall|k: int| 0 <= k < s.len() ==> !is_markup_char(#[trigger] s[k]) && s[k] != '&' {
            assert forall|k: int| 0 <= k < t.len() implies !is_markup_char(#[trigger] t[k]) && t[k] != '&' by {
                assert(t[k] == s[k]);
            }
            assert(!is_markup_char(s[s.len() - 1]) && s[s.len() - 1] != '&');
            assert(e =~= s);
        }
    }
}

/// Whether `s` starts with the `n` characters of `p`.
pub open spec fn starts_with(s: Seq<char>, p: Seq<char>, n: int) -> bool {
    n <= s.len() && s.take(n) == p
}

/// `s` with the five entities `&amp;`, `&lt;`, `&gt;`, `&quot;` and
/// `&apos;` read back as the characters they stand for.
pub open spec fn unescape_xml_seq(s: Seq<char>) -> Seq<char>
    decreases s.len(),
{
    if s.len() == 0 {
        seq![]
    } else if starts_with(s, "&amp;"@, 5) {
        seq!['&'] + unescape_xml_seq(s.skip(5))
    } else if starts_with(s, "&lt;"@, 4) {
        seq!['<'] + unescape_xml_seq(s.skip(4))
    } else if starts_with(s, "&gt;"@, 4) {
        seq!['>'] + unescape_xml_seq(s.skip(4))
    } else if starts_with(s, "&quot;"@, 6) {
        seq!['"'] + unescape_xml_seq(s.skip(6))
    } else if starts_with(s, "&apos;"@, 6) {
        seq!['\''] + unescape_xml_seq(s.skip(6))
    } else {
        seq![s[0]] + unescape_xml_seq(s.drop_first())
    }
}

/// Escaping a concatenation escapes each part.
pub proof fn lemma_escape_xml_concat(a: Seq<char>, b: Seq<char>)
    ensures
        escape_xml_seq(a + b) == escape_xml_seq(a) + escape_xml_seq(b),
    decreases b.len(),
{
    if b.len() == 0 {
        assert(a + b =~= a);
        assert(escape_xml_seq(a) + escape_xml_seq(b) =~= escape_xml_seq(a));
    } else {
        lemma_escape_xml_concat(a, b.drop_last());
        assert((a + b).drop_last() =~= a + b.drop_last());
        assert((a + b).last() == b.last());
        assert(escape_xml_seq(a) + escape_xml_seq(b.drop_last()) + escape_char(b.last())
            =~= escape_xml_seq(a) + (escape_xml_seq(b.drop_last()) + escape_char(b.last())));
    }
}

/// Reading back one escaped character and the text after it.
proof fn lemma_unescape_char(c: char, rest: Seq<char>)
    ensures
        unescape_xml_seq(escape_char(c) + rest) == seq![c] + unescape_xml_seq(rest),
{
    reveal_strlit("&amp;");
    reveal_strlit("&lt;");
    reveal_strlit("&gt;");
    reveal_strlit("&quot;");
    reveal_strlit("&apos;");
    let e = escape_char(c);
    let s = e + rest;
    assert(s.skip(e.len() as int) =~= rest);
    assert(s[0] == e[0]);
    if e.len() > 1 {
        assert(s[1] == e[1]);
    }
    if e.len() > 2 {
        assert(s[2] == e[2]);
    }
    if 4 <= s.len() {
        assert(s.take(4)[0] == s[0] && s.take(4)[1] == s[1]);
    }
    if 5 <= s.len() {
        assert(s.take(5)[0] == s[0] && s.take(5)[1] == s[1]);
    }
    if 6 <= s.len() {
        assert(s.take(6)[0] == s[0] && s.take(6)[1] == s[1] && s.take(6)[2] == s[2]);
    }
    if c == '&' {
        assert(s.take(5) =~= "&amp;"@);
    } else if c == '<' {
        assert(s.take(4) =~= "&lt;"@);
    } else if c == '>' {
        assert(s.take(4) =~= "&gt;"@);
    } else if c == '"' {
        assert(s.take(6) =~= "&quot;"@);
    } else if c == '\'' {
        assert(s.take(6) =~= "&apos;"@);
    } else {
        assert(s.drop_first() =~= rest);
    }
}

/// Escaped text reads back as the text: unescaping the output of
/// `escape_xml` gives its input.
pub proof fn lemma_escape_xml_round_trip(s: Seq<char>)
    ensures
        unescape_xml_seq(escape_xml_seq(s)) == s,
    decreases s.len(),
{
    if s.len() > 0 {
        let t = s.drop_first();
        lemma_escape_xml_round_trip(t);
        assert(s =~= seq![s[0]] + t);
        lemma_escape_xml_concat(seq![s[0]], t);
        assert(escape_xml_seq(seq![s[0]]) =~= escape_char(s[0])) by {
            assert(seq![s[0]].drop_last() =~= Seq::<char>::empty());
            assert(escape_xml_seq(Seq::<char>::empty()) =~= Seq::<char>::empty());
        }
        lemma_unescape_char(s[0], escape_xml_seq(t));
    } else {
        assert(escape_xml_seq(s) =~= Seq::<char>::empty());
    }
}

/// Escaping never shortens a text, and it leaves a text unchanged exactly
/// when the text has none of the five special characters.
pub proof fn lemma_escape_xml_unchanged_iff(s: Seq<char>)
    ensures
        escape_xml_seq(s).len() >= s.len(),
        (escape_xml_seq(s) == s) <==> (forall|k: int|
            0 <= k < s.len() ==> !is_markup_char(#[trigger] s[k]) && s[k] != '&'),
{
    lemma_escape_xml_safe(s);
    lemma_escape_xml_length(s);
}

/// Escaping keeps the length of a text exactly when the text has none of
/// the five special characters, and lengthens it otherwise.
proof fn lemma_escape_xml_length(s: Seq<char>)
    ensures
        escape_xml_seq(s).len() >= s.len(),
        (escape_xml_seq(s).len() == s.len()) <==> (forall|k: int|
            0 <= k < s.len() ==> !is_markup_char(#[trigger] s[k]) && s[k] != '&'),
    decreases s.len(),
{
    reveal_strlit("&amp;");
    reveal_strlit("&lt;");
    reveal_strlit("&gt;");
    reveal_strlit("&quot;");
    reveal_strlit("&apos;");
    if s.len() > 0 {
        let t = s.drop_last();
        lemma_escape_xml_length(t);
        let c = s.last();
        assert(escape_xml_seq(s).len() == escape_xml_seq(t).len() + escape_char(c).len());
        if forall|k: int| 0 <= k < s.len() ==> !is_markup_char(#[trigger] s[k]) && s[k] != '&' {
            assert forall|k: int| 0 <= k < t.len() implies !is_markup_char(#[trigger] t[k]) && t[k] != '&' by {
                assert(t[k] == s[k]);
            }
            assert(!is_markup_char(s[s.len() - 1]) && s[s.len() - 1] != '&');
        } else {
            let k = choose|k: int| 0 <= k < s.len() && !(!is_markup_char(#[trigger] s[k]) && s[k] != '&');
            if k == s.len() - 1 {
                assert(escape_char(c).len() > 1);
            } else {
                assert(t[k] == s[k]);
                assert(escape_xml_seq(t).len() > t.len());
            }
        }
    } else {
        assert(escape_xml_seq(s).len() == 0);
    }
}

/// The Pango markup never ends with white space.
pub proof fn lemma_pango_no_trailing_space(events: Seq<MdEvent>)
    ensures
        pango_markup(events).len() > 0 ==> !is_white_space(pango_markup(events).last()),
{
    lemma_trim_end_idempotent(pango_run(events).out);
}

/// Escapes the XML special characters `&`, `<`, `>`, `"` and `'` of `input`.
pub fn escape_xml(input: &str) -> (r: String)
    ensures
        r@ == escape_xml_seq(input@),
{
    let v = chars_of(input);
    let mut out = String::new();
    push_escaped(&mut out, &v);
    assert(Seq::<char>::empty() + escape_xml_seq(v@) =~= escape_xml_seq(v@));
    out
}

// ---------------------------------------------------------------------------
// Rendering

/// The renderer's state between two events.
pub struct PangoState {
    /// The markup written so far.
    pub out: Seq<char>,
    /// How many lists are open.
    pub list_depth: nat,
    /// Whether a code block is open.
    pub in_code_block: bool,
    /// The text of the open code block.
    pub code_buf: Seq<char>,
}

/// The state before the first event.
pub open spec fn pango_start() -> PangoState {
    PangoState { out: seq![], list_depth: 0, in_code_block: false, code_buf: seq![] }
}

/// The markup that opens a heading of the given level.
pub open spec fn heading_open(level: u8) -> Seq<char> {
    if level == 1 {
        "<span size=\"xx-large\" weight=\"bold\" color=\"#3584e4\">"@
    } else if level == 2 {
        "<span size=\"x-large\" weight=\"bold\" color=\"#1c71d8\">"@
    } else if level == 3 {
        "<span size=\"large\" weight=\"bold\" color=\"#62a0ea\">"@
    } else if level == 4 {
        "<span size=\"medium\" weight=\"bold\">"@
    } else if level == 5 {
        "<span size=\"small\" weight=\"bold\">"@
    } else {
        "<span size=\"x-small\" weight=\"bold\">"@
    }
}

/// `n` copies of the two-space list indent.
pub open spec fn list_indent(n: nat) -> Seq<char>
    decreases n,
{
    if n == 0 {
        seq![]
    } else {
        list_indent((n - 1) as nat) + "  "@
    }
}

/// What the start of an element does to the state.
pub open spec fn pango_start_tag(st: PangoState, tag: MdTag) -> PangoState {
    match tag {
        MdTag::Heading(level) => PangoState { out: st.out + heading_open(level), ..st },
        MdTag::BlockQuote => PangoState {
            out: st.out + "<span style=\"italic\" alpha=\"80%\">"@ + QUOTE_MARK@,
            ..st
        },
        MdTag::CodeBlock => PangoState { in_code_block: true, code_buf: seq![], ..st },
        MdTag::List => PangoState { list_depth: st.list_depth + 1, ..st },
        MdTag::Item => PangoState {
            out: st.out + list_indent(
                (if st.list_depth > 0 {
                    st.list_depth - 1
                } else {
                    0
                }) as nat,
            ) + BULLET@,
            ..st
        },
        MdTag::Emphasis => PangoState { out: st.out + "<i>"@, ..st },
        MdTag::Strong => PangoState { out: st.out + "<b>"@, ..st },
        MdTag::Strikethrough => PangoState { out: st.out + "<s>"@, ..st },
        MdTag::Link(url) => PangoState {
            out: st.out + "<a href=\""@ + escape_xml_seq(url@) + "\"><u>"@,
            ..st
        },
        MdTag::Image(url) => PangoState {
            out: st.out + "<a href=\""@ + escape_xml_seq(url@) + "\">"@ + IMAGE_OPEN@ + escape_xml_seq(
                url@,
            ) + "</span>"@,
            ..st
        },
        MdTag::Table => PangoState { out: st.out + "<tt>"@, ..st },
        MdTag::TableCell => PangoState { out: st.out + " | "@, ..st },
        MdTag::Other => st,
    }
}

/// What the end of an element does to the state.
pub open spec fn pango_end_tag(st: PangoState, tag: MdTagEnd) -> PangoState {
    match tag {
        MdTagEnd::Paragraph => PangoState { out: st.out + "\n\n"@, ..st },
        MdTagEnd::Heading => PangoState { out: st.out + "</span>\n\n"@, ..st },
        MdTagEnd::BlockQuote => PangoState { out: st.out + "</span>\n\n"@, ..st },
        MdTagEnd::CodeBlock => PangoState {
            out: st.out + CODE_BLOCK_OPEN@ + escape_xml_seq(st.code_buf) + "</span></tt>\n\n"@,
            in_code_block: false,
            code_buf: seq![],
            ..st
        },
        MdTagEnd::List => PangoState {
            out: st.out + "\n"@,
            list_depth: (if st.list_depth > 0 {
                st.list_depth - 1
            } else {
                0
            }) as nat,
            ..st
        },
        MdTagEnd::Item => PangoState { out: st.out + "\n"@, ..st },
        MdTagEnd::Emphasis => PangoState { out: st.out + "</i>"@, ..st },
        MdTagEnd::Strong => PangoState { out: st.out + "</b>"@, ..st },
        MdTagEnd::Strikethrough => PangoState { out: st.out + "</s>"@, ..st },
        MdTagEnd::Link => PangoState { out: st.out + "</u></a>"@, ..st },
        MdTagEnd::Image => PangoState { out: st.out + "</a>"@, ..st },
        MdTagEnd::Table => PangoState { out: st.out + "</tt>\n\n"@, ..st },
        MdTagEnd::TableRow => PangoState { out: st.out + " |\n"@, ..st },
        MdTagEnd::Other => st,
    }
}

/// What one event does to the state.
pub open spec fn pango_step(st: PangoState, e: MdEvent) -> PangoState {
    match e {
        MdEvent::Start(tag) => pango_start_tag(st, tag),
        MdEvent::End(tag) => pango_end_tag(st, tag),
        MdEvent::Text(t) => if st.in_code_block {
            PangoState { code_buf: st.code_buf + t@, ..st }
        } else {
            PangoState { out: st.out + escape_xml_seq(t@), ..st }
        },
        MdEvent::Code(c) => PangoState {
            out: st.out + CODE_SPAN_OPEN@ + escape_xml_seq(c@) + " </span></tt>"@,
            ..st
        },
        MdEvent::TaskListMarker(checked) => PangoState {
            out: st.out + if checked {
                TASK_DONE@
            } else {
                TASK_OPEN@
            },
            ..st
        },
        MdEvent::SoftBreak => PangoState { out: st.out + "\n"@, ..st },
        MdEvent::HardBreak => PangoState { out: st.out + "\n\n"@, ..st },
        MdEvent::Rule => PangoState { out: st.out + RULE_LINE@, ..st },
        MdEvent::Other => st,
    }
}

/// The state after all of `events`, in order.
pub open spec fn pango_run(events: Seq<MdEvent>) -> PangoState
    decreases events.len(),
{
    if events.len() == 0 {
        pango_start()
    } else {
        pango_step(pango_run(events.drop_last()), events.last())
    }
}

/// The Pango markup for a sequence of Markdown events: what the renderer
/// wrote, without trailing white space.
pub open spec fn pango_markup(events: Seq<MdEvent>) -> Seq<char> {
    trim_end(pango_run(events).out)
}

/// The Pango markup for a Markdown text.
pub open spec fn markdown_pango(markdown: Seq<char>) -> Seq<char> {
    pango_markup(cmark_events(markdown))
}


/// The renderer's working state.
struct Renderer {
    out: String,
    list_depth: usize,
    in_code_block: bool,
    code_buf: String,
}

impl Renderer {
    /// The state this renderer stands for.
    spec fn state(&self) -> PangoState {
        PangoState {
            out: self.out@,
            list_depth: self.list_depth as nat,
            in_code_block: self.in_code_block,
            code_buf: self.code_buf@,
        }
    }

    /// Writes `n` list indents.
    fn push_indent(&mut self, n: usize)
        ensures
            final(self).out@ == old(self).out@ + list_indent(n as nat),
            final(self).list_depth == old(self).list_depth,
            final(self).in_code_block == old(self).in_code_block,
            final(self).code_buf == old(self).code_buf,
    {
        let mut k: usize = 0;
        while k < n
            invariant
                k <= n,
                self.out@ == old(self).out@ + list_indent(k as nat),
                self.list_depth == old(self).list_depth,
                self.in_code_block == old(self).in_code_block,
                self.code_buf == old(self).code_buf,
            decreases n - k,
        {
            self.out.append("  ");
            assert(old(self).out@ + list_indent(k as nat) + "  "@ =~= old(self).out@ + list_indent(
                (k + 1) as nat,
            ));
            k = k + 1;
        }
    }

    /// Handles the start of an element.
    fn start_tag(&mut self, tag: &MdTag)
        requires
            old(self).list_depth < usize::MAX,
        ensures
            final(self).state() == pango_start_tag(old(self).state(), *tag),
    {
        match tag {
            MdTag::Heading(level) => {
                if *level == 1 {
                    self.out.append("<span size=\"xx-large\" weight=\"bold\" color=\"#3584e4\">");
                } else if *level == 2 {
                    self.out.append("<span size=\"x-large\" weight=\"bold\" color=\"#1c71d8\">");
                } else if *level == 3 {
                    self.out.append("<span size=\"large\" weight=\"bold\" color=\"#62a0ea\">");
                } else if *level == 4 {
                    self.out.append("<span size=\"medium\" weight=\"bold\">");
                } else if *level == 5 {
                    self.out.append("<span size=\"small\" weight=\"bold\">");
                } else {
                    self.out.append("<span size=\"x-small\" weight=\"bold\">");
                }
            },
            MdTag::BlockQuote => {
                self.out.append("<span style=\"italic\" alpha=\"80%\">");
                self.out.append(QUOTE_MARK);
            },
            MdTag::CodeBlock => {
                self.in_code_block = true;
                self.code_buf = String::new();
            },
            MdTag::List => {
                self.list_depth = self.list_depth + 1;
            },
            MdTag::Item => {
                let n = if self.list_depth > 0 {
                    self.list_depth - 1
                } else {
                    0
                };
                self.push_indent(n);
                self.out.append(BULLET);
            },
            MdTag::Emphasis => {
                self.out.append("<i>");
            },
            MdTag::Strong => {
                self.out.append("<b>");
            },
            MdTag::Strikethrough => {
                self.out.append("<s>");
            },
            MdTag::Link(url) => {
                self.out.append("<a href=\"");
                let v = chars_of(url.as_str());
                push_escaped(&mut self.out, &v);
                self.out.append("\"><u>");
            },
            MdTag::Image(url) => {
                let v = chars_of(url.as_str());
                self.out.append("<a href=\"");
                push_escaped(&mut self.out, &v);
                self.out.append("\">");
                self.out.append(IMAGE_OPEN);
                push_escaped(&mut self.out, &v);
                self.out.append("</span>");
            },
            MdTag::Table => {
                self.out.append("<tt>");
            },
            MdTag::TableCell => {
                self.out.append(" | ");
            },
            MdTag::Other => {},
        }
    }

    /// Handles the end of an element.
    fn end_tag(&mut self, tag: MdTagEnd)
        ensures
            final(self).state() == pango_end_tag(old(self).state(), tag),
    {
        match tag {
            MdTagEnd::Paragraph => {
                self.out.append("\n\n");
            },
            MdTagEnd::Heading => {
                self.out.append("</span>\n\n");
            },
            MdTagEnd::BlockQuote => {
                self.out.append("</span>\n\n");
            },
            MdTagEnd::CodeBlock => {
                self.in_code_block = false;
                self.out.append(CODE_BLOCK_OPEN);
                let v = chars_of(self.code_buf.as_str());
                push_escaped(&mut self.out, &v);
                self.out.append("</span></tt>\n\n");
                self.code_buf = String::new();
            },
            MdTagEnd::List => {
                self.out.append("\n");
                if self.list_depth > 0 {
                    self.list_depth = self.list_depth - 1;
                }
            },
            MdTagEnd::Item => {
                self.out.append("\n");
            },
            MdTagEnd::Emphasis => {
                self.out.append("</i>");
            },
            MdTagEnd::Strong => {
                self.out.append("</b>");
            },
            MdTagEnd::Strikethrough => {
                self.out.append("</s>");
            },
            MdTagEnd::Link => {
                self.out.append("</u></a>");
            },
            MdTagEnd::Image => {
                self.out.append("</a>");
            },
            MdTagEnd::Table => {
                self.out.append("</tt>\n\n");
            },
            MdTagEnd::TableRow => {
                self.out.append(" |\n");
            },
            MdTagEnd::Other => {},
        }
    }

    /// Handles one event.
    fn step(&mut self, e: &MdEvent)
        requires
            old(self).list_depth < usize::MAX,
        ensures
            final(self).state() == pango_step(old(self).state(), *e),
    {
        match e {
            MdEvent::Start(tag) => self.start_tag(tag),
            MdEvent::End(tag) => self.end_tag(*tag),
            MdEvent::Text(t) => {
                if self.in_code_block {
                    self.code_buf.append(t.as_str());
                } else {
                    let v = chars_of(t.as_str());
                    push_escaped(&mut self.out, &v);
                }
            },
            MdEvent::Code(c) => {
                self.out.append(CODE_SPAN_OPEN);
                let v = chars_of(c.as_str());
                push_escaped(&mut self.out, &v);
                self.out.append(" </span></tt>");
            },
            MdEvent::TaskListMarker(checked) => {
                if *checked {
                    self.out.append(TASK_DONE);
                } else {
                    self.out.append(TASK_OPEN);
                }
            },
            MdEvent::SoftBreak => {
                self.out.append("\n");
            },
            MdEvent::HardBreak => {
                self.out.append("\n\n");
            },
            MdEvent::Rule => {
                self.out.append(RULE_LINE);
            },
            MdEvent::Other => {},
        }
    }
}

/// Lists open at most once per event.
proof fn lemma_pango_depth_bound(events: Seq<MdEvent>)
    ensures
        pango_run(events).list_depth <= events.len(),
    decreases events.len(),
{
    if events.len() > 0 {
        lemma_pango_depth_bound(events.drop_last());
    }
}

/// The Pango markup for a sequence of Markdown events.
pub fn render_pango(events: &Vec<MdEvent>) -> (r: String)
    ensures
        r@ == pango_markup(events@),
{
    let mut r = Renderer {
        out: String::new(),
        list_depth: 0,
        in_code_block: false,
        code_buf: String::new(),
    };
    let mut i: usize = 0;
    while i < events.len()
        invariant
            i <= events.len(),
            r.state() == pango_run(events@.take(i as int)),
        decreases events.len() - i,
    {
        proof {
            lemma_pango_depth_bound(events@.take(i as int));
        }
        r.step(&events[i]);
        assert(events@.take(i + 1).drop_last() =~= events@.take(i as int));
        i = i + 1;
    }
    assert(events@.take(events.len() as int) =~= events@);
    trimmed_end(r.out.as_str())
}

/// The number of lists open after `events`: a list start opens one, a list
/// end closes the innermost one (and none when none is open).
pub open spec fn open_lists(events: Seq<MdEvent>) -> nat
    decreases events.len(),
{
    if events.len() == 0 {
        0
    } else {
        let n = open_lists(events.drop_last());
        match events.last() {
            MdEvent::Start(MdTag::List) => n + 1,
            MdEvent::End(MdTagEnd::List) => if n > 0 {
                (n - 1) as nat
            } else {
                0
            },
            _ => n,
        }
    }
}

/// `n` spaces.
pub open spec fn spaces(n: nat) -> Seq<char> {
    Seq::new(n, |i: int| ' ')
}

proof fn lemma_list_indent_spaces(n: nat)
    ensures
        list_indent(n) == spaces(2 * n),
    decreases n,
{
    reveal_strlit("  ");
    if n > 0 {
        lemma_list_indent_spaces((n - 1) as nat);
        assert(list_indent(n) =~= spaces(2 * n));
    } else {
        assert(list_indent(0) =~= spaces(0));
    }
}

/// The renderer's list depth after `events` is the number of lists open
/// after them: a list's end closes its level.
pub proof fn lemma_list_depth(events: Seq<MdEvent>)
    ensures
        pango_run(events).list_depth == open_lists(events),
    decreases events.len(),
{
    if events.len() > 0 {
        lemma_list_depth(events.drop_last());
    }
}

/// A list item is indented by two spaces for each open list beyond the
/// first, then gets its bullet: an item of a list that is not inside
/// another list has no indent, also after nested lists before it closed.
pub proof fn lemma_item_indent(events: Seq<MdEvent>)
    ensures
        pango_step(pango_run(events), MdEvent::Start(MdTag::Item)).out == pango_run(events).out
            + spaces(
            2 * (if open_lists(events) > 0 {
                (open_lists(events) - 1) as nat
            } else {
                0
            }),
        ) + BULLET@,
{
    lemma_list_depth(events);
    let n = open_lists(events);
    lemma_list_indent_spaces(
        (if n > 0 {
            (n - 1) as nat
        } else {
            0
        }),
    );
}

/// Renders the Markdown text `markdown` as Pango markup: well-formed
/// markup with balanced, properly nested tags of the preview's names only.
pub fn markdown_to_pango(markdown: &str) -> (r: String)
    ensures
        r@ == markdown_pango(markdown@),
        balanced_markup(r@),
        markup_tags(r@) is Some && preview_tags_only(markup_tags(r@)->0),
{
    let events = markdown_events(markdown);
    proof {
        lemma_pango_markup_well_formed(events@);
    }
    render_pango(&events)
}

} // verus!

verus! {

/// The bar that opens a block quote.
pub const QUOTE_MARK: &'static str = "▎ ";
/// The bullet of a list item.
pub const BULLET: &'static str = "• ";
/// The markup that opens an image reference.
pub const IMAGE_OPEN: &'static str = "<span foreground=\"#3584e4\" underline=\"single\">🖼 image: ";
/// The markup that opens a code block.
pub const CODE_BLOCK_OPEN: &'static str = "\n<tt><span background=\"#1e1e1e\" foreground=\"#dcdcdc\">";
/// The markup that opens an inline code span.
pub const CODE_SPAN_OPEN: &'static str = "<tt><span background=\"#282828\" foreground=\"#33d17a\"> ";
/// A checked task marker.
pub const TASK_DONE: &'static str = "<span foreground=\"#33d17a\" weight=\"bold\">[☑] </span>";
/// An unchecked task marker.
pub const TASK_OPEN: &'static str = "<span foreground=\"#888888\" weight=\"bold\">[☐] </span>";
/// A horizontal rule.
pub const RULE_LINE: &'static str = "<span alpha=\"50%\">────────────────────────────────────────────</span>\n\n";

} // verus!
