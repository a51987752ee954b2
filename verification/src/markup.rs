//! The structure of Pango markup: the tags of a text, read as an XML-like
//! reader reads them, and whether they are balanced.

use vstd::prelude::*;
use crate::markdown::{
    escape_xml_seq, heading_open, is_markup_char, lemma_escape_xml_safe, list_indent, pango_markup,
    pango_run, pango_start, pango_step, MdEvent, MdTag, MdTagEnd, PangoState, BULLET,
    CODE_BLOCK_OPEN, CODE_SPAN_OPEN, IMAGE_OPEN, QUOTE_MARK, RULE_LINE, TASK_DONE, TASK_OPEN,
};
use crate::text::{is_white_space, trim_end};

verus! {

/// A tag of a markup text: its name, opening or closing.
pub enum MarkupTag {
    Open(Seq<char>),
    Close(Seq<char>),
}

/// Whether `c` is `<` or `>`.
pub open spec fn is_angle(c: char) -> bool {
    c == '<' || c == '>'
}

/// The name at the start of a tag's text: up to the first space.
pub open spec fn tag_name(x: Seq<char>) -> Seq<char>
    decreases x.len(),
{
    if x.len() == 0 || x[0] == ' ' {
        seq![]
    } else {
        seq![x[0]] + tag_name(x.drop_first())
    }
}

/// The tag whose text (between `<` and `>`) is `x`.
pub open spec fn tag_of(x: Seq<char>) -> MarkupTag {
    if x.len() > 0 && x[0] == '/' {
        MarkupTag::Close(tag_name(x.drop_first()))
    } else {
        MarkupTag::Open(tag_name(x))
    }
}

/// The first index at or after `i` that holds `<` or `>`, or the length.
pub open spec fn next_angle(s: Seq<char>, i: int) -> int
    decreases s.len() - i,
{
    if i >= s.len() {
        s.len() as int
    } else if is_angle(s[i]) {
        i
    } else {
        next_angle(s, i + 1)
    }
}

/// The tags of `s` from index `i` on, in order; `None` when the text is not
/// well formed there: a `>` outside a tag, or a `<` whose tag does not end
/// with a `>` before the next `<`.
pub open spec fn markup_tags_from(s: Seq<char>, i: int) -> Option<Seq<MarkupTag>>
    decreases s.len() - i,
{
    if i < 0 || i >= s.len() {
        Some(seq![])
    } else if s[i] == '>' {
        None
    } else if s[i] == '<' {
        let e = next_angle(s, i + 1);
        if e <= i || e >= s.len() || s[e] == '<' {
            None
        } else {
            match markup_tags_from(s, e + 1) {
                Some(t) => Some(seq![tag_of(s.subrange(i + 1, e))] + t),
                None => None,
            }
        }
    } else {
        markup_tags_from(s, i + 1)
    }
}

/// The tags of the markup text `s`, or `None` when it is not well formed.
pub open spec fn markup_tags(s: Seq<char>) -> Option<Seq<MarkupTag>> {
    markup_tags_from(s, 0)
}

/// The open elements after reading the tags `ts` with the elements `open`
/// already open: an opening tag opens an element, a closing tag closes the
/// innermost one, which must have its name; `None` when one does not.
pub open spec fn close_tags(ts: Seq<MarkupTag>, open: Seq<Seq<char>>) -> Option<Seq<Seq<char>>>
    decreases ts.len(),
{
    if ts.len() == 0 {
        Some(open)
    } else {
        match ts[0] {
            MarkupTag::Open(n) => close_tags(ts.drop_first(), open.push(n)),
            MarkupTag::Close(n) => if open.len() > 0 && open.last() == n {
                close_tags(ts.drop_first(), open.drop_last())
            } else {
                None
            },
        }
    }
}

/// Whether the markup text `s` is well formed and its tags are balanced and
/// properly nested.
pub open spec fn balanced_markup(s: Seq<char>) -> bool {
    match markup_tags(s) {
        Some(ts) => close_tags(ts, seq![]) == Some(Seq::<Seq<char>>::empty()),
        None => false,
    }
}

/// The next angle bracket is at or after `i`, within the text, and none
/// comes before it.
pub proof fn lemma_next_angle(s: Seq<char>, i: int)
    requires
        0 <= i,
    ensures
        i <= next_angle(s, i) <= s.len() || (i > s.len() && next_angle(s, i) == s.len()),
        next_angle(s, i) < s.len() ==> is_angle(s[next_angle(s, i)]),
        forall|k: int| i <= k < next_angle(s, i) ==> !is_angle(#[trigger] s[k]),
    decreases s.len() - i,
{
    if i < s.len() && !is_angle(s[i]) {
        lemma_next_angle(s, i + 1);
    }
}

/// The next angle is the first one.
proof fn lemma_next_angle_at(s: Seq<char>, i: int, m: int)
    requires
        0 <= i <= m <= s.len(),
        m < s.len() ==> is_angle(s[m]),
        forall|k: int| i <= k < m ==> !is_angle(#[trigger] s[k]),
    ensures
        next_angle(s, i) == m,
    decreases m - i,
{
    if i < m {
        lemma_next_angle_at(s, i + 1, m);
    }
}

/// Text put in front leaves what follows read as before.
proof fn lemma_markup_shift(a: Seq<char>, b: Seq<char>, j: int)
    requires
        0 <= j <= b.len(),
    ensures
        markup_tags_from(a + b, a.len() + j) == markup_tags_from(b, j),
    decreases b.len() - j,
{
    let s = a + b;
    let n = a.len() as int;
    if j < b.len() {
        assert(s[n + j] == b[j]);
        if b[j] == '<' {
            lemma_next_angle(b, j + 1);
            let e = next_angle(b, j + 1);
            assert forall|k: int| n + j + 1 <= k < n + e implies !is_angle(#[trigger] s[k]) by {
                assert(s[k] == b[k - n]);
            }
            if e < b.len() {
                assert(s[n + e] == b[e]);
            }
            lemma_next_angle_at(s, n + j + 1, n + e);
            assert(s.subrange(n + j + 1, n + e) =~= b.subrange(j + 1, e));
            if e < b.len() && b[e] == '>' {
                lemma_markup_shift(a, b, e + 1);
            }
        } else if b[j] != '>' {
            lemma_markup_shift(a, b, j + 1);
        }
    }
}

/// Text without angle brackets has no tags.
pub proof fn lemma_markup_plain(w: Seq<char>, i: int)
    requires
        0 <= i,
        forall|k: int| 0 <= k < w.len() ==> !is_angle(#[trigger] w[k]),
    ensures
        markup_tags_from(w, i) == Some(Seq::<MarkupTag>::empty()),
    decreases w.len() - i,
{
    if i < w.len() {
        assert(!is_angle(w[i]));
        lemma_markup_plain(w, i + 1);
    }
}

/// Reading well-formed text `a` and then `b`: the tags of `a`, then those
/// of `b`.
pub proof fn lemma_markup_concat(a: Seq<char>, b: Seq<char>, i: int)
    requires
        0 <= i <= a.len(),
        markup_tags_from(a, i) is Some,
    ensures
        markup_tags_from(a + b, i) == match markup_tags(b) {
            Some(u) => Some(markup_tags_from(a, i)->0 + u),
            None => None::<Seq<MarkupTag>>,
        },
    decreases a.len() - i,
{
    let s = a + b;
    if i == a.len() {
        lemma_markup_shift(a, b, 0);
        if markup_tags(b) is Some {
            assert(markup_tags_from(a, i)->0 + markup_tags(b)->0 =~= markup_tags(b)->0);
        }
    } else {
        assert(s[i] == a[i]);
        if a[i] == '<' {
            lemma_next_angle(a, i + 1);
            let e = next_angle(a, i + 1);
            assert(e < a.len() && a[e] == '>');
            assert forall|k: int| i + 1 <= k < e implies !is_angle(#[trigger] s[k]) by {
                assert(s[k] == a[k]);
            }
            assert(s[e] == a[e]);
            lemma_next_angle_at(s, i + 1, e);
            assert(s.subrange(i + 1, e) =~= a.subrange(i + 1, e));
            lemma_markup_concat(a, b, e + 1);
            if markup_tags(b) is Some {
                let t = markup_tags_from(a, e + 1)->0;
                let u = markup_tags(b)->0;
                assert(seq![tag_of(a.subrange(i + 1, e))] + t + u =~= seq![tag_of(
                    a.subrange(i + 1, e),
                )] + (t + u));
            }
        } else {
            lemma_markup_concat(a, b, i + 1);
        }
    }
}

/// Text without angle brackets put after a text changes nothing of how it
/// reads.
pub proof fn lemma_markup_plain_suffix(a: Seq<char>, w: Seq<char>, i: int)
    requires
        0 <= i <= a.len(),
        forall|k: int| 0 <= k < w.len() ==> !is_angle(#[trigger] w[k]),
    ensures
        markup_tags_from(a + w, i) == markup_tags_from(a, i),
    decreases a.len() - i,
{
    let s = a + w;
    if i == a.len() {
        lemma_markup_shift(a, w, 0);
        lemma_markup_plain(w, 0);
    } else {
        assert(s[i] == a[i]);
        if a[i] == '<' {
            lemma_next_angle(a, i + 1);
            let e = next_angle(a, i + 1);
            assert forall|k: int| i + 1 <= k < e implies !is_angle(#[trigger] s[k]) by {
                assert(s[k] == a[k]);
            }
            if e < a.len() {
                assert(s[e] == a[e]);
                lemma_next_angle_at(s, i + 1, e);
                assert(s.subrange(i + 1, e) =~= a.subrange(i + 1, e));
                if a[e] == '>' {
                    lemma_markup_plain_suffix(a, w, e + 1);
                }
            } else {
                assert forall|k: int| i + 1 <= k < s.len() implies !is_angle(#[trigger] s[k]) by {
                    if k >= a.len() {
                        assert(s[k] == w[k - a.len()]);
                    }
                }
                lemma_next_angle_at(s, i + 1, s.len() as int);
            }
        } else {
            lemma_markup_plain_suffix(a, w, i + 1);
        }
    }
}

/// Reading the tags of two texts in turn.
pub proof fn lemma_close_tags_concat(x: Seq<MarkupTag>, y: Seq<MarkupTag>, open: Seq<Seq<char>>)
    ensures
        close_tags(x + y, open) == match close_tags(x, open) {
            Some(o) => close_tags(y, o),
            None => None::<Seq<Seq<char>>>,
        },
    decreases x.len(),
{
    if x.len() == 0 {
        assert(x + y =~= y);
    } else {
        assert((x + y)[0] == x[0]);
        assert((x + y).drop_first() =~= x.drop_first() + y);
        match x[0] {
            MarkupTag::Open(n) => {
                lemma_close_tags_concat(x.drop_first(), y, open.push(n));
            },
            MarkupTag::Close(n) => {
                if open.len() > 0 && open.last() == n {
                    lemma_close_tags_concat(x.drop_first(), y, open.drop_last());
                }
            },
        }
    }
}

/// The name of a tag whose text starts with `m` characters other than a
/// space, followed by a space or nothing.
pub proof fn lemma_tag_name_prefix(x: Seq<char>, m: int)
    requires
        0 <= m <= x.len(),
        forall|k: int| 0 <= k < m ==> #[trigger] x[k] != ' ',
        m == x.len() || x[m] == ' ',
    ensures
        tag_name(x) == x.take(m),
    decreases m,
{
    if m > 0 {
        let t = x.drop_first();
        assert forall|k: int| 0 <= k < m - 1 implies #[trigger] t[k] != ' ' by {
            assert(t[k] == x[k + 1]);
        }
        if m < x.len() {
            assert(t[m - 1] == x[m]);
        }
        lemma_tag_name_prefix(t, m - 1);
        assert(x.take(m) =~= seq![x[0]] + t.take(m - 1));
    } else {
        assert(x.take(0) =~= Seq::<char>::empty());
    }
}

/// A text made of one tag: `<x>` with no angle bracket in `x`.
pub proof fn lemma_one_tag(l: Seq<char>)
    requires
        l.len() >= 2,
        l[0] == '<',
        l[l.len() - 1] == '>',
        forall|k: int| 1 <= k < l.len() - 1 ==> !is_angle(#[trigger] l[k]),
    ensures
        markup_tags(l) == Some(seq![tag_of(l.subrange(1, l.len() - 1))]),
{
    lemma_next_angle_at(l, 1, l.len() - 1);
    assert(markup_tags_from(l, l.len() as int) == Some(Seq::<MarkupTag>::empty()));
    assert(seq![tag_of(l.subrange(1, l.len() - 1))] + Seq::<MarkupTag>::empty() =~= seq![tag_of(
        l.subrange(1, l.len() - 1),
    )]);
}

/// The tags of two texts one after the other, when both are well formed.
pub proof fn lemma_markup_join(a: Seq<char>, b: Seq<char>)
    requires
        markup_tags(a) is Some,
        markup_tags(b) is Some,
    ensures
        markup_tags(a + b) == Some(markup_tags(a)->0 + markup_tags(b)->0),
{
    lemma_markup_concat(a, b, 0);
}


/// A text made of one opening tag `<n ...>`.
pub proof fn lemma_open_lit(l: Seq<char>, n: Seq<char>)
    requires
        l.len() >= 2,
        l[0] == '<',
        l[l.len() - 1] == '>',
        forall|k: int| 1 <= k < l.len() - 1 ==> !is_angle(#[trigger] l[k]),
        l[1] != '/',
        1 + n.len() <= l.len() - 1,
        l.subrange(1, 1 + n.len() as int) == n,
        forall|k: int| 0 <= k < n.len() ==> #[trigger] n[k] != ' ',
        1 + n.len() == l.len() - 1 || l[1 + n.len() as int] == ' ',
    ensures
        markup_tags(l) == Some(seq![MarkupTag::Open(n)]),
{
    lemma_one_tag(l);
    let x = l.subrange(1, l.len() - 1);
    assert forall|k: int| 0 <= k < n.len() implies #[trigger] x[k] != ' ' by {
        assert(x[k] == n[k]);
    }
    lemma_tag_name_prefix(x, n.len() as int);
    assert(x.take(n.len() as int) =~= n);
}

/// A text made of one closing tag `</n>`.
pub proof fn lemma_close_lit(l: Seq<char>, n: Seq<char>)
    requires
        l.len() == n.len() + 3,
        l[0] == '<',
        l[1] == '/',
        l[l.len() - 1] == '>',
        l.subrange(2, 2 + n.len() as int) == n,
        forall|k: int| 0 <= k < n.len() ==> #[trigger] n[k] != ' ' && !is_angle(n[k]),
    ensures
        markup_tags(l) == Some(seq![MarkupTag::Close(n)]),
{
    assert forall|k: int| 1 <= k < l.len() - 1 implies !is_angle(#[trigger] l[k]) by {
        if k >= 2 {
            assert(l[k] == n[k - 2]);
        }
    }
    lemma_one_tag(l);
    let x = l.subrange(1, l.len() - 1);
    let y = x.drop_first();
    assert(y =~= n);
    lemma_tag_name_prefix(y, n.len() as int);
    assert(y.take(n.len() as int) =~= n);
}

/// A text without angle brackets has no tags.
pub proof fn lemma_plain_lit(w: Seq<char>)
    requires
        forall|k: int| 0 <= k < w.len() ==> !is_angle(#[trigger] w[k]),
    ensures
        markup_tags(w) == Some(Seq::<MarkupTag>::empty()),
{
    lemma_markup_plain(w, 0);
}



// ---------------------------------------------------------------------------
// The tags the Markdown preview writes

/// The tag name `span`.
pub open spec fn name_span() -> Seq<char> {
    seq!['s', 'p', 'a', 'n']
}

/// The tag name `tt`.
pub open spec fn name_tt() -> Seq<char> {
    seq!['t', 't']
}

/// The tag name `a`.
pub open spec fn name_a() -> Seq<char> {
    seq!['a']
}

/// The tag name `u`.
pub open spec fn name_u() -> Seq<char> {
    seq!['u']
}

/// The tag name `i`.
pub open spec fn name_i() -> Seq<char> {
    seq!['i']
}

/// The tag name `b`.
pub open spec fn name_b() -> Seq<char> {
    seq!['b']
}

/// The tag name `s`.
pub open spec fn name_s() -> Seq<char> {
    seq!['s']
}

/// Whether `n` is one of the tag names the preview uses: `span`, `tt`,
/// `a`, `u`, `i`, `b`, `s`.
pub open spec fn is_preview_tag_name(n: Seq<char>) -> bool {
    n == name_span() || n == name_tt() || n == name_a() || n == name_u() || n == name_i() || n
        == name_b() || n == name_s()
}

/// The name of a tag.
pub open spec fn name_of(t: MarkupTag) -> Seq<char> {
    match t {
        MarkupTag::Open(n) => n,
        MarkupTag::Close(n) => n,
    }
}

/// Whether every tag of `ts` has one of the preview's names.
pub open spec fn preview_tags_only(ts: Seq<MarkupTag>) -> bool {
    forall|k: int| 0 <= k < ts.len() ==> is_preview_tag_name(name_of(#[trigger] ts[k]))
}

/// The elements an event opens or closes, as tags: a heading or a quote is
/// a `span`, emphasis `i`, strong `b`, strikethrough `s`, a link `a` with a
/// `u` inside, an image `a`, a table `tt`; the other events open and close
/// nothing that stays open.
pub open spec fn event_tags(e: MdEvent) -> Seq<MarkupTag> {
    match e {
        MdEvent::Start(tag) => match tag {
            MdTag::Heading(_) => seq![MarkupTag::Open(name_span())],
            MdTag::BlockQuote => seq![MarkupTag::Open(name_span())],
            MdTag::Emphasis => seq![MarkupTag::Open(name_i())],
            MdTag::Strong => seq![MarkupTag::Open(name_b())],
            MdTag::Strikethrough => seq![MarkupTag::Open(name_s())],
            MdTag::Link(_) => seq![MarkupTag::Open(name_a()), MarkupTag::Open(name_u())],
            MdTag::Image(_) => seq![MarkupTag::Open(name_a())],
            MdTag::Table => seq![MarkupTag::Open(name_tt())],
            _ => seq![],
        },
        MdEvent::End(tag) => match tag {
            MdTagEnd::Heading => seq![MarkupTag::Close(name_span())],
            MdTagEnd::BlockQuote => seq![MarkupTag::Close(name_span())],
            MdTagEnd::Emphasis => seq![MarkupTag::Close(name_i())],
            MdTagEnd::Strong => seq![MarkupTag::Close(name_b())],
            MdTagEnd::Strikethrough => seq![MarkupTag::Close(name_s())],
            MdTagEnd::Link => seq![MarkupTag::Close(name_u()), MarkupTag::Close(name_a())],
            MdTagEnd::Image => seq![MarkupTag::Close(name_a())],
            MdTagEnd::Table => seq![MarkupTag::Close(name_tt())],
            _ => seq![],
        },
        _ => seq![],
    }
}

/// The elements `events` open and close, in order.
pub open spec fn events_tags(events: Seq<MdEvent>) -> Seq<MarkupTag>
    decreases events.len(),
{
    if events.len() == 0 {
        seq![]
    } else {
        events_tags(events.drop_last()) + event_tags(events.last())
    }
}

/// Whether the elements of `events` are balanced: every element that opens
/// is closed, innermost first (as a Markdown parse's events are).
pub open spec fn balanced_events(events: Seq<MdEvent>) -> bool {
    close_tags(events_tags(events), seq![]) == Some(Seq::<Seq<char>>::empty())
}

/// What the renderer writes for event `e` in state `st`.
pub open spec fn pango_piece(st: PangoState, e: MdEvent) -> Seq<char> {
    match e {
        MdEvent::Start(tag) => match tag {
            MdTag::Heading(level) => heading_open(level),
            MdTag::BlockQuote => "<span style=\"italic\" alpha=\"80%\">"@ + QUOTE_MARK@,
            MdTag::Item => list_indent(
                (if st.list_depth > 0 {
                    st.list_depth - 1
                } else {
                    0
                }) as nat,
            ) + BULLET@,
            MdTag::Emphasis => "<i>"@,
            MdTag::Strong => "<b>"@,
            MdTag::Strikethrough => "<s>"@,
            MdTag::Link(url) => "<a href=\""@ + escape_xml_seq(url@) + "\"><u>"@,
            MdTag::Image(url) => "<a href=\""@ + escape_xml_seq(url@) + "\">"@ + IMAGE_OPEN@
                + escape_xml_seq(url@) + "</span>"@,
            MdTag::Table => "<tt>"@,
            MdTag::TableCell => " | "@,
            _ => seq![],
        },
        MdEvent::End(tag) => match tag {
            MdTagEnd::Paragraph => "\n\n"@,
            MdTagEnd::Heading => "</span>\n\n"@,
            MdTagEnd::BlockQuote => "</span>\n\n"@,
            MdTagEnd::CodeBlock => CODE_BLOCK_OPEN@ + escape_xml_seq(st.code_buf) + "</span></tt>\n\n"@,
            MdTagEnd::List => "\n"@,
            MdTagEnd::Item => "\n"@,
            MdTagEnd::Emphasis => "</i>"@,
            MdTagEnd::Strong => "</b>"@,
            MdTagEnd::Strikethrough => "</s>"@,
            MdTagEnd::Link => "</u></a>"@,
            MdTagEnd::Image => "</a>"@,
            MdTagEnd::Table => "</tt>\n\n"@,
            MdTagEnd::TableRow => " |\n"@,
            MdTagEnd::Other => seq![],
        },
        MdEvent::Text(t) => if st.in_code_block {
            seq![]
        } else {
            escape_xml_seq(t@)
        },
        MdEvent::Code(c) => CODE_SPAN_OPEN@ + escape_xml_seq(c@) + " </span></tt>"@,
        MdEvent::TaskListMarker(checked) => if checked {
            TASK_DONE@
        } else {
            TASK_OPEN@
        },
        MdEvent::SoftBreak => "\n"@,
        MdEvent::HardBreak => "\n\n"@,
        MdEvent::Rule => RULE_LINE@,
        MdEvent::Other => seq![],
    }
}

/// The renderer writes its piece after what it wrote before.
pub proof fn lemma_piece_appended(st: PangoState, e: MdEvent)
    ensures
        pango_step(st, e).out == st.out + pango_piece(st, e),
{
    assert(pango_step(st, e).out =~= st.out + pango_piece(st, e));
}

/// The tags of what the renderer writes for an event.
pub open spec fn piece_tags(e: MdEvent) -> Seq<MarkupTag> {
    let self_contained = seq![
        MarkupTag::Open(name_tt()),
        MarkupTag::Open(name_span()),
        MarkupTag::Close(name_span()),
        MarkupTag::Close(name_tt()),
    ];
    match e {
        MdEvent::Start(MdTag::Image(_)) => seq![
            MarkupTag::Open(name_a()),
            MarkupTag::Open(name_span()),
            MarkupTag::Close(name_span()),
        ],
        MdEvent::End(MdTagEnd::CodeBlock) => self_contained,
        MdEvent::Code(_) => self_contained,
        MdEvent::TaskListMarker(_) => seq![MarkupTag::Open(name_span()), MarkupTag::Close(name_span())],
        MdEvent::Rule => seq![MarkupTag::Open(name_span()), MarkupTag::Close(name_span())],
        _ => event_tags(e),
    }
}

/// Whether two tag sequences open and close the same elements.
pub open spec fn same_effect(x: Seq<MarkupTag>, y: Seq<MarkupTag>) -> bool {
    forall|open: Seq<Seq<char>>| #[trigger] close_tags(x, open) == close_tags(y, open)
}


/// Escaped text has no angle brackets.
pub proof fn lemma_escaped_plain(x: Seq<char>)
    ensures
        markup_tags(escape_xml_seq(x)) == Some(Seq::<MarkupTag>::empty()),
        forall|k: int| 0 <= k < escape_xml_seq(x).len() ==> !is_angle(#[trigger] escape_xml_seq(x)[k]),
{
    lemma_escape_xml_safe(x);
    let e = escape_xml_seq(x);
    assert forall|k: int| 0 <= k < e.len() implies !is_angle(#[trigger] e[k]) by {
        assert(!is_markup_char(e[k]));
    }
    lemma_plain_lit(e);
}

/// List indents are spaces.
proof fn lemma_list_indent_plain(n: nat)
    ensures
        forall|k: int| 0 <= k < list_indent(n).len() ==> !is_angle(#[trigger] list_indent(n)[k]),
    decreases n,
{
    reveal_strlit("  ");
    if n > 0 {
        lemma_list_indent_plain((n - 1) as nat);
        let p = list_indent((n - 1) as nat);
        assert forall|k: int| 0 <= k < list_indent(n).len() implies !is_angle(#[trigger] list_indent(n)[k]) by {
            if k < p.len() {
                assert(list_indent(n)[k] == p[k]);
            }
        }
    }
}

/// `<a href="url">` with escaped `url` is one opening `a` tag.
proof fn lemma_href_tag(url: Seq<char>)
    ensures
        markup_tags("<a href=\""@ + escape_xml_seq(url) + "\">"@) == Some(seq![MarkupTag::Open(name_a())]),
{
    reveal_strlit("<a href=\"");
    reveal_strlit("\">");
    lemma_escaped_plain(url);
    let e = escape_xml_seq(url);
    let l = "<a href=\""@ + e + "\">"@;
    assert forall|k: int| 1 <= k < l.len() - 1 implies !is_angle(#[trigger] l[k]) by {
        if 9 <= k < 9 + e.len() {
            assert(l[k] == e[k - 9]);
        }
    }
    assert(l.subrange(1, 2) =~= name_a());
    lemma_open_lit(l, name_a());
}

/// The markup opening a heading is one opening `span` tag.
proof fn lemma_heading_open_tags(level: u8)
    ensures
        markup_tags(heading_open(level)) == Some(seq![MarkupTag::Open(name_span())]),
{
    reveal_strlit("<span size=\"xx-large\" weight=\"bold\" color=\"#3584e4\">");
    reveal_strlit("<span size=\"x-large\" weight=\"bold\" color=\"#1c71d8\">");
    reveal_strlit("<span size=\"large\" weight=\"bold\" color=\"#62a0ea\">");
    reveal_strlit("<span size=\"medium\" weight=\"bold\">");
    reveal_strlit("<span size=\"small\" weight=\"bold\">");
    reveal_strlit("<span size=\"x-small\" weight=\"bold\">");
    let l = heading_open(level);
    assert(l.subrange(1, 5) =~= name_span());
    lemma_open_lit(l, name_span());
}

/// `<x>` for a one- or two-letter tag name `x`.
proof fn lemma_short_tags()
    ensures
        markup_tags("<i>"@) == Some(seq![MarkupTag::Open(name_i())]),
        markup_tags("<b>"@) == Some(seq![MarkupTag::Open(name_b())]),
        markup_tags("<s>"@) == Some(seq![MarkupTag::Open(name_s())]),
        markup_tags("<u>"@) == Some(seq![MarkupTag::Open(name_u())]),
        markup_tags("<tt>"@) == Some(seq![MarkupTag::Open(name_tt())]),
        markup_tags("</i>"@) == Some(seq![MarkupTag::Close(name_i())]),
        markup_tags("</b>"@) == Some(seq![MarkupTag::Close(name_b())]),
        markup_tags("</s>"@) == Some(seq![MarkupTag::Close(name_s())]),
        markup_tags("</u>"@) == Some(seq![MarkupTag::Close(name_u())]),
        markup_tags("</a>"@) == Some(seq![MarkupTag::Close(name_a())]),
        markup_tags("</tt>"@) == Some(seq![MarkupTag::Close(name_tt())]),
        markup_tags("</span>"@) == Some(seq![MarkupTag::Close(name_span())]),
{
    reveal_strlit("<i>");
    reveal_strlit("<b>");
    reveal_strlit("<s>");
    reveal_strlit("<u>");
    reveal_strlit("<tt>");
    reveal_strlit("</i>");
    reveal_strlit("</b>");
    reveal_strlit("</s>");
    reveal_strlit("</u>");
    reveal_strlit("</a>");
    reveal_strlit("</tt>");
    reveal_strlit("</span>");
    assert("<i>"@.subrange(1, 2) =~= name_i());
    lemma_open_lit("<i>"@, name_i());
    assert("<b>"@.subrange(1, 2) =~= name_b());
    lemma_open_lit("<b>"@, name_b());
    assert("<s>"@.subrange(1, 2) =~= name_s());
    lemma_open_lit("<s>"@, name_s());
    assert("<u>"@.subrange(1, 2) =~= name_u());
    lemma_open_lit("<u>"@, name_u());
    assert("<tt>"@.subrange(1, 3) =~= name_tt());
    lemma_open_lit("<tt>"@, name_tt());
    assert("</i>"@.subrange(2, 3) =~= name_i());
    lemma_close_lit("</i>"@, name_i());
    assert("</b>"@.subrange(2, 3) =~= name_b());
    lemma_close_lit("</b>"@, name_b());
    assert("</s>"@.subrange(2, 3) =~= name_s());
    lemma_close_lit("</s>"@, name_s());
    assert("</u>"@.subrange(2, 3) =~= name_u());
    lemma_close_lit("</u>"@, name_u());
    assert("</a>"@.subrange(2, 3) =~= name_a());
    lemma_close_lit("</a>"@, name_a());
    assert("</tt>"@.subrange(2, 4) =~= name_tt());
    lemma_close_lit("</tt>"@, name_tt());
    assert("</span>"@.subrange(2, 6) =~= name_span());
    lemma_close_lit("</span>"@, name_span());
}


/// The tags of the fixed pieces of markup the preview writes.
proof fn lemma_fixed_pieces()
    ensures
        markup_tags(IMAGE_OPEN@) == Some(seq![MarkupTag::Open(name_span())]),
        markup_tags(CODE_BLOCK_OPEN@) == Some(
            seq![MarkupTag::Open(name_tt()), MarkupTag::Open(name_span())],
        ),
        markup_tags(CODE_SPAN_OPEN@) == Some(
            seq![MarkupTag::Open(name_tt()), MarkupTag::Open(name_span())],
        ),
        markup_tags(TASK_DONE@) == Some(
            seq![MarkupTag::Open(name_span()), MarkupTag::Close(name_span())],
        ),
        markup_tags(TASK_OPEN@) == Some(
            seq![MarkupTag::Open(name_span()), MarkupTag::Close(name_span())],
        ),
        markup_tags(RULE_LINE@) == Some(
            seq![MarkupTag::Open(name_span()), MarkupTag::Close(name_span())],
        ),
        markup_tags("<span style=\"italic\" alpha=\"80%\">"@ + QUOTE_MARK@) == Some(
            seq![MarkupTag::Open(name_span())],
        ),
        forall|k: int| 0 <= k < BULLET@.len() ==> !is_angle(#[trigger] BULLET@[k]),
{
    let o = seq![MarkupTag::Open(name_span())];
    let c = seq![MarkupTag::Close(name_span())];
    let tt = seq![MarkupTag::Open(name_tt())];
    let none = Seq::<MarkupTag>::empty();
    reveal_strlit("<span foreground=\"#3584e4\" underline=\"single\">🖼 image: ");
    let x = IMAGE_OPEN@;
    assert(x.subrange(0, 46).subrange(1, 5) =~= name_span());
    lemma_open_lit(x.subrange(0, 46), name_span());
    lemma_plain_lit(x.subrange(46, 55));
    lemma_markup_join(x.subrange(0, 46), x.subrange(46, 55));
    assert(x =~= x.subrange(0, 46) + x.subrange(46, 55));
    assert(o + none =~= o);

    reveal_strlit("\n<tt><span background=\"#1e1e1e\" foreground=\"#dcdcdc\">");
    let x = CODE_BLOCK_OPEN@;
    lemma_plain_lit(x.subrange(0, 1));
    assert(x.subrange(1, 5).subrange(1, 3) =~= name_tt());
    lemma_open_lit(x.subrange(1, 5), name_tt());
    assert(x.subrange(5, 53).subrange(1, 5) =~= name_span());
    lemma_open_lit(x.subrange(5, 53), name_span());
    lemma_markup_join(x.subrange(0, 1), x.subrange(1, 5));
    lemma_markup_join(x.subrange(0, 1) + x.subrange(1, 5), x.subrange(5, 53));
    assert(x =~= x.subrange(0, 1) + x.subrange(1, 5) + x.subrange(5, 53));
    assert(none + tt + o =~= tt + o);

    reveal_strlit("<tt><span background=\"#282828\" foreground=\"#33d17a\"> ");
    let x = CODE_SPAN_OPEN@;
    assert(x.subrange(0, 4).subrange(1, 3) =~= name_tt());
    lemma_open_lit(x.subrange(0, 4), name_tt());
    assert(x.subrange(4, 52).subrange(1, 5) =~= name_span());
    lemma_open_lit(x.subrange(4, 52), name_span());
    lemma_plain_lit(x.subrange(52, 53));
    lemma_markup_join(x.subrange(0, 4), x.subrange(4, 52));
    lemma_markup_join(x.subrange(0, 4) + x.subrange(4, 52), x.subrange(52, 53));
    assert(x =~= x.subrange(0, 4) + x.subrange(4, 52) + x.subrange(52, 53));
    assert(tt + o + none =~= tt + o);

    reveal_strlit("<span foreground=\"#33d17a\" weight=\"bold\">[☑] </span>");
    let x = TASK_DONE@;
    assert(x.subrange(0, 41).subrange(1, 5) =~= name_span());
    lemma_open_lit(x.subrange(0, 41), name_span());
    lemma_plain_lit(x.subrange(41, 45));
    assert(x.subrange(45, 52).subrange(2, 6) =~= name_span());
    lemma_close_lit(x.subrange(45, 52), name_span());
    lemma_markup_join(x.subrange(0, 41), x.subrange(41, 45));
    lemma_markup_join(x.subrange(0, 41) + x.subrange(41, 45), x.subrange(45, 52));
    assert(x =~= x.subrange(0, 41) + x.subrange(41, 45) + x.subrange(45, 52));
    assert(o + none + c =~= o + c);

    reveal_strlit("<span foreground=\"#888888\" weight=\"bold\">[☐] </span>");
    let x = TASK_OPEN@;
    assert(x.subrange(0, 41).subrange(1, 5) =~= name_span());
    lemma_open_lit(x.subrange(0, 41), name_span());
    lemma_plain_lit(x.subrange(41, 45));
    assert(x.subrange(45, 52).subrange(2, 6) =~= name_span());
    lemma_close_lit(x.subrange(45, 52), name_span());
    lemma_markup_join(x.subrange(0, 41), x.subrange(41, 45));
    lemma_markup_join(x.subrange(0, 41) + x.subrange(41, 45), x.subrange(45, 52));
    assert(x =~= x.subrange(0, 41) + x.subrange(41, 45) + x.subrange(45, 52));

    reveal_strlit("<span alpha=\"50%\">────────────────────────────────────────────</span>\n\n");
    let x = RULE_LINE@;
    assert(x.subrange(0, 18).subrange(1, 5) =~= name_span());
    lemma_open_lit(x.subrange(0, 18), name_span());
    lemma_plain_lit(x.subrange(18, 62));
    assert(x.subrange(62, 69).subrange(2, 6) =~= name_span());
    lemma_close_lit(x.subrange(62, 69), name_span());
    lemma_plain_lit(x.subrange(69, 71));
    lemma_markup_join(x.subrange(0, 18), x.subrange(18, 62));
    lemma_markup_join(x.subrange(0, 18) + x.subrange(18, 62), x.subrange(62, 69));
    lemma_markup_join(x.subrange(0, 18) + x.subrange(18, 62) + x.subrange(62, 69), x.subrange(69, 71));
    assert(x =~= x.subrange(0, 18) + x.subrange(18, 62) + x.subrange(62, 69) + x.subrange(69, 71));
    assert(o + none + c + none =~= o + c);

    reveal_strlit("<span style=\"italic\" alpha=\"80%\">");
    reveal_strlit("▎ ");
    let q = "<span style=\"italic\" alpha=\"80%\">"@;
    assert(q.subrange(1, 5) =~= name_span());
    lemma_open_lit(q, name_span());
    lemma_plain_lit(QUOTE_MARK@);
    lemma_markup_join(q, QUOTE_MARK@);

    reveal_strlit("• ");
}


/// Plain pieces of text the preview writes.
proof fn lemma_plain_pieces()
    ensures
        markup_tags("\n\n"@) == Some(Seq::<MarkupTag>::empty()),
        markup_tags("\n"@) == Some(Seq::<MarkupTag>::empty()),
        markup_tags(" | "@) == Some(Seq::<MarkupTag>::empty()),
        markup_tags(" |\n"@) == Some(Seq::<MarkupTag>::empty()),
        markup_tags(" "@) == Some(Seq::<MarkupTag>::empty()),
        "</span>\n\n"@ == "</span>"@ + "\n\n"@,
        "</tt>\n\n"@ == "</tt>"@ + "\n\n"@,
        "</u></a>"@ == "</u>"@ + "</a>"@,
        "\"><u>"@ == "\">"@ + "<u>"@,
        " </span></tt>"@ == " "@ + "</span>"@ + "</tt>"@,
        "</span></tt>\n\n"@ == "</span>"@ + "</tt>"@ + "\n\n"@,
{
    reveal_strlit("\n\n");
    reveal_strlit("\n");
    reveal_strlit(" | ");
    reveal_strlit(" |\n");
    reveal_strlit(" ");
    reveal_strlit("</span>\n\n");
    reveal_strlit("</span>");
    reveal_strlit("</tt>\n\n");
    reveal_strlit("</tt>");
    reveal_strlit("</u></a>");
    reveal_strlit("</u>");
    reveal_strlit("</a>");
    reveal_strlit("\"><u>");
    reveal_strlit("\">");
    reveal_strlit("<u>");
    reveal_strlit(" </span></tt>");
    reveal_strlit("</span></tt>\n\n");
    lemma_plain_lit("\n\n"@);
    lemma_plain_lit("\n"@);
    lemma_plain_lit(" | "@);
    lemma_plain_lit(" |\n"@);
    lemma_plain_lit(" "@);
    assert("</span>\n\n"@ =~= "</span>"@ + "\n\n"@);
    assert("</tt>\n\n"@ =~= "</tt>"@ + "\n\n"@);
    assert("</u></a>"@ =~= "</u>"@ + "</a>"@);
    assert("\"><u>"@ =~= "\">"@ + "<u>"@);
    assert(" </span></tt>"@ =~= " "@ + "</span>"@ + "</tt>"@);
    assert("</span></tt>\n\n"@ =~= "</span>"@ + "</tt>"@ + "\n\n"@);
}

/// What the renderer writes for an event is well formed, with the tags
/// `piece_tags` gives.
pub proof fn lemma_piece_tags(st: PangoState, e: MdEvent)
    ensures
        markup_tags(pango_piece(st, e)) == Some(piece_tags(e)),
{
    lemma_fixed_pieces();
    lemma_plain_pieces();
    lemma_short_tags();
    let none = Seq::<MarkupTag>::empty();
    let o_span = MarkupTag::Open(name_span());
    let c_span = MarkupTag::Close(name_span());
    let o_tt = MarkupTag::Open(name_tt());
    let c_tt = MarkupTag::Close(name_tt());
    match e {
        MdEvent::Start(tag) => match tag {
            MdTag::Heading(level) => {
                lemma_heading_open_tags(level);
            },
            MdTag::Item => {
                let n = (if st.list_depth > 0 {
                    st.list_depth - 1
                } else {
                    0
                }) as nat;
                lemma_list_indent_plain(n);
                let p = list_indent(n) + BULLET@;
                assert forall|k: int| 0 <= k < p.len() implies !is_angle(#[trigger] p[k]) by {
                    if k < list_indent(n).len() {
                        assert(p[k] == list_indent(n)[k]);
                    } else {
                        assert(p[k] == BULLET@[k - list_indent(n).len()]);
                    }
                }
                lemma_plain_lit(p);
            },
            MdTag::Link(url) => {
                lemma_href_tag(url@);
                let h = "<a href=\""@ + escape_xml_seq(url@) + "\">"@;
                lemma_markup_join(h, "<u>"@);
                assert(pango_piece(st, e) =~= h + "<u>"@);
            },
            MdTag::Image(url) => {
                lemma_href_tag(url@);
                lemma_escaped_plain(url@);
                let h = "<a href=\""@ + escape_xml_seq(url@) + "\">"@;
                lemma_markup_join(h, IMAGE_OPEN@);
                lemma_markup_join(h + IMAGE_OPEN@, escape_xml_seq(url@));
                lemma_markup_join(h + IMAGE_OPEN@ + escape_xml_seq(url@), "</span>"@);
                assert(seq![MarkupTag::Open(name_a())] + seq![o_span] + none + seq![c_span] =~= piece_tags(e));
            },
            MdTag::TableCell => {},
            _ => {
                if pango_piece(st, e).len() == 0 {
                    assert(markup_tags(pango_piece(st, e)) == Some(none));
                }
            },
        },
        MdEvent::End(tag) => match tag {
            MdTagEnd::Heading => {
                lemma_markup_join("</span>"@, "\n\n"@);
                assert(seq![c_span] + none =~= seq![c_span]);
            },
            MdTagEnd::BlockQuote => {
                lemma_markup_join("</span>"@, "\n\n"@);
                assert(seq![c_span] + none =~= seq![c_span]);
            },
            MdTagEnd::CodeBlock => {
                lemma_escaped_plain(st.code_buf);
                let b = escape_xml_seq(st.code_buf);
                lemma_markup_join(CODE_BLOCK_OPEN@, b);
                lemma_markup_join("</span>"@, "</tt>"@);
                lemma_markup_join("</span>"@ + "</tt>"@, "\n\n"@);
                lemma_markup_join(CODE_BLOCK_OPEN@ + b, "</span>"@ + "</tt>"@ + "\n\n"@);
                assert(pango_piece(st, e) =~= CODE_BLOCK_OPEN@ + b + ("</span>"@ + "</tt>"@ + "\n\n"@));
                assert(seq![o_tt, o_span] + none + (seq![c_span] + seq![c_tt] + none) =~= piece_tags(e));
            },
            MdTagEnd::Link => {
                lemma_markup_join("</u>"@, "</a>"@);
            },
            MdTagEnd::Table => {
                lemma_markup_join("</tt>"@, "\n\n"@);
                assert(seq![c_tt] + none =~= seq![c_tt]);
            },
            MdTagEnd::Other => {
                assert(markup_tags(Seq::<char>::empty()) == Some(none));
            },
            _ => {},
        },
        MdEvent::Text(t) => {
            lemma_escaped_plain(t@);
            if st.in_code_block {
                assert(markup_tags(Seq::<char>::empty()) == Some(none));
            }
        },
        MdEvent::Code(c) => {
            lemma_escaped_plain(c@);
            let b = escape_xml_seq(c@);
            lemma_markup_join(CODE_SPAN_OPEN@, b);
            lemma_markup_join(" "@, "</span>"@);
            lemma_markup_join(" "@ + "</span>"@, "</tt>"@);
            lemma_markup_join(CODE_SPAN_OPEN@ + b, " "@ + "</span>"@ + "</tt>"@);
            assert(pango_piece(st, e) =~= CODE_SPAN_OPEN@ + b + (" "@ + "</span>"@ + "</tt>"@));
            assert(seq![o_tt, o_span] + none + (none + seq![c_span] + seq![c_tt]) =~= piece_tags(e));
        },
        MdEvent::Other => {
            assert(markup_tags(Seq::<char>::empty()) == Some(none));
        },
        _ => {},
    }
}


/// An element opened and closed again leaves the open elements as they were.
proof fn lemma_open_close(n: Seq<char>, open: Seq<Seq<char>>)
    ensures
        close_tags(seq![MarkupTag::Open(n), MarkupTag::Close(n)], open) == Some(open),
{
    let x = seq![MarkupTag::Open(n), MarkupTag::Close(n)];
    let y = seq![MarkupTag::Close(n)];
    let z = Seq::<MarkupTag>::empty();
    assert(x.drop_first() =~= y);
    assert(y.drop_first() =~= z);
    assert(open.push(n).drop_last() =~= open);
    assert(close_tags(z, open) == Some(open));
    assert(close_tags(y, open.push(n)) == close_tags(z, open));
    assert(close_tags(x, open) == close_tags(y, open.push(n)));
}

/// What the renderer writes for an event opens and closes the elements the
/// event opens and closes, and uses only the preview's tag names.
pub proof fn lemma_piece_effect(e: MdEvent)
    ensures
        same_effect(piece_tags(e), event_tags(e)),
        preview_tags_only(piece_tags(e)),
        preview_tags_only(event_tags(e)),
{
    let o_span = MarkupTag::Open(name_span());
    let c_span = MarkupTag::Close(name_span());
    let o_tt = MarkupTag::Open(name_tt());
    let c_tt = MarkupTag::Close(name_tt());
    let o_a = MarkupTag::Open(name_a());
    match e {
        MdEvent::Start(MdTag::Image(_)) => {
            assert forall|open: Seq<Seq<char>>| #[trigger] close_tags(piece_tags(e), open) == close_tags(
                event_tags(e),
                open,
            ) by {
                assert(piece_tags(e) =~= seq![o_a] + seq![o_span, c_span]);
                lemma_close_tags_concat(seq![o_a], seq![o_span, c_span], open);
                lemma_open_close(name_span(), open.push(name_a()));
                assert(seq![o_a].drop_first() =~= Seq::<MarkupTag>::empty());
                assert(close_tags(Seq::<MarkupTag>::empty(), open.push(name_a())) == Some(open.push(name_a())));
                assert(close_tags(seq![o_a], open) == Some(open.push(name_a())));
                assert(event_tags(e) == seq![o_a]);
            }
        },
        MdEvent::End(MdTagEnd::CodeBlock) | MdEvent::Code(_) => {
            assert forall|open: Seq<Seq<char>>| #[trigger] close_tags(piece_tags(e), open) == close_tags(
                event_tags(e),
                open,
            ) by {
                assert(piece_tags(e) =~= seq![o_tt] + seq![o_span, c_span] + seq![c_tt]);
                lemma_close_tags_concat(seq![o_tt] + seq![o_span, c_span], seq![c_tt], open);
                lemma_close_tags_concat(seq![o_tt], seq![o_span, c_span], open);
                assert(seq![o_tt].drop_first() =~= Seq::<MarkupTag>::empty());
                lemma_open_close(name_span(), open.push(name_tt()));
                assert(seq![c_tt].drop_first() =~= Seq::<MarkupTag>::empty());
                assert(open.push(name_tt()).drop_last() =~= open);
                let z = Seq::<MarkupTag>::empty();
                assert(close_tags(z, open.push(name_tt())) == Some(open.push(name_tt())));
                assert(close_tags(seq![o_tt], open) == Some(open.push(name_tt())));
                assert(close_tags(z, open) == Some(open));
                assert(close_tags(seq![c_tt], open.push(name_tt())) == Some(open));
                assert(event_tags(e) == z);
            }
        },
        MdEvent::TaskListMarker(_) | MdEvent::Rule => {
            assert forall|open: Seq<Seq<char>>| #[trigger] close_tags(piece_tags(e), open) == close_tags(
                event_tags(e),
                open,
            ) by {
                lemma_open_close(name_span(), open);
            }
        },
        _ => {},
    }
}

/// What the renderer has written after `events` is well formed, uses only
/// the preview's tag names, and opens and closes the elements the events
/// open and close.
pub proof fn lemma_run_tags(events: Seq<MdEvent>)
    ensures
        markup_tags(pango_run(events).out) is Some,
        preview_tags_only(markup_tags(pango_run(events).out)->0),
        same_effect(markup_tags(pango_run(events).out)->0, events_tags(events)),
    decreases events.len(),
{
    if events.len() == 0 {
        assert(pango_run(events).out =~= Seq::<char>::empty());
        assert(markup_tags(Seq::<char>::empty()) == Some(Seq::<MarkupTag>::empty()));
    } else {
        let prev = events.drop_last();
        let e = events.last();
        lemma_run_tags(prev);
        let st = pango_run(prev);
        lemma_piece_appended(st, e);
        lemma_piece_tags(st, e);
        lemma_piece_effect(e);
        lemma_markup_join(st.out, pango_piece(st, e));
        let t0 = markup_tags(st.out)->0;
        let p = piece_tags(e);
        assert(markup_tags(pango_run(events).out) == Some(t0 + p));
        assert forall|k: int| 0 <= k < (t0 + p).len() implies is_preview_tag_name(
            name_of(#[trigger] (t0 + p)[k]),
        ) by {
            if k < t0.len() {
                assert((t0 + p)[k] == t0[k]);
            } else {
                assert((t0 + p)[k] == p[k - t0.len()]);
            }
        }
        assert forall|open: Seq<Seq<char>>| #[trigger] close_tags(t0 + p, open) == close_tags(
            events_tags(events),
            open,
        ) by {
            lemma_close_tags_concat(t0, p, open);
            lemma_close_tags_concat(events_tags(prev), event_tags(e), open);
            assert(close_tags(t0, open) == close_tags(events_tags(prev), open));
            match close_tags(t0, open) {
                Some(o) => {
                    assert(close_tags(p, o) == close_tags(event_tags(e), o));
                },
                None => {},
            }
        }
    }
}

/// Text without trailing white space has the tags of the text.
proof fn lemma_trim_end_tags(s: Seq<char>)
    ensures
        markup_tags(trim_end(s)) == markup_tags(s),
    decreases s.len(),
{
    if s.len() > 0 && is_white_space(s.last()) {
        lemma_trim_end_tags(s.drop_last());
        let a = s.drop_last();
        let w = seq![s.last()];
        assert(s =~= a + w);
        assert(!is_angle(s.last()));
        lemma_markup_plain_suffix(a, w, 0);
    }
}

/// The preview's markup is well formed: every `<` opens a tag that a `>`
/// closes before the next `<`, and no `>` stands outside a tag; its tags
/// are `span`, `tt`, `a`, `u`, `i`, `b` and `s` only; and when the events'
/// elements are balanced (as those of a Markdown parse are), its tags are
/// balanced and properly nested.
pub proof fn lemma_pango_markup_well_formed(events: Seq<MdEvent>)
    ensures
        markup_tags(pango_markup(events)) is Some,
        preview_tags_only(markup_tags(pango_markup(events))->0),
        balanced_events(events) ==> balanced_markup(pango_markup(events)),
{
    lemma_run_tags(events);
    lemma_trim_end_tags(pango_run(events).out);
    let ts = markup_tags(pango_run(events).out)->0;
    assert(close_tags(ts, seq![]) == close_tags(events_tags(events), seq![]));
}

} // verus!
