use mynote::markdown::{escape_xml, markdown_to_pango, render_pango, MdEvent, MdTag, MdTagEnd};

#[test]
fn test_markdown_formatting() {
    let md = "# Title\n\nThis is **bold** and *italic*.\n\n- [x] Done\n- [ ] Todo";
    let pango = markdown_to_pango(md);
    assert!(pango.contains("size=\"xx-large\""));
    assert!(pango.contains("<b>bold</b>"));
    assert!(pango.contains("<i>italic</i>"));
    assert!(pango.contains("[☑]"));
    assert!(pango.contains("[☐]"));
}

#[test]
fn escape_xml_replaces_the_five_special_characters() {
    assert_eq!(escape_xml("a & b < c > d \" e ' f"), "a &amp; b &lt; c &gt; d &quot; e &apos; f");
    assert_eq!(escape_xml(""), "");
    assert_eq!(escape_xml("plain text é"), "plain text é");
    let escaped = escape_xml("<script>'x'</script>");
    assert!(!escaped.contains('<') && !escaped.contains('>') && !escaped.contains('\''));
}

fn text(s: &str) -> MdEvent {
    MdEvent::Text(s.to_string())
}

#[test]
fn heading_paragraph_and_emphasis_render_exactly() {
    let events = vec![
        MdEvent::Start(MdTag::Heading(1)),
        text("Title"),
        MdEvent::End(MdTagEnd::Heading),
        MdEvent::Start(MdTag::Other),
        text("a "),
        MdEvent::Start(MdTag::Strong),
        text("b"),
        MdEvent::End(MdTagEnd::Strong),
        text(" & "),
        MdEvent::Start(MdTag::Emphasis),
        text("c"),
        MdEvent::End(MdTagEnd::Emphasis),
        MdEvent::End(MdTagEnd::Paragraph),
    ];
    assert_eq!(
        render_pango(&events),
        "<span size=\"xx-large\" weight=\"bold\" color=\"#3584e4\">Title</span>\n\na <b>b</b> &amp; <i>c</i>"
    );
}

#[test]
fn heading_levels_pick_their_sizes() {
    let sizes = ["xx-large", "x-large", "large", "medium", "small", "x-small"];
    for (i, size) in sizes.iter().enumerate() {
        let events = vec![MdEvent::Start(MdTag::Heading((i + 1) as u8)), text("h"), MdEvent::End(MdTagEnd::Heading)];
        let out = render_pango(&events);
        assert!(out.starts_with(&format!("<span size=\"{}\" weight=\"bold\"", size)), "{}", out);
        assert!(out.ends_with(">h</span>"));
    }
}

#[test]
fn nested_lists_indent_their_bullets() {
    let events = vec![
        MdEvent::Start(MdTag::List),
        MdEvent::Start(MdTag::Item),
        text("one"),
        MdEvent::Start(MdTag::List),
        MdEvent::Start(MdTag::Item),
        text("two"),
        MdEvent::End(MdTagEnd::Item),
        MdEvent::End(MdTagEnd::List),
        MdEvent::End(MdTagEnd::Item),
        MdEvent::End(MdTagEnd::List),
    ];
    assert_eq!(render_pango(&events), "• one  • two");
}

#[test]
fn code_blocks_collect_their_text_and_escape_it() {
    let events = vec![
        MdEvent::Start(MdTag::CodeBlock),
        text("fn main() {\n"),
        text("  a < b\n"),
        MdEvent::End(MdTagEnd::CodeBlock),
        MdEvent::Code("x&y".to_string()),
    ];
    assert_eq!(
        render_pango(&events),
        "\n<tt><span background=\"#1e1e1e\" foreground=\"#dcdcdc\">fn main() {\n  a &lt; b\n</span></tt>\n\n<tt><span background=\"#282828\" foreground=\"#33d17a\"> x&amp;y </span></tt>"
    );
}

#[test]
fn links_images_quotes_tasks_rules_and_tables() {
    let events = vec![
        MdEvent::Start(MdTag::Link("http://a?b=1&c=2".to_string())),
        text("link"),
        MdEvent::End(MdTagEnd::Link),
        MdEvent::SoftBreak,
        MdEvent::Start(MdTag::Image("pic.png".to_string())),
        text("alt"),
        MdEvent::End(MdTagEnd::Image),
        MdEvent::HardBreak,
        MdEvent::Start(MdTag::BlockQuote),
        text("q"),
        MdEvent::End(MdTagEnd::BlockQuote),
        MdEvent::TaskListMarker(true),
        MdEvent::TaskListMarker(false),
        MdEvent::Rule,
        MdEvent::Start(MdTag::Table),
        MdEvent::Start(MdTag::TableCell),
        text("c"),
        MdEvent::End(MdTagEnd::TableRow),
        MdEvent::End(MdTagEnd::Table),
    ];
    let out = render_pango(&events);
    let expected = [
        "<a href=\"http://a?b=1&amp;c=2\"><u>link</u></a>\n",
        "<a href=\"pic.png\"><span foreground=\"#3584e4\" underline=\"single\">🖼 image: pic.png</span>alt</a>\n\n",
        "<span style=\"italic\" alpha=\"80%\">▎ q</span>\n\n",
        "<span foreground=\"#33d17a\" weight=\"bold\">[☑] </span>",
        "<span foreground=\"#888888\" weight=\"bold\">[☐] </span>",
        "<span alpha=\"50%\">────────────────────────────────────────────</span>\n\n",
        "<tt> | c |\n</tt>",
    ]
    .concat();
    assert_eq!(out, expected);
}

#[test]
fn output_has_no_trailing_white_space() {
    assert_eq!(markdown_to_pango("Hello\n\n\n"), "Hello");
    assert_eq!(markdown_to_pango(""), "");
    assert!(!markdown_to_pango("- a\n- b\n").ends_with(char::is_whitespace));
}

#[test]
fn headings_strikethrough_and_code_spans() {
    assert_eq!(
        markdown_to_pango("# T\n\n~~x~~ `c`"),
        "<span size=\"xx-large\" weight=\"bold\" color=\"#3584e4\">T</span>\n\n<s>x</s> <tt><span background=\"#282828\" foreground=\"#33d17a\"> c </span></tt>"
    );
}

#[test]
fn markdown_text_is_escaped_in_the_preview() {
    let out = markdown_to_pango("a < b & 'c'");
    assert_eq!(out, "a &lt; b &amp; &apos;c&apos;");
}

#[test]
fn an_image_is_a_link_to_its_file() {
    let out = markdown_to_pango("![alt](p.png)");
    assert_eq!(
        out,
        "<a href=\"p.png\"><span foreground=\"#3584e4\" underline=\"single\">🖼 image: p.png</span>alt</a>"
    );
}
