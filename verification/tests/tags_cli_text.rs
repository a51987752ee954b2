use mynote::cli::{parse_cli_args, CliOptions};
use mynote::tags::{parse_tags, tags_field, text_less_than};
use mynote::text::{
    decimal_string, eq_ignore_ascii_case, is_whitespace, lines_of, parse_u32, trimmed, trimmed_end,
    trimmed_start, word_count_of, contains_str,
};

fn args(v: &[&str]) -> Vec<String> {
    v.iter().map(|s| s.to_string()).collect()
}

#[test]
fn tags_are_read_from_the_field() {
    assert_eq!(parse_tags("#a, #b"), vec!["a".to_string(), "b".to_string()]);
    assert_eq!(parse_tags(""), Vec::<String>::new());
    assert_eq!(parse_tags(" , ,"), Vec::<String>::new());
    assert_eq!(parse_tags("##deep\tx,y"), vec!["deep\tx".to_string(), "y".to_string()]);
    assert_eq!(parse_tags("#\tx"), vec!["\tx".to_string()]);
}

#[test]
fn tags_field_text_reads_back() {
    let tags = vec!["rust".to_string(), "notes".to_string(), "a#b".to_string()];
    let text = tags_field(&tags);
    assert_eq!(text, "#rust, #notes, #a#b");
    assert_eq!(parse_tags(&text), tags);
    assert_eq!(tags_field(&vec![]), "");
}

#[test]
fn tags_parse_like_std_split() {
    let inputs = ["#a, #b", "  x  ,y z", "#,##,###q", "a\u{3000}b,c", ""];
    for s in inputs {
        let expected: Vec<String> = s
            .split([',', ' '])
            .map(|t| t.trim().trim_start_matches('#').to_string())
            .filter(|t| !t.is_empty())
            .collect();
        assert_eq!(parse_tags(s), expected, "{:?}", s);
    }
}

#[test]
fn text_order_is_string_order() {
    let words = ["", "a", "ab", "b", "B", "é", "z", "aa", "Ωmega", "🚀"];
    for x in words {
        for y in words {
            assert_eq!(text_less_than(x, y), x < y, "{:?} {:?}", x, y);
        }
    }
}

#[test]
fn command_line_options() {
    assert_eq!(parse_cli_args(&args(&["mynote"])), CliOptions::default());
    let o = parse_cli_args(&args(&["mynote", "--new-note"]));
    assert!(o.start_new_note);
    assert_eq!(o.stress_rounds, 0);
    assert_eq!(parse_cli_args(&args(&["mynote", "--stress"])).stress_rounds, 60);
    assert_eq!(parse_cli_args(&args(&["mynote", "--stress", "2"])).stress_rounds, 4);
    assert_eq!(parse_cli_args(&args(&["mynote", "--stress", "25"])).stress_rounds, 25);
    assert_eq!(parse_cli_args(&args(&["mynote", "--stress", "+7"])).stress_rounds, 7);
    let o = parse_cli_args(&args(&["mynote", "--stress", "x", "--new-note"]));
    assert_eq!(o.stress_rounds, 60);
    assert!(o.start_new_note);
    let o = parse_cli_args(&args(&["mynote", "--stress", "--new-note"]));
    assert_eq!(o.stress_rounds, 60);
    assert!(o.start_new_note);
}

#[test]
fn parse_u32_follows_std() {
    let inputs = ["0", "42", "+5", "-1", "", "+", "4294967295", "4294967296", "12a", " 1", "007"];
    for s in inputs {
        assert_eq!(parse_u32(s), s.parse::<u32>().ok(), "{:?}", s);
    }
}

#[test]
fn whitespace_follows_std() {
    for cp in 0u32..0x3100 {
        if let Some(c) = char::from_u32(cp) {
            assert_eq!(is_whitespace(c), c.is_whitespace(), "{:?}", c);
        }
    }
}

#[test]
fn text_helpers_follow_std() {
    let inputs = ["", "  a b  ", "\t\nx\r\n", "a\r\nb\n\nc\n", "\u{a0}y\u{2003}", "one\rtwo"];
    for s in inputs {
        assert_eq!(trimmed(s), s.trim());
        assert_eq!(trimmed_end(s), s.trim_end());
        assert_eq!(trimmed_start(s), s.trim_start());
        let lines: Vec<String> = s.lines().map(|l| l.to_string()).collect();
        assert_eq!(lines_of(s), lines, "{:?}", s);
        assert_eq!(word_count_of(s), s.split_whitespace().count());
    }
    assert!(contains_str("hello world", "o w"));
    assert!(contains_str("abc", ""));
    assert!(!contains_str("abc", "abcd"));
    assert!(eq_ignore_ascii_case("HeLLo", "hello"));
    assert!(!eq_ignore_ascii_case("hello", "hell"));
    assert_eq!(decimal_string(0), "0");
    assert_eq!(decimal_string(1234567890123), "1234567890123");
    assert_eq!(decimal_string(u64::MAX), u64::MAX.to_string());
}
