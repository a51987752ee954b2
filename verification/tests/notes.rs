use mynote::models::{FilterMode, Note, Timestamp};

#[test]
fn test_note_creation() {
    let note = Note::with_title_and_content("Meeting Notes", "Discuss Q3 goals with team.");
    assert_eq!(note.display_title(), "Meeting Notes");
    assert_eq!(note.word_count(), 5);
    assert_eq!(note.char_count(), 27);
    assert_eq!(note.line_count(), 1);
    assert!(!note.is_pinned);
    assert!(!note.is_trashed);
}

#[test]
fn test_untitled_fallback() {
    let note = Note::with_title_and_content("", "# First Line Heading\nSecond line body");
    assert_eq!(note.display_title(), "First Line Heading");
    assert_eq!(note.excerpt(), "Second line body");
}

#[test]
fn test_empty_note_fallback() {
    let note = Note::new();
    assert_eq!(note.display_title(), "Untitled Note");
    assert_eq!(note.excerpt(), "No additional text");
}

#[test]
fn test_filter_matches() {
    let mut note = Note::with_title_and_content("Rust Guide", "Rust is memory-safe.");
    note.tags.push("programming".to_string());
    note.is_pinned = true;

    assert!(FilterMode::All.matches(&note));
    assert!(FilterMode::Favorites.matches(&note));
    assert!(!FilterMode::Trash.matches(&note));
    assert!(FilterMode::Tag("programming".to_string()).matches(&note));
    assert!(!FilterMode::Tag("music".to_string()).matches(&note));

    note.is_trashed = true;
    assert!(!FilterMode::All.matches(&note));
    assert!(!FilterMode::Favorites.matches(&note));
    assert!(FilterMode::Trash.matches(&note));
}

#[test]
fn test_query_matching() {
    let mut note = Note::with_title_and_content("Shopping List", "Buy milk, eggs, bread");
    note.tags.push("groceries".to_string());

    assert!(note.matches_query("shopping"));
    assert!(note.matches_query("MILK"));
    assert!(note.matches_query("groceries"));
    assert!(!note.matches_query("laptop"));
}

#[test]
fn new_note_has_uuid_shape_and_equal_times() {
    let note = Note::new();
    assert_eq!(note.id.len(), 36);
    for (i, c) in note.id.chars().enumerate() {
        if i == 8 || i == 13 || i == 18 || i == 23 {
            assert_eq!(c, '-');
        } else {
            assert!(c.is_ascii_hexdigit() && !c.is_ascii_uppercase());
        }
    }
    let id: Vec<char> = note.id.chars().collect();
    assert_eq!(id[14], '4');
    assert!(matches!(id[19], '8' | '9' | 'a' | 'b'));
    assert!(note.created_at.nanos < 1_000_000_000);
    assert_eq!(note.created_at, note.updated_at);
    assert!(note.tags.is_empty());
    let other = Note::new();
    assert_ne!(note.id, other.id);
}

#[test]
fn display_title_trims_the_title() {
    let note = Note::with_title_and_content("   Spaced Title \t", "body");
    assert_eq!(note.display_title(), "Spaced Title");
}

#[test]
fn display_title_skips_blank_lines_and_cuts_long_headings() {
    let long = "x".repeat(45);
    let note = Note::with_title_and_content("  ", &format!("\n   \n## {}\nrest", long));
    let expected = format!("{}…", "x".repeat(40));
    assert_eq!(note.display_title(), expected);
    assert_eq!(note.display_title().chars().count(), 41);
}

#[test]
fn display_title_of_only_hashes_is_untitled() {
    let note = Note::with_title_and_content("", "###\nsecond");
    assert_eq!(note.display_title(), "Untitled Note");
}

#[test]
fn excerpt_of_titled_note_is_first_content_line_cleaned() {
    let note = Note::with_title_and_content("Title", "\n> - quoted item\nmore");
    assert_eq!(note.excerpt(), "- quoted item");
    let note = Note::with_title_and_content("Title", "  # Heading line  \nmore");
    assert_eq!(note.excerpt(), "Heading line");
}

#[test]
fn excerpt_cuts_at_sixty_characters() {
    let long = "y".repeat(70);
    let note = Note::with_title_and_content("T", &long);
    assert_eq!(note.excerpt(), format!("{}…", "y".repeat(60)));
}

#[test]
fn excerpt_of_untitled_note_with_one_line_is_placeholder() {
    let note = Note::with_title_and_content("", "only line");
    assert_eq!(note.excerpt(), "No additional text");
}

#[test]
fn counts_follow_std() {
    let texts = [
        "",
        "one",
        "  two   words\n",
        "a\r\nb\n\nc",
        "tab\tseparated\u{3000}ideographic",
        "trailing\n",
        "\n\n",
    ];
    for t in texts {
        let note = Note::with_title_and_content("", t);
        assert_eq!(note.word_count(), t.split_whitespace().count(), "{:?}", t);
        assert_eq!(note.char_count(), t.chars().count(), "{:?}", t);
        let lines = if t.is_empty() { 0 } else { t.lines().count() };
        assert_eq!(note.line_count(), lines, "{:?}", t);
    }
}

#[test]
fn reading_time_rounds_down_with_a_minimum_of_one() {
    let note = Note::with_title_and_content("", "");
    assert_eq!(note.reading_time_mins(), 0);
    let note = Note::with_title_and_content("", "just a few words");
    assert_eq!(note.reading_time_mins(), 1);
    let text = vec!["w"; 450].join(" ");
    let note = Note::with_title_and_content("", &text);
    assert_eq!(note.reading_time_mins(), 2);
}

#[test]
fn empty_query_matches_everything() {
    let note = Note::with_title_and_content("", "");
    assert!(note.matches_query(""));
    assert!(note.matches_query("   "));
}

#[test]
fn query_is_trimmed_and_matches_tags_case_insensitively() {
    let mut note = Note::with_title_and_content("Plain", "text");
    note.tags.push("Recipes".to_string());
    assert!(note.matches_query("  recip  "));
    assert!(note.matches_query("ÉCOLE") == false);
    let note = Note::with_title_and_content("École", "");
    assert!(note.matches_query("ÉCOLE"));
}

#[test]
fn tag_filter_ignores_ascii_case_only() {
    let mut note = Note::with_title_and_content("t", "c");
    note.tags.push("Work".to_string());
    assert!(FilterMode::Tag("work".to_string()).matches(&note));
    assert!(FilterMode::Tag("WORK".to_string()).matches(&note));
    assert!(!FilterMode::Tag("wor".to_string()).matches(&note));
    let mut note = Note::with_title_and_content("t", "c");
    note.tags.push("Ärger".to_string());
    assert!(!FilterMode::Tag("ärger".to_string()).matches(&note));
}

#[test]
fn touch_moves_only_the_update_time() {
    let mut note = Note::with_title_and_content("a", "b");
    note.updated_at = Timestamp { secs: 0, nanos: 0 };
    let before = note.clone();
    note.touch();
    assert_eq!(note.id, before.id);
    assert_eq!(note.title, before.title);
    assert_eq!(note.created_at, before.created_at);
    assert!(before.updated_at.is_before(&note.updated_at));
}

#[test]
fn timestamps_order_by_seconds_then_nanoseconds() {
    let a = Timestamp { secs: 5, nanos: 10 };
    let b = Timestamp { secs: 5, nanos: 11 };
    let c = Timestamp { secs: 6, nanos: 0 };
    assert!(a.is_before(&b));
    assert!(b.is_before(&c));
    assert!(!b.is_before(&a));
    assert!(!a.is_before(&a));
}
