use mynote::models::{Note, Timestamp};
use mynote::storage::{data_dir_from, join_path, Settings, Storage};

#[test]
fn test_export_and_import() {
    let note = Note::with_title_and_content("Test Note", "This is content with **markdown**.");
    let exported = Storage::export_text(&note);

    let imp_note = Storage::imported_note(Some("test_note"), &exported);
    assert_eq!(imp_note.title, "Test Note");
    assert!(imp_note.content.contains("This is content with **markdown**."));
    assert!(imp_note.tags.contains(&"imported".to_string()));
}

#[test]
fn export_text_has_heading_tags_and_content() {
    let mut note = Note::with_title_and_content("  Trip  ", "Pack bags.");
    note.tags.push("travel".to_string());
    note.tags.push("todo".to_string());
    assert_eq!(Storage::export_text(&note), "# Trip\n\nTags: #travel #todo\n\nPack bags.");
    let note = Note::with_title_and_content("   ", "only content");
    assert_eq!(Storage::export_text(&note), "only content");
}

#[test]
fn import_without_heading_uses_the_file_stem() {
    let note = Storage::imported_note(Some("groceries"), "milk\neggs");
    assert_eq!(note.title, "groceries");
    assert_eq!(note.content, "milk\neggs");
    assert_eq!(note.tags, vec!["imported".to_string()]);
    assert!(!note.is_pinned && !note.is_trashed);
    let note = Storage::imported_note(None, "no heading");
    assert_eq!(note.title, "Imported Note");
}

#[test]
fn import_with_heading_strips_marks_and_leading_blank_lines() {
    let note = Storage::imported_note(Some("stem"), "# # Double  \n\n\n  body\r\nline two\n");
    assert_eq!(note.title, "Double");
    assert_eq!(note.content, "body\nline two");
    let note = Storage::imported_note(Some("stem"), "#NoSpace\nbody");
    assert_eq!(note.title, "stem");
}

#[test]
fn export_then_import_round_trip_without_tags() {
    let note = Note::with_title_and_content("Title here", "  Line one\nLine two");
    let back = Storage::imported_note(None, &Storage::export_text(&note));
    assert_eq!(back.title, "Title here");
    assert_eq!(back.content, "Line one\nLine two");
}

#[test]
fn data_dir_and_files() {
    assert_eq!(data_dir_from(Some(&b"/home/u/.local/share"[..])), b"/home/u/.local/share/mynote".to_vec());
    assert_eq!(data_dir_from(Some(&b"/data/"[..])), b"/data/mynote".to_vec());
    assert_eq!(data_dir_from(Some(&b"/caf\xe9"[..])), b"/caf\xe9/mynote".to_vec());
    assert_eq!(data_dir_from(None), b".mynote".to_vec());
    assert_eq!(join_path(b"/a", b"b.json"), b"/a/b.json".to_vec());
    assert_eq!(join_path(b"", b"b.json"), b"b.json".to_vec());
    assert_eq!(join_path(b"/a", b"/abs"), b"/abs".to_vec());
    let notes = String::from_utf8(Storage::get_notes_file()).unwrap();
    assert!(notes.ends_with("mynote/notes.json") || notes == ".mynote/notes.json");
    let settings = String::from_utf8(Storage::get_settings_file()).unwrap();
    assert!(settings.ends_with("/settings.json"));
    assert!(Storage::get_data_dir().ends_with(b"mynote"));
    assert_eq!(Storage::data_dir_for(Some(&b"/tmp/stress"[..])), b"/tmp/stress".to_vec());
    assert_eq!(Storage::data_dir_for(None), Storage::get_data_dir());
    assert_eq!(Storage::notes_file_in(b"/tmp/stress"), b"/tmp/stress/notes.json".to_vec());
    assert_eq!(Storage::settings_file_in(b"/tmp/stress/"), b"/tmp/stress/settings.json".to_vec());
    assert_ne!(Storage::notes_file_in(b"d"), Storage::settings_file_in(b"d"));
}

#[test]
fn export_file_name_is_safe_and_carries_the_id() {
    let mut note = Note::with_title_and_content("  Plan: A/B test? ", "x");
    note.id = "12345678-aaaa-bbbb-cccc-dddddddddddd".to_string();
    assert_eq!(Storage::export_file_name(&note), "Plan__A_B_test__12345678.md");
    let mut note = Note::with_title_and_content("", "");
    note.id = "abcdefgh-rest".to_string();
    assert_eq!(Storage::export_file_name(&note), "Untitled_Note_abcdefgh.md");
}

#[test]
fn backup_files_skip_the_trash() {
    let mut a = Note::with_title_and_content("Alpha", "one");
    let mut b = Note::with_title_and_content("Beta", "two");
    b.is_trashed = true;
    let c = Note::with_title_and_content("Gamma", "three");
    a.tags.push("x".to_string());
    let files = Storage::backup_files(&vec![a.clone(), b, c.clone()]);
    assert_eq!(files.len(), 2);
    assert_eq!(files[0].0, format!("Alpha_{}.md", &a.id[..8]));
    assert_eq!(files[0].1, "# Alpha\n\nTags: #x\n\none");
    assert_eq!(files[1].0, format!("Gamma_{}.md", &c.id[..8]));
    assert_eq!(files[1].1, "# Gamma\n\nthree");
}

#[test]
fn backup_file_name_has_the_time() {
    assert_eq!(Storage::backup_file_name(1700000000), "notes_backup_1700000000.json");
    assert_eq!(Storage::backup_file_name(0), "notes_backup_0.json");
    assert_eq!(Storage::backup_file_name(-42), "notes_backup_-42.json");
}

#[test]
fn starter_notes() {
    let notes = Storage::default_starter_notes();
    assert_eq!(notes.len(), 3);
    assert_eq!(notes[0].title, "Welcome to MyNote! 🚀");
    assert!(notes[0].is_pinned);
    assert_eq!(notes[0].tags, vec!["welcome".to_string(), "guide".to_string()]);
    assert!(notes[0].content.starts_with("# Welcome to MyNote"));
    assert_eq!(notes[1].title, "Keyboard Shortcuts ⌨️");
    assert_eq!(notes[2].tags, vec!["linux".to_string(), "ideas".to_string(), "todo".to_string()]);
    assert!(notes[2].content.ends_with("— Edsger W. Dijkstra"));
    for n in &notes {
        assert!(!n.is_trashed);
        assert_eq!(n.created_at, notes[0].created_at);
        assert_eq!(n.updated_at, notes[0].created_at);
        assert_eq!(n.id.len(), 36);
    }
    let _ = Timestamp { secs: 0, nanos: 0 };
}

#[test]
fn settings_default_is_empty() {
    let s = Settings::default();
    assert_eq!(s.last_note_id, None);
    assert_eq!(s.view_mode, None);
}
