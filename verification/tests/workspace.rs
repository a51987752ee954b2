use mynote::models::{FilterMode, Note, Timestamp};
use mynote::storage::Settings;
use mynote::workspace::{export_default_name, stats_text, DeleteAction, ViewMode, Workspace};

fn note(id: &str, title: &str, secs: i64) -> Note {
    let mut n = Note::with_title_and_content(title, "");
    n.id = id.to_string();
    n.created_at = Timestamp { secs, nanos: 0 };
    n.updated_at = Timestamp { secs, nanos: 0 };
    n
}

fn sample() -> Vec<Note> {
    let mut a = note("a", "Alpha", 10);
    let mut b = note("b", "Beta", 30);
    let mut c = note("c", "Gamma", 20);
    let mut d = note("d", "Delta", 40);
    a.is_pinned = true;
    b.tags.push("work".to_string());
    c.tags.push("Work".to_string());
    c.tags.push("home".to_string());
    d.is_trashed = true;
    d.tags.push("old".to_string());
    vec![a, b, c, d]
}

fn ids(ws: &Workspace) -> Vec<String> {
    ws.visible_notes().iter().map(|n| n.id.clone()).collect()
}

#[test]
fn opens_on_the_remembered_note_in_the_remembered_mode() {
    let settings = Settings { last_note_id: Some("c".to_string()), view_mode: Some("split".to_string()) };
    let ws = Workspace::new(sample(), &settings);
    assert_eq!(ws.active_note_id.as_deref(), Some("c"));
    assert_eq!(ws.view_mode, ViewMode::Split);
    assert_eq!(ws.filter_mode, FilterMode::All);
    assert_eq!(ws.search_query, "");
    let saved = ws.settings();
    assert_eq!(saved, settings);
}

#[test]
fn a_trashed_or_missing_remembered_note_falls_back_to_the_first_live_one() {
    let settings = Settings { last_note_id: Some("d".to_string()), view_mode: Some("weird".to_string()) };
    let ws = Workspace::new(sample(), &settings);
    assert_eq!(ws.active_note_id.as_deref(), Some("a"));
    assert_eq!(ws.view_mode, ViewMode::Edit);
    let ws = Workspace::new(vec![], &Settings::default());
    assert_eq!(ws.active_note_id, None);
}

#[test]
fn list_order_is_pinned_first_then_newest() {
    let ws = Workspace::new(sample(), &Settings::default());
    assert_eq!(ids(&ws), vec!["a", "b", "c"]);
    assert_eq!(ws.visible_note_indices(), vec![0, 1, 2]);
}

#[test]
fn ties_keep_their_stored_order() {
    let notes = vec![note("x", "X", 5), note("y", "Y", 5), note("z", "Z", 6)];
    let ws = Workspace::new(notes, &Settings::default());
    assert_eq!(ids(&ws), vec!["z", "x", "y"]);
}

#[test]
fn filters_and_search_select_the_first_listed_note() {
    let mut ws = Workspace::new(sample(), &Settings::default());
    ws.set_filter(FilterMode::Trash);
    assert_eq!(ids(&ws), vec!["d"]);
    assert_eq!(ws.active_note_id.as_deref(), Some("d"));
    ws.set_filter(FilterMode::Favorites);
    assert_eq!(ids(&ws), vec!["a"]);
    ws.toggle_tag_filter("work".to_string());
    assert_eq!(ws.filter_mode, FilterMode::Tag("work".to_string()));
    assert_eq!(ids(&ws), vec!["b", "c"]);
    assert_eq!(ws.active_note_id.as_deref(), Some("b"));
    ws.toggle_tag_filter("work".to_string());
    assert_eq!(ws.filter_mode, FilterMode::All);
    ws.search_query = "gam".to_string();
    assert_eq!(ids(&ws), vec!["c"]);
    ws.search_query = "nomatch".to_string();
    ws.select_first_visible_note();
    assert_eq!(ws.active_note_id, None);
}

#[test]
fn new_note_goes_first_and_carries_the_shown_tag() {
    let mut ws = Workspace::new(sample(), &Settings::default());
    ws.set_filter(FilterMode::Tag("home".to_string()));
    ws.create_new_note();
    assert_eq!(ws.notes.len(), 5);
    assert_eq!(ws.notes[0].tags, vec!["home".to_string()]);
    assert_eq!(ws.active_note_id.as_deref(), Some(ws.notes[0].id.as_str()));
    assert_eq!(ws.notes[1].id, "a");
    ws.set_filter(FilterMode::All);
    ws.create_new_note();
    assert!(ws.notes[0].tags.is_empty());
}

#[test]
fn duplicate_copies_the_open_note() {
    let mut ws = Workspace::new(sample(), &Settings::default());
    let mut a = ws.notes[0].clone();
    a.content = "body".to_string();
    a.title = "  Alpha  ".to_string();
    ws.notes[0] = a;
    assert!(ws.duplicate_active_note());
    let copy = &ws.notes[0];
    assert_eq!(copy.title, "Alpha (copy)");
    assert_eq!(copy.content, "body");
    assert!(!copy.is_pinned);
    assert_ne!(copy.id, "a");
    assert_eq!(ws.active_note_id.as_deref(), Some(copy.id.as_str()));
    let mut empty = Workspace::new(vec![], &Settings::default());
    assert!(!empty.duplicate_active_note());
    assert!(empty.notes.is_empty());
}

#[test]
fn select_note_reports_a_change() {
    let mut ws = Workspace::new(sample(), &Settings::default());
    assert!(!ws.select_note("a".to_string()));
    assert!(ws.select_note("b".to_string()));
    assert_eq!(ws.active_note().unwrap().title, "Beta");
}

#[test]
fn trash_then_restore_brings_the_note_back() {
    let mut ws = Workspace::new(sample(), &Settings::default());
    ws.select_note("b".to_string());
    let before = ws.active_note().unwrap();
    let title = ws.move_active_note_to_trash();
    assert_eq!(title.as_deref(), Some("Beta"));
    assert!(ws.notes[1].is_trashed);
    assert_eq!(ws.active_note_id.as_deref(), Some("a"));
    ws.set_filter(FilterMode::Trash);
    ws.select_note("b".to_string());
    let title = ws.restore_active_note();
    assert_eq!(title.as_deref(), Some("Beta"));
    let after = ws.active_note().unwrap();
    assert!(!after.is_trashed);
    assert_eq!(after.title, before.title);
    assert_eq!(after.tags, before.tags);
    assert_eq!(after.created_at, before.created_at);
}

#[test]
fn trash_with_no_open_note_does_nothing() {
    let mut ws = Workspace::new(sample(), &Settings::default());
    ws.active_note_id = None;
    assert_eq!(ws.move_active_note_to_trash(), None);
    assert_eq!(ws.restore_active_note(), None);
    assert!(!ws.delete_active_note_permanently());
    assert_eq!(ws.notes.len(), 4);
    ws.active_note_id = Some("missing".to_string());
    assert_eq!(ws.move_active_note_to_trash().as_deref(), Some(""));
}

#[test]
fn delete_and_empty_trash() {
    let mut ws = Workspace::new(sample(), &Settings::default());
    ws.select_note("c".to_string());
    assert!(ws.delete_active_note_permanently());
    assert_eq!(ws.notes.iter().map(|n| n.id.as_str()).collect::<Vec<_>>(), vec!["a", "b", "d"]);
    assert_eq!(ws.active_note_id.as_deref(), Some("a"));
    assert_eq!(ws.note_counts(), (2, 1, 1));
    let removed = ws.empty_trash();
    assert_eq!(removed, 1);
    assert_eq!(ws.note_counts(), (2, 1, 0));
    assert!(ws.notes.iter().all(|n| !n.is_trashed));
}

#[test]
fn editing_the_open_note() {
    let mut ws = Workspace::new(sample(), &Settings::default());
    ws.on_title_changed("New title".to_string());
    ws.on_content_changed("# Body".to_string());
    ws.on_tags_changed("#rust, notes ,,  #x  #".to_string());
    ws.set_active_note_pinned(false);
    let a = ws.active_note().unwrap();
    assert_eq!(a.title, "New title");
    assert_eq!(a.content, "# Body");
    assert_eq!(a.tags, vec!["rust".to_string(), "notes".to_string(), "x".to_string()]);
    assert!(!a.is_pinned);
    assert_eq!(ws.notes[1].title, "Beta");
    assert!(Timestamp { secs: 10, nanos: 0 }.is_before(&a.updated_at));
}

#[test]
fn counts_and_tag_summary() {
    let ws = Workspace::new(sample(), &Settings::default());
    assert_eq!(ws.note_counts(), (3, 1, 1));
    let summary = ws.tag_summary();
    assert_eq!(
        summary,
        vec![("Work".to_string(), 1), ("home".to_string(), 1), ("work".to_string(), 1)]
    );
}

#[test]
fn imported_note_opens_first() {
    let mut ws = Workspace::new(sample(), &Settings::default());
    ws.open_imported_note(note("i", "Imported", 1));
    assert_eq!(ws.notes[0].id, "i");
    assert_eq!(ws.active_note_id.as_deref(), Some("i"));
}

#[test]
fn view_modes_cycle_and_save_by_name() {
    assert_eq!(ViewMode::Edit.next(), ViewMode::Preview);
    assert_eq!(ViewMode::Preview.next(), ViewMode::Split);
    assert_eq!(ViewMode::Split.next(), ViewMode::Edit);
    for m in [ViewMode::Edit, ViewMode::Preview, ViewMode::Split] {
        assert_eq!(ViewMode::from_setting(&Some(m.name())), m);
        assert_eq!(m.next().next().next(), m);
    }
    assert_eq!(ViewMode::from_setting(&None), ViewMode::Edit);
    let mut ws = Workspace::new(vec![], &Settings::default());
    ws.set_view_mode(ViewMode::Preview);
    assert_eq!(ws.settings().view_mode.as_deref(), Some("preview"));
}

#[test]
fn status_line_and_export_name() {
    let n = Note::with_title_and_content("My Note Title", "one two three");
    assert_eq!(stats_text(&n), "3 words | 13 characters | ~1 min read");
    assert_eq!(export_default_name(&n, true), "my_note_title.txt");
    assert_eq!(export_default_name(&n, false), "my_note_title.md");
    let n = Note::with_title_and_content("", "");
    assert_eq!(stats_text(&n), "0 words | 0 characters | ~0 min read");
    assert_eq!(export_default_name(&n, false), "untitled_note.md");
}

#[test]
fn delete_shortcut_depends_on_the_view() {
    let mut ws = Workspace::new(sample(), &Settings::default());
    assert_eq!(ws.delete_shortcut_action(), DeleteAction::MoveToTrash);
    ws.set_filter(FilterMode::Trash);
    assert_eq!(ws.delete_shortcut_action(), DeleteAction::ConfirmDeletePermanently);
    ws.set_filter(FilterMode::Tag("work".to_string()));
    assert_eq!(ws.delete_shortcut_action(), DeleteAction::MoveToTrash);
}
