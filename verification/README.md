# MyNote

A small note-taking application for the GNOME desktop (GTK4 and
Libadwaita), with a library whose behaviour is specified and proved with
Verus.

## Layout

- `src/` — the verified library, crate `mynote`:
  - `text.rs` — Unicode white space, trimming, line splitting, word counts,
    substring search, decimal numbers;
  - `markdown.rs` — the Markdown preview: `pulldown_cmark` events rendered as
    Pango markup, XML escaping;
  - `markup.rs` — the tag structure of markup text, and the proof that the
    preview's markup is well formed and balanced;
  - `models.rs` — notes: display titles, excerpts, search, counts, filters;
  - `storage.rs` — where the store lives (paths as bytes), starter notes,
    export and import text, backup file names;
  - `tags.rs` — the tags field (text and parsing) and the sidebar's tag list;
  - `workspace.rs` — the window's state (notes, open note, filter, search,
    view mode) and every operation of the window on it;
  - `cli.rs` — the command line.
- `tests/` — tests of the library.
- `app/` — the GTK application around the library: windows and dialogs,
  files on disk, JSON, the clock and the local time zone.
