//! Notes library: the text rules, the Markdown renderer and the note
//! workspace state of a small note-taking application.

pub mod text;
pub mod cli;
pub mod markdown;
pub mod markup;
pub mod models;
pub mod storage;
pub mod tags;
pub mod workspace;
