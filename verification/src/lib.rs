//! Wiki links, note-path resolution, backlinks and Markdown link helpers for
//! a Markdown notes application.

pub mod text;
pub mod paths;
pub mod wiki_links;
pub mod note_links;
pub mod backlinks;
pub mod completions;
pub mod markdown_links;
pub mod notes;
pub mod daily_notes;
pub mod pdf;
pub mod recent_notes;
pub mod settings_documents;
pub mod notes_settings;
pub mod external_changes;
