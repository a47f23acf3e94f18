//! Restore a terminal selection copied out of the Codex TUI to the logical
//! source text it was rendered from.
//!
//! The TUI wraps text at the pane width, adds decorative gutters, and renders
//! Markdown markers as styling. A copied selection therefore cannot always be
//! repaired by inspecting it alone: English wraps may consume a space, while
//! scripts without inter-word spaces must not gain one. Instead of guessing,
//! termcopy locates the selection inside the session transcript and returns the
//! slice of the transcript that it stands for.

pub mod align;
pub mod automatic;
pub mod bytes;
pub mod clipboard;
pub mod codex;
pub mod herdr;
pub mod heuristic;
pub mod json;
pub mod laws;
pub mod lists;
pub mod normalize;
pub mod record;
pub mod restore;
pub mod search;
pub mod segment;
pub mod sessions;
pub mod text;
pub mod watcher;
