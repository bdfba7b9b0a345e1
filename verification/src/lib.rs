//! Core logic of a command-line project switcher.
//!
//! The library gathers candidate project directories from a persisted list
//! (expanding depth-annotated entries), live multiplexer sessions and a
//! history file, deduplicates them, decides when a cached expansion may be
//! reused, ranks candidates by recency of use, and plans the activation of a
//! session for the chosen project.  All file reads, process spawns and
//! terminal interaction stay outside the library; every function here works
//! on plain values and carries a proved contract.

pub mod aggregate;
pub mod cache;
pub mod entry;
pub mod history;
pub mod list_edit;
pub mod picker;
pub mod project;
pub mod session;
