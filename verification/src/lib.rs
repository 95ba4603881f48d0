//! Playrite: a writing desk for character-driven stories. The manuscript model and its
//! binary format, the HTML reader export, the text editor, and the session state machine
//! behind the terminal interface, each with its contract.
use vstd::prelude::*;

pub mod text;
pub mod story;
pub mod format;
pub mod export;
pub mod keys;
pub mod editor;
pub mod document;
pub mod app;
pub mod view;
pub mod cli;

verus! {
}
