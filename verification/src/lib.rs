//! Verified core of a terminal browser for coding-agent session history.
use vstd::prelude::*;

pub mod checkpoints;
pub mod clipboard;
pub mod hits;
pub mod json;
pub mod keymap;
pub mod layout;
pub mod logging;
pub mod markdown;
pub mod metadata;
pub mod picker;
pub mod render;
pub mod screen;
pub mod search;
pub mod session;
pub mod state;
pub mod style;
pub mod tail;
pub mod jsonl;
pub mod text;
pub mod transcript;
pub mod yank;

verus! {

} // verus!
