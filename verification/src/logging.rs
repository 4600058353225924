//! How log records are written.

use vstd::prelude::*;

verus! {

/// Log record format: human-readable lines or one JSON object per line.
#[derive(Debug, Clone, Copy, PartialEq, Eq, Structural)]
pub enum LogFormat {
    Text,
    Json,
}

} // verus!
