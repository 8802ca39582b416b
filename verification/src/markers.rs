//! The literal tokens of the patch engine.

use vstd::prelude::*;

verus! {

/// The sentinel that a user types where an edit is wanted.
pub const CURSOR_MARKER: &'static str = "??";

/// Opens the search fragment of a model response.
pub const STOKEN: &'static str = "<|SEARCH|>";

/// Parts the search fragment from the replace fragment.
pub const DTOKEN: &'static str = "<|DIVIDE|>";

/// Closes the replace fragment.
pub const RTOKEN: &'static str = "<|REPLACE|>";

/// Stands for the sentinel inside a context window and a search fragment.
pub const CTOKEN: &'static str = "<|cursor|>";

} // verus!
