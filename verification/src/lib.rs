//! A patch engine for cursor-anchored code edits.
//!
//! A user marks the place of an edit in a buffer with a sentinel. The
//! engine cuts a window of lines round the sentinel for a model to read
//! ([`window`]), reads the model's answer into a patch ([`patch`]), turns the
//! patch into a list of edits ([`diff`]) and applies the edits to the buffer
//! ([`apply`]). [`coder`] strings these together; [`state`] keeps what is
//! known of the files.
//!
//! Offsets count characters, not bytes; [`storage`] relates the two.

pub mod apply;
pub mod coder;
pub mod diff;
pub mod error;
pub mod llm;
pub mod markers;
pub mod order;
pub mod patch;
pub mod rewrite;
pub mod state;
pub mod storage;
pub mod text;
pub mod utils;
pub mod window;
