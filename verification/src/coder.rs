//! One request for an edit: what is asked of the model, and what is made of
//! its answer.

use crate::apply::{apply_text_edits, patched, shift_edits, shifted};
use crate::diff::{char_changes, compute_text_edits, edits_of, views, TextEdit};
use crate::error::{outcome, Failure, PatchError};
use crate::llm::{LlmClient, Message, Role};
use crate::patch::{lemma_parsed_bounds, parse_patch, parsed, AnchorMode, Patch, Proposal};
use crate::text::{
    first_occurrence, free_of, lemma_remove_all_free, occurs_at, remove_all, replace_first,
};
use crate::window::{build_context, context_window, window_start};
use vstd::prelude::*;

pub use crate::markers::CURSOR_MARKER;
use crate::markers::CTOKEN;

verus! {

/// Lines on either side of the cursor line in the window that anchors a
/// patch.
pub const NARROW_CONTEXT: usize = 3;

/// Lines on either side of the cursor line in the window that shows the
/// model the surrounding code.
pub const WIDE_CONTEXT: usize = 1000;

/// Opens the message that carries the wide window.
pub const WIDE_HEADING: &'static str = "big context:\n";

/// Opens the message that carries the narrow window.
pub const NARROW_HEADING: &'static str = "small context:\n";

/// Turns a buffer with a sentinel and a model's answer into the edited buffer.
pub struct Coder {
    pub llm: LlmClient,
    pub anchor: AnchorMode,
}

/// What applying a patch to a buffer gives: the edits between its two
/// fragments, moved to where the patch starts, applied to the buffer.
pub open spec fn patch_applied(original: Seq<char>, proposal: Proposal) -> Result<
    Seq<char>,
    Failure,
> {
    patched(
        original,
        shifted(edits_of(char_changes(proposal.search, proposal.replace)), proposal.start),
    )
}

/// What a response makes of a buffer: the patch that it spells, applied; or
/// the token that it lacks.
pub open spec fn completed(
    original: Seq<char>,
    response: Seq<char>,
    cursor: int,
    mode: AnchorMode,
) -> Result<Seq<char>, Failure> {
    match parsed(response, cursor, mode) {
        Ok(proposal) => patch_applied(original, proposal),
        Err(marker) => Err(Failure::MissingMarker(marker)),
    }
}

impl Coder {
    /// A coder that refuses a response whose search fragment lacks the
    /// cursor token.
    pub fn new(llm: LlmClient) -> (coder: Coder)
        ensures
            coder.llm == llm,
            coder.anchor == AnchorMode::Strict,
    {
        Coder { llm, anchor: AnchorMode::Strict }
    }

    /// The same coder with another way to treat a search fragment without
    /// cursor token.
    pub fn with_anchor(self, anchor: AnchorMode) -> (coder: Coder)
        ensures
            coder.llm == self.llm,
            coder.anchor == anchor,
    {
        Coder { llm: self.llm, anchor }
    }

    /// The window of `context_lines` lines on either side of the cursor
    /// line, the sentinel in it replaced by the cursor token, and the offset
    /// in `original` at which the window is taken to start.
    pub fn build_context(&self, original: &str, cursor: usize, context_lines: usize) -> (context: (
        String,
        usize,
    ))
        requires
            occurs_at(original@, CURSOR_MARKER@, cursor as int),
        ensures
            context.0@ == replace_first(
                context_window(original@, cursor as int, context_lines as int),
                CURSOR_MARKER@,
                CTOKEN@,
            ),
            first_occurrence(
                context_window(original@, cursor as int, context_lines as int),
                CURSOR_MARKER@,
                0,
            ) is Some,
            context.1 == cursor - first_occurrence(
                context_window(original@, cursor as int, context_lines as int),
                CURSOR_MARKER@,
                0,
            )->0,
            window_start(original@, cursor as int, context_lines as int) <= context.1 <= cursor,
            (forall|at: int|
                window_start(original@, cursor as int, context_lines as int) <= at < cursor
                    ==> !occurs_at(original@, CURSOR_MARKER@, at)) ==> context.1 == window_start(
                original@,
                cursor as int,
                context_lines as int,
            ),
    {
        build_context(original, cursor, context_lines)
    }

    /// Reads a response into a patch anchored at `cursor`.
    pub fn parse_patch(&self, patch: &str, cursor: usize) -> (result: Result<Patch, PatchError>)
        ensures
            match parsed(patch@, cursor as int, self.anchor) {
                Ok(proposal) => result is Ok && result->Ok_0@ == proposal,
                Err(marker) => result == Err::<Patch, PatchError>(
                    PatchError::MissingMarker(marker),
                ),
            },
    {
        parse_patch(patch, cursor, self.anchor)
    }

    /// Cuts the sentinel out of `original`, then applies the edits by
    /// descending start.
    pub fn apply_text_edits(&self, original: &str, edits: &Vec<TextEdit>) -> (result: Result<
        String,
        PatchError,
    >)
        ensures
            outcome(result) == patched(original@, views(edits@)),
    {
        apply_text_edits(original, edits)
    }

    /// The messages that ask the model for a patch at `cursor`: the system
    /// instruction, the wide window, the narrow window, and the reminder.
    pub fn build_messages(
        &self,
        original: &str,
        cursor: usize,
        system_prompt: &str,
        reminder: &str,
    ) -> (messages: Vec<Message>)
        requires
            occurs_at(original@, CURSOR_MARKER@, cursor as int),
        ensures
            messages@.len() == 4,
            messages@[0].role == Role::System,
            messages@[0].content@ == system_prompt@,
            messages@[1].role == Role::User,
            messages@[1].content@ == WIDE_HEADING@ + replace_first(
                context_window(original@, cursor as int, WIDE_CONTEXT as int),
                CURSOR_MARKER@,
                CTOKEN@,
            ),
            messages@[2].role == Role::User,
            messages@[2].content@ == NARROW_HEADING@ + replace_first(
                context_window(original@, cursor as int, NARROW_CONTEXT as int),
                CURSOR_MARKER@,
                CTOKEN@,
            ),
            messages@[3].role == Role::User,
            messages@[3].content@ == reminder@,
    {
        let narrow = build_context(original, cursor, NARROW_CONTEXT);
        let wide = build_context(original, cursor, WIDE_CONTEXT);
        let mut wide_content = WIDE_HEADING.to_owned();
        wide_content.append(wide.0.as_str());
        let mut narrow_content = NARROW_HEADING.to_owned();
        narrow_content.append(narrow.0.as_str());
        let mut messages: Vec<Message> = Vec::new();
        messages.push(Message { role: Role::System, content: system_prompt.to_owned() });
        messages.push(Message { role: Role::User, content: wide_content });
        messages.push(Message { role: Role::User, content: narrow_content });
        messages.push(Message { role: Role::User, content: reminder.to_owned() });
        messages
    }

    /// Applies a patch to a buffer: the edits between its two fragments are
    /// moved to where the patch starts and applied.
    ///
    /// Where the search fragment stands at the start of the patch in the
    /// buffer without its sentinels, the result is that buffer with the
    /// replace fragment in place of the search fragment. A patch whose two
    /// fragments are equal gives no edit, and the buffer comes back without
    /// its sentinels.
    pub fn apply_patch(&self, original: &str, patch: &Patch) -> (result: Result<
        String,
        PatchError,
    >)
        requires
            patch.start + patch.search@.len() <= usize::MAX,
        ensures
            outcome(result) == patch_applied(original@, patch@),
            occurs_at(remove_all(original@, CURSOR_MARKER@), patch.search@, patch.start as int)
                ==> outcome(result) == Ok::<Seq<char>, Failure>(
                remove_all(original@, CURSOR_MARKER@).take(patch.start as int) + patch.replace@
                    + remove_all(original@, CURSOR_MARKER@).skip(
                    patch.start + patch.search@.len(),
                ),
            ),
            free_of(original@, CURSOR_MARKER@) && occurs_at(
                original@,
                patch.search@,
                patch.start as int,
            ) ==> outcome(result) == Ok::<Seq<char>, Failure>(
                original@.take(patch.start as int) + patch.replace@ + original@.skip(
                    patch.start + patch.search@.len(),
                ),
            ),
            patch.search@ == patch.replace@ ==> outcome(result) == Ok::<Seq<char>, Failure>(
                remove_all(original@, CURSOR_MARKER@),
            ),
    {
        proof {
            if free_of(original@, CURSOR_MARKER@) {
                lemma_remove_all_free(original@, CURSOR_MARKER@, 0);
                assert(original@.skip(0) =~= original@);
            }
        }
        let edits = compute_text_edits(patch.search.as_str(), patch.replace.as_str());
        let moved_edits = shift_edits(&edits, patch.start);
        apply_text_edits(original, &moved_edits)
    }

    /// Makes of the model's answer the edited buffer: the response is read
    /// into a patch anchored at `cursor`, and the patch is applied.
    pub fn complete(&self, original: &str, response: &str, cursor: usize) -> (result: Result<
        String,
        PatchError,
    >)
        requires
            cursor + response@.len() <= usize::MAX,
        ensures
            outcome(result) == completed(original@, response@, cursor as int, self.anchor),
    {
        proof {
            lemma_parsed_bounds(response@, cursor as int, self.anchor);
        }
        match parse_patch(response, cursor, self.anchor) {
            Ok(patch) => self.apply_patch(original, &patch),
            Err(error) => Err(error),
        }
    }
}

} // verus!
