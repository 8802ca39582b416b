//! Reading a model response into an anchored patch.
//!
//! A response is read as
//! `<|SEARCH|>` search `<|DIVIDE|>` replace `<|REPLACE|>`, with anything
//! before the first token and behind the last one left aside. The search
//! fragment marks the cursor with `<|cursor|>`.

use crate::error::{Marker, PatchError};
use crate::markers::{CTOKEN, DTOKEN, RTOKEN, STOKEN};
use crate::text::{
    chars_of, find_from, first_occurrence, lemma_first_occurrence, lemma_remove_all_shrinks,
    remove_all, remove_all_occurrences,
};
use vstd::prelude::*;

verus! {

/// A search fragment, what is to stand in its place, and the offset in the
/// buffer at which the search fragment is expected. Offsets count characters.
#[derive(Debug, Clone, PartialEq, Eq)]
pub struct Patch {
    pub start: usize,
    pub search: String,
    pub replace: String,
    /// Whether `start` was reckoned from a cursor token in the search
    /// fragment. Where it was not, `start` is the cursor itself, which is a
    /// guess.
    pub anchored: bool,
}

/// The mathematical value of a [`Patch`].
pub struct Proposal {
    pub start: int,
    pub search: Seq<char>,
    pub replace: Seq<char>,
    pub anchored: bool,
}

impl View for Patch {
    type V = Proposal;

    open spec fn view(&self) -> Proposal {
        Proposal {
            start: self.start as int,
            search: self.search@,
            replace: self.replace@,
            anchored: self.anchored,
        }
    }
}

/// What to make of a search fragment without a cursor token.
#[derive(Debug, Clone, Copy, PartialEq, Eq)]
pub enum AnchorMode {
    /// The response is refused.
    Strict,
    /// The search fragment is taken to start at the cursor.
    BestEffort,
}

/// What a response says, or the token that it lacks.
///
/// The tokens are looked for in order, each behind the one before. The
/// search fragment is what stands between the first two, the replace
/// fragment what stands between the last two; cursor tokens are cut out of
/// both. The search fragment starts as many characters before the cursor as
/// stand before its first cursor token, and not before the start of the
/// buffer.
pub open spec fn parsed(response: Seq<char>, cursor: int, mode: AnchorMode) -> Result<
    Proposal,
    Marker,
> {
    match first_occurrence(response, STOKEN@, 0) {
        None => Err(Marker::Search),
        Some(s) => match first_occurrence(response, DTOKEN@, s + STOKEN@.len()) {
            None => Err(Marker::Divide),
            Some(d) => match first_occurrence(response, RTOKEN@, d + DTOKEN@.len()) {
                None => Err(Marker::Replace),
                Some(r) => {
                    let search = response.subrange(s + STOKEN@.len(), d);
                    let replace = response.subrange(d + DTOKEN@.len(), r);
                    match first_occurrence(search, CTOKEN@, 0) {
                        Some(before) => Ok(
                            Proposal {
                                start: if cursor >= before {
                                    cursor - before
                                } else {
                                    0
                                },
                                search: remove_all(search, CTOKEN@),
                                replace: remove_all(replace, CTOKEN@),
                                anchored: true,
                            },
                        ),
                        None => match mode {
                            AnchorMode::Strict => Err(Marker::Cursor),
                            AnchorMode::BestEffort => Ok(
                                Proposal {
                                    start: cursor,
                                    search: search,
                                    replace: remove_all(replace, CTOKEN@),
                                    anchored: false,
                                },
                            ),
                        },
                    }
                },
            },
        },
    }
}

/// A patch never starts behind the cursor, and its search fragment is no
/// longer than the response.
pub proof fn lemma_parsed_bounds(response: Seq<char>, cursor: int, mode: AnchorMode)
    requires
        0 <= cursor,
    ensures
        match parsed(response, cursor, mode) {
            Ok(proposal) => 0 <= proposal.start <= cursor && proposal.search.len()
                <= response.len(),
            Err(_) => true,
        },
{
    match first_occurrence(response, STOKEN@, 0) {
        None => {},
        Some(s) => {
            lemma_first_occurrence(response, STOKEN@, 0);
            match first_occurrence(response, DTOKEN@, s + STOKEN@.len()) {
                None => {},
                Some(d) => {
                    lemma_first_occurrence(response, DTOKEN@, s + STOKEN@.len());
                    let search = response.subrange(s + STOKEN@.len(), d);
                    lemma_first_occurrence(search, CTOKEN@, 0);
                    lemma_remove_all_shrinks(search, CTOKEN@, 0);
                },
            }
        },
    }
}

/// Reads a response into a patch anchored at `cursor`.
pub fn parse_patch(response: &str, cursor: usize, mode: AnchorMode) -> (result: Result<
    Patch,
    PatchError,
>)
    ensures
        match parsed(response@, cursor as int, mode) {
            Ok(proposal) => result is Ok && result->Ok_0@ == proposal,
            Err(marker) => result == Err::<Patch, PatchError>(PatchError::MissingMarker(marker)),
        },
{
    let text = chars_of(response);
    let stoken = chars_of(STOKEN);
    let dtoken = chars_of(DTOKEN);
    let rtoken = chars_of(RTOKEN);
    let ctoken = chars_of(CTOKEN);
    let search_at = match find_from(&text, &stoken, 0) {
        Some(at) => at,
        None => {
            return Err(PatchError::MissingMarker(Marker::Search));
        },
    };
    let search_from = search_at + stoken.len();
    let divide_at = match find_from(&text, &dtoken, search_from) {
        Some(at) => at,
        None => {
            return Err(PatchError::MissingMarker(Marker::Divide));
        },
    };
    let replace_from = divide_at + dtoken.len();
    let replace_to = match find_from(&text, &rtoken, replace_from) {
        Some(at) => at,
        None => {
            return Err(PatchError::MissingMarker(Marker::Replace));
        },
    };
    let search = response.substring_char(search_from, divide_at);
    let replace = remove_all_occurrences(response.substring_char(replace_from, replace_to), CTOKEN);
    let cursor_at = find_from(&chars_of(search), &ctoken, 0);
    match cursor_at {
        Some(before) => {
            let patch = Patch {
                start: cursor.saturating_sub(before),
                search: remove_all_occurrences(search, CTOKEN),
                replace,
                anchored: true,
            };
            Ok(patch)
        },
        None => match mode {
            AnchorMode::Strict => Err(PatchError::MissingMarker(Marker::Cursor)),
            AnchorMode::BestEffort => Ok(
                Patch { start: cursor, search: search.to_owned(), replace, anchored: false },
            ),
        },
    }
}

} // verus!
