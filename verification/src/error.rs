//! Why a patch cycle fails.

use crate::diff::{Edit, TextEdit};
use crate::markers::{CTOKEN, DTOKEN, RTOKEN, STOKEN};
use vstd::prelude::*;

verus! {

/// A token of the response grammar.
#[derive(Debug, Clone, Copy, PartialEq, Eq)]
pub enum Marker {
    Search,
    Divide,
    Replace,
    Cursor,
}

impl Marker {
    /// The literal text of the token.
    pub open spec fn text(self) -> Seq<char> {
        match self {
            Marker::Search => STOKEN@,
            Marker::Divide => DTOKEN@,
            Marker::Replace => RTOKEN@,
            Marker::Cursor => CTOKEN@,
        }
    }

    /// The literal text of the token.
    pub fn token(&self) -> (token: &'static str)
        ensures
            token@ == self.text(),
    {
        match self {
            Marker::Search => STOKEN,
            Marker::Divide => DTOKEN,
            Marker::Replace => RTOKEN,
            Marker::Cursor => CTOKEN,
        }
    }
}

/// A failed request. The buffer is left as it was.
#[derive(Debug, Clone, PartialEq, Eq)]
pub enum PatchError {
    /// The response lacks this token where the grammar wants it.
    MissingMarker(Marker),
    /// This edit does not lie within the buffer it is applied to.
    EditOutOfBounds(TextEdit),
}

/// The mathematical value of a [`PatchError`].
pub enum Failure {
    MissingMarker(Marker),
    EditOutOfBounds(Edit),
}

impl View for PatchError {
    type V = Failure;

    open spec fn view(&self) -> Failure {
        match self {
            PatchError::MissingMarker(marker) => Failure::MissingMarker(*marker),
            PatchError::EditOutOfBounds(edit) => Failure::EditOutOfBounds(edit@),
        }
    }
}

/// The mathematical value of a text or a failure.
pub open spec fn outcome(result: Result<String, PatchError>) -> Result<Seq<char>, Failure> {
    match result {
        Ok(text) => Ok(text@),
        Err(error) => Err(error@),
    }
}

} // verus!
