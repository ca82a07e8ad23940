//! What can go wrong when tracks are resolved and when a persisted index is
//! read.

use vstd::prelude::*;

verus! {

/// A failure, as a mathematical value.
pub enum Failure {
    TrackNotFound { id: Seq<char> },
    StaleIndexReference { id: Seq<char>, index: usize },
}

/// Why an operation on tracks failed.
#[derive(Debug, PartialEq, Eq)]
pub enum MatchError {
    /// The coordinate source has no track of this name.
    TrackNotFound { id: String },
    /// An index pair points past the end of the named track: the track has
    /// changed since the index was built.
    StaleIndexReference { id: String, index: usize },
}

impl View for MatchError {
    type V = Failure;

    open spec fn view(&self) -> Failure {
        match self {
            MatchError::TrackNotFound { id } => Failure::TrackNotFound { id: id@ },
            MatchError::StaleIndexReference { id, index } => Failure::StaleIndexReference {
                id: id@,
                index: *index,
            },
        }
    }
}

/// Why a text is not a persisted index.
#[derive(Debug, PartialEq, Eq, Structural)]
pub enum DecodeError {
    /// The text is not JSON of the shape of an index.
    Syntax,
    /// The text has the shape of an index, but what it holds breaks the
    /// invariant of the index.
    Inconsistent,
}

} // verus!
