//! The ways in which building or asking a model can fail.

use vstd::prelude::*;

verus! {

/// A model could not be built from what was given.
#[derive(Debug, Clone, Copy, PartialEq, Eq, Structural)]
pub enum ConstructionError {
    /// The sequence length is 0 or 1.
    SequenceTooShort,
    /// A list of constraints has another length than the sequence.
    LengthMismatch,
}

/// The corpus holds a token that is not of the form `surface:hidden`.
#[derive(Debug, Clone, Copy, PartialEq, Eq, Structural)]
pub enum CorpusFormatError {
    /// The token has no `:`.
    MissingSeparator,
}

/// A probability was asked for that the model does not define.
#[derive(Debug, Clone, Copy, PartialEq, Eq, Structural)]
pub enum LookupError {
    /// A token of the sequence has no `:`.
    MalformedToken,
    /// The sequence has more tokens than the model has positions.
    PositionOutOfRange,
    /// The model has no row for the context.
    UnknownContext,
    /// The row of the context has no weight for the target.
    UnknownTarget,
}

/// A constraint specification could not be read.
#[derive(Debug, Clone, Copy, PartialEq, Eq, Structural)]
pub enum ParseError {
    /// A line without `*` has no `:`.
    MissingSeparator,
    /// The text after `*` is not a whole number.
    InvalidCount,
    /// `SW()` names no letter.
    MissingLetter,
}

} // verus!
