//! The error and result protocol: a closed taxonomy of failure kinds, the
//! carrier binding a kind to the offending input, the needs-more-data signal,
//! and the three-way outcome every combinator returns.

use crate::input::{in_model, ParseInput};
use crate::model::{NeededModel, OutcomeModel};
use vstd::prelude::*;

verus! {

/// Which matching rule failed. A kind carries no payload; context is attached
/// by [`ParseError`].
#[derive(Clone, Copy, PartialEq, Eq, Structural, Debug)]
pub enum ErrorKind {
    /// A literal did not match the input's prefix.
    Tag,
    /// `is_a` matched no element.
    IsA,
    /// `is_not` matched no element.
    IsNot,
    /// `take_while1` matched no element.
    TakeWhile1,
    /// `take_till1` stopped before consuming anything.
    TakeTill1,
    /// A bounded repetition could not reach its minimum count.
    TakeWhileMN,
    /// Fewer elements remained than a fixed-length consumption asked for.
    Eof,
    /// A delimiter never occurred in the input.
    TakeUntil,
}

/// How much more input is required before a verdict can be reached.
#[derive(Clone, Copy, PartialEq, Eq, Structural, Debug)]
pub enum Needed {
    /// Some positive amount, not known exactly.
    Unknown,
    /// Exactly this many more elements.
    Size(usize),
}

/// A parse failure: a failure kind bound to the input value at the point of
/// failure, so the caller can report position and context.
#[derive(Clone, Copy, PartialEq, Eq, Debug)]
pub struct ParseError<I> {
    /// The input the failing combinator was applied to.
    pub input: I,
    /// Which matching rule failed.
    pub kind: ErrorKind,
}

impl<I> ParseError<I> {
    /// The one factory through which every combinator builds a failure.
    pub fn from_error_kind(input: I, kind: ErrorKind) -> (r: ParseError<I>)
        ensures
            r.input == input,
            r.kind == kind,
    {
        ParseError { input, kind }
    }
}

/// Three-way outcome of applying a combinator. `Success` carries the
/// remainder first and the consumed prefix second; `Incomplete` is not a
/// failure but the signal that no verdict is possible with the data so far.
#[derive(Clone, Copy, PartialEq, Eq, Debug)]
pub enum ParseOutcome<I> {
    Success(I, I),
    Failure(ParseError<I>),
    Incomplete(Needed),
}

/// The model of a needs-more-data signal.
pub open spec fn needed_model(n: Needed) -> NeededModel {
    match n {
        Needed::Unknown => NeededModel::Unknown,
        Needed::Size(k) => NeededModel::Size(k as int),
    }
}

/// The mathematical content of an outcome.
pub open spec fn out_model<I: ParseInput>(r: &ParseOutcome<I>) -> OutcomeModel {
    match r {
        ParseOutcome::Success(rem, cons) => OutcomeModel::Success(in_model(rem), in_model(cons)),
        ParseOutcome::Failure(e) => OutcomeModel::Failure(in_model(&e.input), e.kind),
        ParseOutcome::Incomplete(n) => OutcomeModel::Incomplete(needed_model(*n)),
    }
}

} // verus!
