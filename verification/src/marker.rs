//! Status codes of a detected marker.

use vstd::prelude::*;

verus! {

/// Marker status. `IdReliable` is the only valid detection; "too few outer
/// points" and "no collected cuts" share the code -1.
#[derive(Clone, Copy, Debug, PartialEq, Eq, Structural, Hash)]
pub enum Status {
    /// Not yet identified (code 0).
    Undetermined,
    /// Code 1.
    IdReliable,
    /// Code -1: too few outer points *or* no collected cuts.
    TooFewOuterPointsOrNoCuts,
    /// Code -2.
    NoSelectedCuts,
    /// Code -3.
    OptiHasDiverged,
    /// Code -4.
    IdNotReliable,
    /// Code -5.
    Degenerate,
}

/// The integer code of each status.
pub open spec fn status_code(s: Status) -> int {
    match s {
        Status::Undetermined => 0,
        Status::IdReliable => 1,
        Status::TooFewOuterPointsOrNoCuts => -1,
        Status::NoSelectedCuts => -2,
        Status::OptiHasDiverged => -3,
        Status::IdNotReliable => -4,
        Status::Degenerate => -5,
    }
}

/// The status a code decodes to: the status with that code, and
/// `Undetermined` for any code that no status has.
pub open spec fn status_of_code(c: int) -> Status {
    if c == 1 {
        Status::IdReliable
    } else if c == -1 {
        Status::TooFewOuterPointsOrNoCuts
    } else if c == -2 {
        Status::NoSelectedCuts
    } else if c == -3 {
        Status::OptiHasDiverged
    } else if c == -4 {
        Status::IdNotReliable
    } else if c == -5 {
        Status::Degenerate
    } else {
        Status::Undetermined
    }
}

impl Status {
    /// The status code.
    pub fn code(self) -> (c: i32)
        ensures
            c == status_code(self),
    {
        match self {
            Status::Undetermined => 0,
            Status::IdReliable => 1,
            Status::TooFewOuterPointsOrNoCuts => -1,
            Status::NoSelectedCuts => -2,
            Status::OptiHasDiverged => -3,
            Status::IdNotReliable => -4,
            Status::Degenerate => -5,
        }
    }

    /// Decode a status code; unknown codes give `Undetermined`.
    pub fn from_code(c: i32) -> (s: Status)
        ensures
            s == status_of_code(c as int),
    {
        match c {
            1 => Status::IdReliable,
            -1 => Status::TooFewOuterPointsOrNoCuts,
            -2 => Status::NoSelectedCuts,
            -3 => Status::OptiHasDiverged,
            -4 => Status::IdNotReliable,
            -5 => Status::Degenerate,
            _ => Status::Undetermined,
        }
    }

    /// Whether this is the one valid detection status.
    pub fn is_reliable(self) -> (b: bool)
        ensures
            b == (self == Status::IdReliable),
    {
        self == Status::IdReliable
    }
}

/// Decoding the code of a status gives the status back.
pub proof fn lemma_status_code_roundtrip(s: Status)
    ensures
        status_of_code(status_code(s)) == s,
{
}

/// Encoding the status of a code gives the code back exactly when the code
/// is one of -5..=1; every other code decodes to `Undetermined` (code 0).
pub proof fn lemma_code_status_roundtrip(c: int)
    ensures
        -5 <= c <= 1 ==> status_code(status_of_code(c)) == c,
        !(-5 <= c <= 1) ==> status_of_code(c) == Status::Undetermined,
{
}

/// Only the reliable status has a positive code.
pub proof fn lemma_positive_code_is_reliable(s: Status)
    ensures
        (status_code(s) > 0) == (s == Status::IdReliable),
{
}

} // verus!
