use vstd::prelude::*;

verus! {

/// Raised when a neighbour offset leads off the grid; the search skips that direction.
#[derive(Clone, Copy, Debug, PartialEq, Eq, Structural)]
pub enum PathfindingError {
    OutOfMap,
}

/// Reasons why a grid cannot be built from the caller's parameters.
#[derive(Clone, Copy, Debug, PartialEq, Eq, Structural)]
pub enum MapError {
    SizeMismatch,
    StartOutOfBounds,
    DestinationOutOfBounds,
    StartEqEnd,
    TooBig,
}

/// The name of an error kind, as it appears in diagnostics.
pub open spec fn error_name(e: MapError) -> Seq<char> {
    match e {
        MapError::SizeMismatch => "SizeMismatch"@,
        MapError::StartOutOfBounds => "StartOutOfBounds"@,
        MapError::DestinationOutOfBounds => "DestinationOutOfBounds"@,
        MapError::StartEqEnd => "StartEqEnd"@,
        MapError::TooBig => "TooBig"@,
    }
}

/// The comment reported to a caller for a failed query: `[ERROR] ` and the kind's name.
pub open spec fn error_comment(e: MapError) -> Seq<char> {
    match e {
        MapError::SizeMismatch => "[ERROR] SizeMismatch"@,
        MapError::StartOutOfBounds => "[ERROR] StartOutOfBounds"@,
        MapError::DestinationOutOfBounds => "[ERROR] DestinationOutOfBounds"@,
        MapError::StartEqEnd => "[ERROR] StartEqEnd"@,
        MapError::TooBig => "[ERROR] TooBig"@,
    }
}

impl MapError {
    /// The name of the error kind, e.g. `StartEqEnd`.
    pub fn name(&self) -> (r: &'static str)
        ensures
            r@ == error_name(*self),
    {
        match self {
            MapError::SizeMismatch => "SizeMismatch",
            MapError::StartOutOfBounds => "StartOutOfBounds",
            MapError::DestinationOutOfBounds => "DestinationOutOfBounds",
            MapError::StartEqEnd => "StartEqEnd",
            MapError::TooBig => "TooBig",
        }
    }

    /// The diagnostic comment `[ERROR] <name>`.
    pub fn comment(&self) -> (r: &'static str)
        ensures
            r@ == error_comment(*self),
    {
        match self {
            MapError::SizeMismatch => "[ERROR] SizeMismatch",
            MapError::StartOutOfBounds => "[ERROR] StartOutOfBounds",
            MapError::DestinationOutOfBounds => "[ERROR] DestinationOutOfBounds",
            MapError::StartEqEnd => "[ERROR] StartEqEnd",
            MapError::TooBig => "[ERROR] TooBig",
        }
    }
}

} // verus!
