//! Synthetic population assignment: builds a many-to-one mapping of persons to
//! households for a geographic region, respecting household composition
//! constraints and empirical joint demographic distributions.

use vstd::prelude::*;

pub mod areas;
pub mod assignment;
pub mod config;
pub mod household;
pub mod person;
pub mod queues;
pub mod rng;

verus! {

/// Persons strictly older than this count as adults.
pub const ADULT_AGE: usize = 16;

/// A middle-resolution area, as a dense identifier assigned by
/// `areas::assign_area_ids` (ascending identifiers follow ascending
/// lexicographic order of the raw area codes).
#[derive(Hash, Copy, Clone, Debug, PartialEq, Eq, Structural)]
pub struct MSOA(pub usize);

/// A small-resolution (output) area, as a dense identifier.
#[derive(Hash, Copy, Clone, Debug, PartialEq, Eq, Structural)]
pub struct OA(pub usize);

/// A person's sex: 1 or 2.
#[derive(Hash, Copy, Clone, Debug, PartialEq, Eq, Structural)]
pub struct Sex(pub usize);

impl Sex {
    /// Whether this is one of the two admitted sex codes.
    pub open spec fn valid(self) -> bool {
        self.0 == 1 || self.0 == 2
    }

    /// The other sex code: 1 maps to 2 and 2 maps to 1.
    pub fn opposite(&self) -> (r: Self)
        requires
            self.valid(),
        ensures
            r.0 == 3 - self.0,
            r.valid(),
    {
        Sex(3 - self.0)
    }
}

/// A person's age in years.
#[derive(Hash, Copy, Clone, Debug, PartialEq, Eq, Structural)]
pub struct Age(pub usize);

/// An ethnicity code on the unified scheme.
#[derive(Hash, Copy, Clone, Debug, PartialEq, Eq, Structural)]
pub struct Eth(pub i32);

/// An ethnicity code on the England-and-Wales regional scheme.
#[derive(Hash, Copy, Clone, Debug, PartialEq, Eq, Structural)]
pub struct EthEW(pub i32);

impl Eth {
    /// Reads a regional-scheme code as a unified-scheme code, as the partner
    /// sampling stage does.
    pub fn from_ew(value: EthEW) -> (r: Self)
        ensures
            r.0 == value.0,
    {
        Eth(value.0)
    }
}

/// The failures that abort a run. Stage-local sampling misses are not errors;
/// they are tolerated and reported through the returned counts.
#[derive(Copy, Clone, Debug, PartialEq, Eq, Structural)]
pub enum AssignmentError {
    /// An ethnicity value was not present in the active remapping.
    InvalidMapping,
    /// A person or household row's identifier does not equal its position, a
    /// sex code is out of range, or a referenced identifier is invalid.
    BadIdentifier,
    /// A single-occupant reference-person row with no sex was drawn.
    MissingSex,
    /// A distribution table is empty, sums to zero, or its weights overflow.
    BadTable,
    /// The reference-person stage found no person within the four relaxation
    /// levels; reference persons must always match.
    NoMatch,
}

impl AssignmentError {
    /// A short human-readable description, for callers that report failures.
    pub fn message(&self) -> String {
        match self {
            AssignmentError::InvalidMapping => "ethnicity value absent from the active mapping".to_owned(),
            AssignmentError::BadIdentifier => "invalid identifier".to_owned(),
            AssignmentError::MissingSex => "reference-person row has no sex".to_owned(),
            AssignmentError::BadTable => "unusable distribution table".to_owned(),
            AssignmentError::NoMatch => "no match for a reference person".to_owned(),
        }
    }
}

} // verus!
