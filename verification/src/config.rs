//! Run configuration: resolutions, projection, year and data locations.

use vstd::prelude::*;

verus! {

/// A geographic resolution for an input population file.
#[derive(Copy, Clone, Debug, PartialEq, Eq, Structural)]
pub enum Resolution {
    MSOA11,
    OA11,
}

impl Resolution {
    /// The code used in input and output file names.
    pub fn as_str(&self) -> (r: &'static str)
        ensures
            self is MSOA11 ==> r@ == "MSOA11"@,
            self is OA11 ==> r@ == "OA11"@,
    {
        match self {
            Resolution::MSOA11 => "MSOA11",
            Resolution::OA11 => "OA11",
        }
    }
}

/// The population projection variant.
#[derive(Copy, Clone, Debug, PartialEq, Eq, Structural)]
pub enum Projection {
    PPP,
}

impl Projection {
    /// The code used in input file names.
    pub fn as_str(&self) -> (r: &'static str)
        ensures
            r@ == "ppp"@,
    {
        "ppp"
    }
}

/// The calendar year of the input snapshot.
#[derive(Copy, Clone, Debug, PartialEq, Eq, Structural)]
pub struct Year(pub u32);

/// The run configuration, as read from the configuration document.
#[derive(Clone, Debug)]
pub struct Config {
    pub person_resolution: Resolution,
    pub household_resolution: Resolution,
    pub projection: Projection,
    pub strict: bool,
    pub year: Year,
    pub data_dir: String,
    pub profile: bool,
}

} // verus!
