//! Households of the synthetic population.

use vstd::prelude::*;

use crate::person::PID;
use crate::{Eth, OA};

verus! {

/// A household identifier: the position of the household in the household
/// table.
#[derive(Debug, Hash, PartialEq, Eq, Clone, Copy, Structural)]
pub struct HID(pub usize);

/// A member of the synthetic household population. The census attribute
/// fields are fixed after load (ethnicity is remapped once for Scottish
/// regions); assignment sets only `hrpid` and `filled`, and neither is ever
/// reverted.
#[derive(Debug, Clone)]
pub struct Household {
    /// The identifier; equals the household's position in the table.
    pub hid: usize,
    /// The small-resolution area the household sits in.
    pub area: OA,
    pub lc4402_c_typaccom: i32,
    /// Communal-establishment type; -1 when the household is not communal.
    pub qs420_cell: i32,
    pub lc4402_c_tenhuk11: i32,
    /// Composition class 1..5: 1 single-occupant, 2 and 3 couple variants,
    /// 4 single parent, 5 mixed/multi.
    pub lc4408_c_ahthuk11: i32,
    pub communal_size: i32,
    /// The number of occupants the household is sized for.
    pub lc4404_c_sizhuk11: i32,
    pub lc4404_c_rooms: i32,
    pub lc4405ew_c_bedrooms: i32,
    pub lc4408ew_c_ppbroomhew11: i32,
    pub lc4402_c_cenheathuk11: i32,
    pub lc4605_c_nssec: i32,
    pub lc4202_c_ethhuk11: Eth,
    pub lc4202_c_carsno: i32,
    /// The reference person, set by the assignment and never overwritten.
    pub hrpid: Option<PID>,
    /// Set to `Some(true)` when no further assignment is expected; never
    /// reset.
    pub filled: Option<bool>,
}

impl Household {
    /// Whether the household is a communal establishment.
    pub open spec fn is_communal(self) -> bool {
        self.qs420_cell > -1
    }

    /// Whether the household counts as filled.
    pub open spec fn is_filled(self) -> bool {
        self.filled == Some(true)
    }
}

} // verus!
