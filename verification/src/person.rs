//! Persons and the rows of the empirical reference-person distributions.

use vstd::prelude::*;

use crate::household::HID;
use crate::{Age, Eth, EthEW, Sex, MSOA};

verus! {

/// A person identifier: the position of the person in the population table.
#[derive(Debug, Hash, PartialEq, Eq, Clone, Copy, Structural)]
pub struct PID(pub usize);

/// A member of the synthetic person population. Demographic fields are fixed
/// after load (ethnicity is remapped once); only `hid` is ever set later, and
/// once set it is never changed.
#[derive(Debug, Clone)]
pub struct Person {
    pub pid: usize,
    pub msoa: MSOA,
    pub sex: Sex,
    pub age: Age,
    pub eth: Eth,
    pub hid: Option<HID>,
}

impl Person {
    /// Whether this person counts as an adult (age strictly above 16).
    pub open spec fn is_adult(self) -> bool {
        self.age.0 > crate::ADULT_AGE
    }
}

/// An index into one of the empirical distribution tables: the position of
/// a drawn row.
#[derive(Debug, Hash, PartialEq, Eq, Clone, Copy, Structural)]
pub struct HRPID(pub usize);

/// A reference-person distribution row: a joint (age, sex, ethnicity) draw
/// with integer weight `n`. The sex may be absent in the single-occupant
/// table; drawing such a row is a fatal contract error.
#[derive(Debug, Clone)]
pub struct HRPerson {
    pub age: Age,
    pub sex: Option<Sex>,
    pub eth: Eth,
    pub n: usize,
}

/// A partner-by-reference-person distribution row.
#[derive(Debug, Clone)]
pub struct PartnerHRPerson {
    pub age: Age,
    pub agehrp: Age,
    pub ethnicityew: EthEW,
    pub eth: Eth,
    pub n: usize,
    pub samesex: bool,
}

/// A child-by-reference-person distribution row.
#[derive(Debug, Clone)]
pub struct ChildHRPerson {
    pub age: Age,
    pub sex: Sex,
    pub agehrp: Age,
    pub ethnicityew: EthEW,
    pub eth: Eth,
    pub n: usize,
}

/// An ASCII byte folded to lower case.
pub open spec fn lower_byte(b: u8) -> u8 {
    if 65 <= b <= 90 {
        (b + 32) as u8
    } else {
        b
    }
}

/// A byte string folded to ASCII lower case.
pub open spec fn lower_ascii(s: Seq<u8>) -> Seq<u8> {
    s.map_values(|b: u8| lower_byte(b))
}

/// The byte spelling of "true".
pub open spec fn true_bytes() -> Seq<u8> {
    seq!['t' as u8, 'r' as u8, 'u' as u8, 'e' as u8]
}

/// The byte spelling of "false".
pub open spec fn false_bytes() -> Seq<u8> {
    seq!['f' as u8, 'a' as u8, 'l' as u8, 's' as u8, 'e' as u8]
}

/// An ASCII byte folded to lower case.
fn to_lower(b: u8) -> (r: u8)
    ensures
        r == lower_byte(b),
{
    if b >= 65 && b <= 90 {
        b + 32
    } else {
        b
    }
}

/// Reads the boolean literals used by the `samesex` column: any ASCII casing
/// of "true" or "false". Anything else is rejected.
pub fn parse_bool_literal(s: &[u8]) -> (r: Option<bool>)
    ensures
        r == Some(true) <==> lower_ascii(s@) == true_bytes(),
        r == Some(false) <==> lower_ascii(s@) == false_bytes(),
{
    if s.len() == 4 {
        let ok = to_lower(s[0]) == 116 && to_lower(s[1]) == 114 && to_lower(s[2]) == 117
            && to_lower(s[3]) == 101;
        if ok {
            assert(lower_ascii(s@) =~= true_bytes());
            Some(true)
        } else {
            assert(lower_ascii(s@) != true_bytes() && lower_ascii(s@) != false_bytes()) by {
                assert(lower_ascii(s@).len() == 4);
                if lower_ascii(s@) == true_bytes() {
                    assert(lower_ascii(s@)[0] == 116 && lower_ascii(s@)[1] == 114
                        && lower_ascii(s@)[2] == 117 && lower_ascii(s@)[3] == 101);
                }
            }
            None
        }
    } else if s.len() == 5 {
        let ok = to_lower(s[0]) == 102 && to_lower(s[1]) == 97 && to_lower(s[2]) == 108
            && to_lower(s[3]) == 115 && to_lower(s[4]) == 101;
        if ok {
            assert(lower_ascii(s@) =~= false_bytes());
            Some(false)
        } else {
            assert(lower_ascii(s@) != true_bytes() && lower_ascii(s@) != false_bytes()) by {
                assert(lower_ascii(s@).len() == 5);
                if lower_ascii(s@) == false_bytes() {
                    assert(lower_ascii(s@)[0] == 102 && lower_ascii(s@)[1] == 97
                        && lower_ascii(s@)[2] == 108 && lower_ascii(s@)[3] == 115
                        && lower_ascii(s@)[4] == 101);
                }
            }
            None
        }
    } else {
        assert(lower_ascii(s@).len() != 4 && lower_ascii(s@).len() != 5);
        None
    }
}

} // verus!
