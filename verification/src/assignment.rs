//! The assignment engine: runs the staged pipeline that maps persons to
//! households, one middle-area at a time.

use vstd::prelude::*;
use vstd::string::StringSliceAdditionalSpecFns;

use crate::config::{Config, Year};
use crate::household::{Household, HID};
use crate::person::{ChildHRPerson, HRPerson, PartnerHRPerson, Person, PID};
use crate::queues::{key_area, lemma_skip_distinct, lemma_skip_step, AdultOrChild, Queues};
use crate::rng::{
    choose_index, lemma_sum_push, lemma_sum_take_le, lemma_sum_take_next, seed_rng, sum_weights,
    weighted_choice,
};
use crate::{AssignmentError, Eth, OA};

verus! {

/// One row of the geographic hierarchy: a small-area and the middle-area
/// that contains it.
#[derive(Copy, Clone, Debug, PartialEq, Eq, Structural)]
pub struct GeogEntry {
    pub oa: OA,
    pub msoa: crate::MSOA,
}

/// The four household-composition groupings of the reference-person stage,
/// in their fixed processing order.
#[derive(Copy, Clone, Debug, PartialEq, Eq, Structural)]
pub enum HhType {
    Sgl,
    Cpl,
    Sp,
    Mix,
}

/// Which parent selection the child stage works for.
#[derive(Copy, Clone, Debug, PartialEq, Eq, Structural)]
pub enum Parent {
    Single,
    Couple,
}

/// The composition classes a grouping covers: `sgl` is class 1, `cpl`
/// classes 2 and 3, `sp` class 4 and `mix` class 5.
pub open spec fn class_in(t: HhType, c: i32) -> bool {
    match t {
        HhType::Sgl => c == 1,
        HhType::Cpl => c == 2 || c == 3,
        HhType::Sp => c == 4,
        HhType::Mix => c == 5,
    }
}

/// The composition-class index sets partition {1, 2, 3, 4, 5} exactly: every
/// class of the range lies in exactly one grouping, and the groupings hold
/// nothing else.
pub proof fn lemma_class_partition()
    ensures
        forall|c: i32|
            (1 <= c <= 5) <==> (class_in(HhType::Sgl, c) || class_in(HhType::Cpl, c) || class_in(
                HhType::Sp,
                c,
            ) || class_in(HhType::Mix, c)),
        forall|c: i32, t1: HhType, t2: HhType| class_in(t1, c) && class_in(t2, c) ==> t1 == t2,
{
}

/// The executable class test.
pub fn class_matches(t: HhType, c: i32) -> (r: bool)
    ensures
        r == class_in(t, c),
{
    match t {
        HhType::Sgl => c == 1,
        HhType::Cpl => c == 2 || c == 3,
        HhType::Sp => c == 4,
        HhType::Mix => c == 5,
    }
}

/// The ethnicity remappings applied once at load.
#[derive(Copy, Clone, Debug, PartialEq, Eq, Structural)]
pub enum EthMapping {
    /// The non-Scottish mapping, applied to persons only.
    EnglandWales,
    /// The first Scottish pass, applied to persons only.
    ScotlandRaw,
    /// The second Scottish pass, applied to persons and households.
    ScotlandUnified,
}

/// Where a mapping sends each ethnicity code; absent codes are fatal
/// configuration errors.
pub open spec fn eth_mapped(m: EthMapping, v: int) -> Option<int> {
    match m {
        EthMapping::EnglandWales => if v == -1 {
            Some(1)
        } else if v == 2 {
            Some(2)
        } else if v == 3 {
            Some(3)
        } else if v == 4 {
            Some(4)
        } else if v == 5 {
            Some(4)
        } else if v == 7 {
            Some(5)
        } else if v == 8 {
            Some(5)
        } else if v == 9 {
            Some(5)
        } else if v == 10 {
            Some(5)
        } else if v == 12 {
            Some(6)
        } else if v == 13 {
            Some(6)
        } else if v == 14 {
            Some(6)
        } else if v == 15 {
            Some(6)
        } else if v == 16 {
            Some(6)
        } else if v == 18 {
            Some(7)
        } else if v == 19 {
            Some(7)
        } else if v == 20 {
            Some(7)
        } else if v == 22 {
            Some(8)
        } else if v == 23 {
            Some(8)
        } else {
            None
        },
        EthMapping::ScotlandRaw => if v == -1 {
            Some(1)
        } else if v == 1 {
            Some(1)
        } else if v == 8 {
            Some(2)
        } else if v == 9 {
            Some(3)
        } else if v == 15 {
            Some(4)
        } else if v == 18 {
            Some(5)
        } else if v == 22 {
            Some(6)
        } else {
            None
        },
        EthMapping::ScotlandUnified => if v == -1 {
            Some(1)
        } else if v == 1 {
            Some(2)
        } else if v == 2 {
            Some(3)
        } else if v == 3 {
            Some(4)
        } else if v == 4 {
            Some(5)
        } else if v == 5 {
            Some(6)
        } else if v == 6 {
            Some(8)
        } else {
            None
        },
    }
}

/// Looks an ethnicity code up in a mapping.
pub fn map_eth_value(m: EthMapping, v: i32) -> (r: Option<i32>)
    ensures
        r is Some <==> eth_mapped(m, v as int) is Some,
        r matches Some(w) ==> eth_mapped(m, v as int) == Some(w as int),
{
    match m {
        EthMapping::EnglandWales => {
            if v == -1 {
                Some(1)
            } else if v == 2 {
                Some(2)
            } else if v == 3 {
                Some(3)
            } else if v == 4 || v == 5 {
                Some(4)
            } else if v == 7 || v == 8 || v == 9 || v == 10 {
                Some(5)
            } else if v == 12 || v == 13 || v == 14 || v == 15 || v == 16 {
                Some(6)
            } else if v == 18 || v == 19 || v == 20 {
                Some(7)
            } else if v == 22 || v == 23 {
                Some(8)
            } else {
                None
            }
        },
        EthMapping::ScotlandRaw => {
            if v == -1 || v == 1 {
                Some(1)
            } else if v == 8 {
                Some(2)
            } else if v == 9 {
                Some(3)
            } else if v == 15 {
                Some(4)
            } else if v == 18 {
                Some(5)
            } else if v == 22 {
                Some(6)
            } else {
                None
            }
        },
        EthMapping::ScotlandUnified => {
            if v == -1 {
                Some(1)
            } else if v == 1 {
                Some(2)
            } else if v == 2 {
                Some(3)
            } else if v == 3 {
                Some(4)
            } else if v == 4 {
                Some(5)
            } else if v == 5 {
                Some(6)
            } else if v == 6 {
                Some(8)
            } else {
                None
            }
        },
    }
}

/// Rewrites every person's ethnicity through the mapping. A code absent from
/// the mapping fails the whole pass.
pub fn map_eth(data: Vec<Person>, m: EthMapping) -> (r: Result<Vec<Person>, AssignmentError>)
    ensures
        (match r {
            Ok(v) => v@.len() == data@.len() && (forall|i: int|
                0 <= i < data@.len() ==> {
                    let p0 = data@[i];
                    let p1 = #[trigger] v@[i];
                    p1.pid == p0.pid && p1.msoa == p0.msoa && p1.sex == p0.sex && p1.age == p0.age
                        && p1.hid == p0.hid && eth_mapped(m, p0.eth.0 as int) == Some(
                        p1.eth.0 as int,
                    )
                }),
            Err(e) => e == AssignmentError::InvalidMapping && (exists|i: int|
                0 <= i < data@.len() && eth_mapped(m, (#[trigger] data@[i]).eth.0 as int) is None),
        }),
{
    let mut out: Vec<Person> = Vec::new();
    let mut i: usize = 0;
    let n = data.len();
    while i < n
        invariant
            n == data@.len(),
            i <= n,
            out@.len() == i,
            forall|j: int|
                0 <= j < i ==> {
                    let p0 = data@[j];
                    let p1 = #[trigger] out@[j];
                    p1.pid == p0.pid && p1.msoa == p0.msoa && p1.sex == p0.sex && p1.age == p0.age
                        && p1.hid == p0.hid && eth_mapped(m, p0.eth.0 as int) == Some(
                        p1.eth.0 as int,
                    )
                },
        decreases n - i,
    {
        let p = &data[i];
        match map_eth_value(m, p.eth.0) {
            Some(w) => {
                out.push(
                    Person {
                        pid: p.pid,
                        msoa: p.msoa,
                        sex: p.sex,
                        age: p.age,
                        eth: Eth(w),
                        hid: p.hid,
                    },
                );
            },
            None => {
                return Err(AssignmentError::InvalidMapping);
            },
        }
        i += 1;
    }
    Ok(out)
}

/// Rewrites every household's ethnicity through the mapping.
pub fn map_eth_households(data: Vec<Household>, m: EthMapping) -> (r: Result<
    Vec<Household>,
    AssignmentError,
>)
    ensures
        (match r {
            Ok(v) => v@.len() == data@.len() && (forall|j: int|
                0 <= j < data@.len() ==> {
                    let h0 = data@[j];
                    let h1 = #[trigger] v@[j];
                    h1 == Household {
                        lc4202_c_ethhuk11: h1.lc4202_c_ethhuk11,
                        ..h0
                    } && eth_mapped(m, h0.lc4202_c_ethhuk11.0 as int) == Some(
                        h1.lc4202_c_ethhuk11.0 as int,
                    )
                }),
            Err(e) => e == AssignmentError::InvalidMapping && (exists|j: int|
                0 <= j < data@.len() && eth_mapped(
                    m,
                    (#[trigger] data@[j]).lc4202_c_ethhuk11.0 as int,
                ) is None),
        }),
{
    let mut out: Vec<Household> = Vec::new();
    let mut i: usize = 0;
    let n = data.len();
    while i < n
        invariant
            n == data@.len(),
            i <= n,
            out@.len() == i,
            forall|j: int|
                0 <= j < i ==> {
                    let h0 = data@[j];
                    let h1 = #[trigger] out@[j];
                    h1 == Household {
                        lc4202_c_ethhuk11: h1.lc4202_c_ethhuk11,
                        ..h0
                    } && eth_mapped(m, h0.lc4202_c_ethhuk11.0 as int) == Some(
                        h1.lc4202_c_ethhuk11.0 as int,
                    )
                },
        decreases n - i,
    {
        let h = &data[i];
        match map_eth_value(m, h.lc4202_c_ethhuk11.0) {
            Some(w) => {
                let h1 = Household {
                    hid: h.hid,
                    area: h.area,
                    lc4402_c_typaccom: h.lc4402_c_typaccom,
                    qs420_cell: h.qs420_cell,
                    lc4402_c_tenhuk11: h.lc4402_c_tenhuk11,
                    lc4408_c_ahthuk11: h.lc4408_c_ahthuk11,
                    communal_size: h.communal_size,
                    lc4404_c_sizhuk11: h.lc4404_c_sizhuk11,
                    lc4404_c_rooms: h.lc4404_c_rooms,
                    lc4405ew_c_bedrooms: h.lc4405ew_c_bedrooms,
                    lc4408ew_c_ppbroomhew11: h.lc4408ew_c_ppbroomhew11,
                    lc4402_c_cenheathuk11: h.lc4402_c_cenheathuk11,
                    lc4605_c_nssec: h.lc4605_c_nssec,
                    lc4202_c_ethhuk11: Eth(w),
                    lc4202_c_carsno: h.lc4202_c_carsno,
                    hrpid: h.hrpid,
                    filled: h.filled,
                };
                out.push(h1);
            },
            None => {
                return Err(AssignmentError::InvalidMapping);
            },
        }
        i += 1;
    }
    Ok(out)
}

/// The weight column of a reference-person table.
pub open spec fn hrp_weights_spec(t: Seq<HRPerson>) -> Seq<usize> {
    t.map_values(|r: HRPerson| r.n)
}

/// The weight column of the partner table.
pub open spec fn partner_weights_spec(t: Seq<PartnerHRPerson>) -> Seq<usize> {
    t.map_values(|r: PartnerHRPerson| r.n)
}

/// The weight column of the child table.
pub open spec fn child_weights_spec(t: Seq<ChildHRPerson>) -> Seq<usize> {
    t.map_values(|r: ChildHRPerson| r.n)
}

/// A usable weight column: its total fits the weight type and at least one
/// weight is positive, so a weighted draw always succeeds.
pub open spec fn table_ok(w: Seq<usize>) -> bool {
    sum_weights(w) <= usize::MAX && (exists|i: int| 0 <= i < w.len() && w[i] > 0)
}

/// The engine state: the two populations, the loaded distribution tables,
/// the sampling queues and the seeded random source.
pub struct Assignment {
    pub year: Year,
    pub scotland: bool,
    pub strictmode: bool,
    pub h_data: Vec<Household>,
    pub p_data: Vec<Person>,
    pub geog_lookup: Vec<GeogEntry>,
    pub hrp_sgl: Vec<HRPerson>,
    pub hrp_cpl: Vec<HRPerson>,
    pub hrp_sp: Vec<HRPerson>,
    pub hrp_mix: Vec<HRPerson>,
    pub partner_hrp_dist: Vec<PartnerHRPerson>,
    pub child_hrp_dist: Vec<ChildHRPerson>,
    pub queues: Queues,
    pub rng: rand::rngs::StdRng,
}

impl Assignment {
    /// Row identities equal positions, and sex codes are admitted values.
    pub open spec fn ids_ok(self) -> bool {
        &&& (forall|i: int|
            0 <= i < self.p_data@.len() ==> (#[trigger] self.p_data@[i]).pid == i)
        &&& (forall|j: int|
            0 <= j < self.h_data@.len() ==> (#[trigger] self.h_data@[j]).hid == j)
        &&& (forall|i: int|
            0 <= i < self.p_data@.len() ==> (#[trigger] self.p_data@[i]).sex.valid())
    }

    /// A person's household field is set exactly when they are matched.
    pub open spec fn hid_iff_matched(self) -> bool {
        forall|i: int|
            0 <= i < self.p_data@.len() ==> ((#[trigger] self.p_data@[i]).hid is Some
                <==> self.queues.matched_set().contains(i as usize))
    }

    /// Every set household field points into the household table.
    pub open spec fn assignments_valid(self) -> bool {
        forall|i: int|
            0 <= i < self.p_data@.len() ==> match (#[trigger] self.p_data@[i]).hid {
                Some(h) => h.0 < self.h_data@.len(),
                None => true,
            }
    }

    /// Every set reference person is a valid person who points back at the
    /// household; since a person's household is never rewritten, no person
    /// can anchor two households.
    pub open spec fn hrp_consistent(self) -> bool {
        forall|j: int|
            0 <= j < self.h_data@.len() ==> match (#[trigger] self.h_data@[j]).hrpid {
                Some(p) => p.0 < self.p_data@.len() && self.p_data@[p.0 as int].hid == Some(
                    HID(j as usize),
                ),
                None => true,
            }
    }

    /// A filled non-communal household always has its reference person.
    pub open spec fn filled_have_hrp(self) -> bool {
        forall|j: int|
            0 <= j < self.h_data@.len() ==> ((#[trigger] self.h_data@[j]).is_filled()
                && !self.h_data@[j].is_communal() ==> self.h_data@[j].hrpid is Some)
    }

    /// Every child-table row carries an admitted sex code, so a drawn row
    /// always asks for a child of one of the two sexes.
    pub open spec fn child_rows_valid(self) -> bool {
        forall|i: int|
            0 <= i < self.child_hrp_dist@.len() ==> (#[trigger] self.child_hrp_dist@[i]).sex.valid()
    }

    /// All six distribution tables are usable.
    pub open spec fn tables_ok(self) -> bool {
        &&& table_ok(hrp_weights_spec(self.hrp_sgl@))
        &&& table_ok(hrp_weights_spec(self.hrp_cpl@))
        &&& table_ok(hrp_weights_spec(self.hrp_sp@))
        &&& table_ok(hrp_weights_spec(self.hrp_mix@))
        &&& table_ok(partner_weights_spec(self.partner_hrp_dist@))
        &&& table_ok(child_weights_spec(self.child_hrp_dist@))
    }

    /// The engine invariant: established by the constructor and preserved by
    /// every stage.
    pub open spec fn wf(self) -> bool {
        &&& self.queues.wf(self.p_data@)
        &&& self.ids_ok()
        &&& self.hid_iff_matched()
        &&& self.assignments_valid()
        &&& self.hrp_consistent()
        &&& self.filled_have_hrp()
        &&& self.tables_ok()
        &&& self.child_rows_valid()
    }

    /// The table of the given grouping.
    pub open spec fn hrp_table_spec(self, t: HhType) -> Seq<HRPerson> {
        match t {
            HhType::Sgl => self.hrp_sgl@,
            HhType::Cpl => self.hrp_cpl@,
            HhType::Sp => self.hrp_sp@,
            HhType::Mix => self.hrp_mix@,
        }
    }
}

/// Whether any unmatched adult of the middle-area is left: the stages that
/// tolerate misses can only miss once this is false, since the adult cascade
/// never fails while an unmatched adult of the area remains.
pub open spec fn unmatched_adult_remains(a: Assignment, msoa: crate::MSOA) -> bool {
    exists|l: int|
        0 <= l < a.p_data@.len() && a.queues.unmatched_set().contains(l as usize) && (
        #[trigger] a.p_data@[l]).msoa == msoa && a.p_data@[l].is_adult()
}

/// Once the area's unmatched adults are gone, no later step brings one back:
/// assignment only shrinks the unmatched set and never alters demographics.
pub proof fn lemma_adult_remains_shrinks(a1: Assignment, a2: Assignment, msoa: crate::MSOA)
    requires
        a2.p_data@.len() == a1.p_data@.len(),
        forall|i: int|
            0 <= i < a1.p_data@.len() ==> (#[trigger] a2.p_data@[i]).msoa == a1.p_data@[i].msoa
                && a2.p_data@[i].age == a1.p_data@[i].age,
        forall|q: usize|
            a2.queues.unmatched_set().contains(q) ==> a1.queues.unmatched_set().contains(q),
    ensures
        unmatched_adult_remains(a2, msoa) ==> unmatched_adult_remains(a1, msoa),
{
    if unmatched_adult_remains(a2, msoa) {
        let l = choose|l: int|
            0 <= l < a2.p_data@.len() && a2.queues.unmatched_set().contains(l as usize) && (
            #[trigger] a2.p_data@[l]).msoa == msoa && a2.p_data@[l].is_adult();
        assert(a1.queues.unmatched_set().contains(l as usize));
        assert(a1.p_data@[l].msoa == msoa && a1.p_data@[l].is_adult());
    }
}

/// Whether any unmatched child of the given sex is left in the middle-area.
pub open spec fn unmatched_child_remains(a: Assignment, msoa: crate::MSOA, sex: crate::Sex) -> bool {
    exists|l: int|
        0 <= l < a.p_data@.len() && a.queues.unmatched_set().contains(l as usize) && (
        #[trigger] a.p_data@[l]).msoa == msoa && !a.p_data@[l].is_adult() && a.p_data@[l].sex == sex
}

/// As for adults: once gone, the area's unmatched children of a sex never
/// come back within a stage.
pub proof fn lemma_child_remains_shrinks(
    a1: Assignment,
    a2: Assignment,
    msoa: crate::MSOA,
    sex: crate::Sex,
)
    requires
        a2.p_data@.len() == a1.p_data@.len(),
        forall|i: int|
            0 <= i < a1.p_data@.len() ==> (#[trigger] a2.p_data@[i]).msoa == a1.p_data@[i].msoa
                && a2.p_data@[i].age == a1.p_data@[i].age && a2.p_data@[i].sex == a1.p_data@[i].sex,
        forall|q: usize|
            a2.queues.unmatched_set().contains(q) ==> a1.queues.unmatched_set().contains(q),
    ensures
        unmatched_child_remains(a2, msoa, sex) ==> unmatched_child_remains(a1, msoa, sex),
{
    if unmatched_child_remains(a2, msoa, sex) {
        let l = choose|l: int|
            0 <= l < a2.p_data@.len() && a2.queues.unmatched_set().contains(l as usize) && (
            #[trigger] a2.p_data@[l]).msoa == msoa && !a2.p_data@[l].is_adult()
                && a2.p_data@[l].sex == sex;
        assert(a1.queues.unmatched_set().contains(l as usize));
        assert(a1.p_data@[l].msoa == msoa && !a1.p_data@[l].is_adult() && a1.p_data@[l].sex == sex);
    }
}

/// Whether the child table holds a positively weighted row for the given
/// reference-person age and ethnicity; couple households without one are
/// skipped rather than relaxed.
pub open spec fn couple_child_subgroup(t: Seq<ChildHRPerson>, age: crate::Age, eth: Eth) -> bool {
    exists|i: int|
        0 <= i < t.len() && (#[trigger] t[i]).agehrp == age && t[i].eth == eth && t[i].n > 0
}

/// Fields of a person that assignment never alters, and a household
/// reference that is never cleared or rewritten once set.
pub open spec fn person_frame(p1: Seq<Person>, p2: Seq<Person>) -> bool {
    &&& p2.len() == p1.len()
    &&& (forall|i: int|
        0 <= i < p1.len() ==> {
            let a = p1[i];
            let b = #[trigger] p2[i];
            b.pid == a.pid && b.msoa == a.msoa && b.sex == a.sex && b.age == a.age && b.eth == a.eth
                && (a.hid is Some ==> b.hid == a.hid)
        })
}

/// Fields of a household that assignment never alters, a reference person
/// that is never rewritten once set, and a filled flag that is never reset.
pub open spec fn household_frame(h1: Seq<Household>, h2: Seq<Household>) -> bool {
    &&& h2.len() == h1.len()
    &&& (forall|j: int|
        0 <= j < h1.len() ==> {
            let a = h1[j];
            let b = #[trigger] h2[j];
            b.hid == a.hid && b.area == a.area && b.lc4402_c_typaccom == a.lc4402_c_typaccom
                && b.qs420_cell == a.qs420_cell && b.lc4402_c_tenhuk11 == a.lc4402_c_tenhuk11
                && b.lc4408_c_ahthuk11 == a.lc4408_c_ahthuk11 && b.communal_size == a.communal_size
                && b.lc4404_c_sizhuk11 == a.lc4404_c_sizhuk11 && b.lc4404_c_rooms
                == a.lc4404_c_rooms && b.lc4405ew_c_bedrooms == a.lc4405ew_c_bedrooms
                && b.lc4408ew_c_ppbroomhew11 == a.lc4408ew_c_ppbroomhew11
                && b.lc4402_c_cenheathuk11 == a.lc4402_c_cenheathuk11 && b.lc4605_c_nssec
                == a.lc4605_c_nssec && b.lc4202_c_ethhuk11 == a.lc4202_c_ethhuk11
                && b.lc4202_c_carsno == a.lc4202_c_carsno && (a.hrpid is Some ==> b.hrpid == a.hrpid)
                && (a.is_filled() ==> b.is_filled())
        })
}

/// The parts of the engine state the stages never touch.
pub open spec fn static_frame(a1: Assignment, a2: Assignment) -> bool {
    &&& a2.year == a1.year
    &&& a2.scotland == a1.scotland
    &&& a2.strictmode == a1.strictmode
    &&& a2.geog_lookup == a1.geog_lookup
    &&& a2.hrp_sgl == a1.hrp_sgl
    &&& a2.hrp_cpl == a1.hrp_cpl
    &&& a2.hrp_sp == a1.hrp_sp
    &&& a2.hrp_mix == a1.hrp_mix
    &&& a2.partner_hrp_dist == a1.partner_hrp_dist
    &&& a2.child_hrp_dist == a1.child_hrp_dist
}

/// Checks that a weight column is usable (its total fits, some weight is
/// positive).
fn check_weights(w: &Vec<usize>) -> (r: bool)
    ensures
        r == table_ok(w@),
{
    let mut acc: usize = 0;
    let mut any: bool = false;
    let mut j: usize = 0;
    let n = w.len();
    while j < n
        invariant
            n == w@.len(),
            j <= n,
            acc == sum_weights(w@.take(j as int)),
            any == (exists|i: int| 0 <= i < j && w@[i] > 0),
        decreases n - j,
    {
        let x = w[j];
        proof {
            lemma_sum_take_next(w@, j as int);
        }
        match acc.checked_add(x) {
            Some(a2) => {
                acc = a2;
            },
            None => {
                proof {
                    lemma_sum_take_le(w@, j as int + 1);
                }
                return false;
            },
        }
        if x > 0 {
            any = true;
        }
        j += 1;
    }
    proof {
        assert(w@.take(n as int) =~= w@);
    }
    any
}

/// The weight column of a reference-person table, materialized.
fn hrp_weights(t: &Vec<HRPerson>) -> (r: Vec<usize>)
    ensures
        r@ == hrp_weights_spec(t@),
{
    let mut out: Vec<usize> = Vec::new();
    let mut j: usize = 0;
    let n = t.len();
    while j < n
        invariant
            n == t@.len(),
            j <= n,
            out@.len() == j,
            forall|i: int| 0 <= i < j ==> out@[i] == (#[trigger] t@[i]).n,
        decreases n - j,
    {
        out.push(t[j].n);
        j += 1;
    }
    proof {
        assert(out@ =~= hrp_weights_spec(t@));
    }
    out
}

/// The weight column of the partner table, materialized.
fn partner_weights(t: &Vec<PartnerHRPerson>) -> (r: Vec<usize>)
    ensures
        r@ == partner_weights_spec(t@),
{
    let mut out: Vec<usize> = Vec::new();
    let mut j: usize = 0;
    let n = t.len();
    while j < n
        invariant
            n == t@.len(),
            j <= n,
            out@.len() == j,
            forall|i: int| 0 <= i < j ==> out@[i] == (#[trigger] t@[i]).n,
        decreases n - j,
    {
        out.push(t[j].n);
        j += 1;
    }
    proof {
        assert(out@ =~= partner_weights_spec(t@));
    }
    out
}

/// The weight column of the child table, materialized.
fn child_weights(t: &Vec<ChildHRPerson>) -> (r: Vec<usize>)
    ensures
        r@ == child_weights_spec(t@),
{
    let mut out: Vec<usize> = Vec::new();
    let mut j: usize = 0;
    let n = t.len();
    while j < n
        invariant
            n == t@.len(),
            j <= n,
            out@.len() == j,
            forall|i: int| 0 <= i < j ==> out@[i] == (#[trigger] t@[i]).n,
        decreases n - j,
    {
        out.push(t[j].n);
        j += 1;
    }
    proof {
        assert(out@ =~= child_weights_spec(t@));
    }
    out
}

/// Whether a person's ethnicity survives the remapping chain of the region.
pub open spec fn person_eth_mappable(scotland: bool, v: int) -> bool {
    if !scotland {
        eth_mapped(EthMapping::EnglandWales, v) is Some
    } else {
        match eth_mapped(EthMapping::ScotlandRaw, v) {
            Some(mid) => eth_mapped(EthMapping::ScotlandUnified, mid) is Some,
            None => false,
        }
    }
}

/// The remapped ethnicity of a person under the region's chain.
pub open spec fn person_eth_mapped_to(scotland: bool, v: int, w: int) -> bool {
    if !scotland {
        eth_mapped(EthMapping::EnglandWales, v) == Some(w)
    } else {
        match eth_mapped(EthMapping::ScotlandRaw, v) {
            Some(mid) => eth_mapped(EthMapping::ScotlandUnified, mid) == Some(w),
            None => false,
        }
    }
}

/// Inputs the constructor accepts: identities equal positions, sexes are
/// admitted, nothing is pre-assigned, every ethnicity is mappable under the
/// region's chain, and every distribution table is usable.
pub open spec fn inputs_valid(
    scotland: bool,
    h_data: Seq<Household>,
    p_data: Seq<Person>,
    hrp_sgl: Seq<HRPerson>,
    hrp_cpl: Seq<HRPerson>,
    hrp_sp: Seq<HRPerson>,
    hrp_mix: Seq<HRPerson>,
    partner: Seq<PartnerHRPerson>,
    child: Seq<ChildHRPerson>,
) -> bool {
    &&& (forall|i: int|
        0 <= i < p_data.len() ==> {
            let p = #[trigger] p_data[i];
            p.pid == i && p.sex.valid() && p.hid is None && person_eth_mappable(
                scotland,
                p.eth.0 as int,
            )
        })
    &&& (forall|j: int|
        0 <= j < h_data.len() ==> {
            let h = #[trigger] h_data[j];
            h.hid == j && h.hrpid is None && !h.is_filled() && (scotland ==> eth_mapped(
                EthMapping::ScotlandUnified,
                h.lc4202_c_ethhuk11.0 as int,
            ) is Some)
        })
    &&& table_ok(hrp_weights_spec(hrp_sgl))
    &&& table_ok(hrp_weights_spec(hrp_cpl))
    &&& table_ok(hrp_weights_spec(hrp_sp))
    &&& table_ok(hrp_weights_spec(hrp_mix))
    &&& table_ok(partner_weights_spec(partner))
    &&& table_ok(child_weights_spec(child))
    &&& (forall|i: int| 0 <= i < child.len() ==> (#[trigger] child[i]).sex.valid())
}

impl Assignment {
    /// Loads the engine: validates the populations, applies the ethnicity
    /// remapping of the region, seeds the random source and builds the
    /// sampling queues. Accepts exactly the inputs of [`inputs_valid`]; the
    /// first failing check decides the error kind.
    pub fn new(
        region: &str,
        rng_seed: u64,
        config: &Config,
        h_data: Vec<Household>,
        p_data: Vec<Person>,
        geog_lookup: Vec<GeogEntry>,
        hrp_sgl: Vec<HRPerson>,
        hrp_cpl: Vec<HRPerson>,
        hrp_sp: Vec<HRPerson>,
        hrp_mix: Vec<HRPerson>,
        partner_hrp_dist: Vec<PartnerHRPerson>,
        child_hrp_dist: Vec<ChildHRPerson>,
    ) -> (r: Result<Assignment, AssignmentError>)
        ensures
            r is Ok <==> inputs_valid(
                spec_is_scottish(region),
                h_data@,
                p_data@,
                hrp_sgl@,
                hrp_cpl@,
                hrp_sp@,
                hrp_mix@,
                partner_hrp_dist@,
                child_hrp_dist@,
            ),
            (match r {
                Ok(a) => a.wf() && a.scotland == spec_is_scottish(region) && a.year == config.year
                    && a.strictmode == config.strict && a.geog_lookup@ == geog_lookup@
                    && a.p_data@.len() == p_data@.len() && a.h_data@.len() == h_data@.len() && (
                forall|i: int|
                    0 <= i < p_data@.len() ==> {
                        let p0 = p_data@[i];
                        let p1 = #[trigger] a.p_data@[i];
                        p1.pid == p0.pid && p1.msoa == p0.msoa && p1.sex == p0.sex && p1.age
                            == p0.age && p1.hid is None && person_eth_mapped_to(
                            spec_is_scottish(region),
                            p0.eth.0 as int,
                            p1.eth.0 as int,
                        )
                    }) && (forall|j: int|
                    0 <= j < h_data@.len() ==> {
                        let h0 = h_data@[j];
                        let h1 = #[trigger] a.h_data@[j];
                        h1 == Household {
                            lc4202_c_ethhuk11: h1.lc4202_c_ethhuk11,
                            ..h0
                        } && (if spec_is_scottish(region) {
                            eth_mapped(
                                EthMapping::ScotlandUnified,
                                h0.lc4202_c_ethhuk11.0 as int,
                            ) == Some(h1.lc4202_c_ethhuk11.0 as int)
                        } else {
                            h1.lc4202_c_ethhuk11 == h0.lc4202_c_ethhuk11
                        })
                    }) && a.queues.matched_set() == Set::<usize>::empty() && (forall|p: usize|
                    a.queues.unmatched_set().contains(p) <==> p < p_data@.len()) && a.hrp_sgl@
                    == hrp_sgl@ && a.hrp_cpl@ == hrp_cpl@ && a.hrp_sp@ == hrp_sp@ && a.hrp_mix@
                    == hrp_mix@ && a.partner_hrp_dist@ == partner_hrp_dist@ && a.child_hrp_dist@
                    == child_hrp_dist@,
                Err(e) => e == AssignmentError::BadIdentifier || e == AssignmentError::InvalidMapping
                    || e == AssignmentError::BadTable,
            }),
    {
        let ghost people0 = p_data@;
        let ghost houses0 = h_data@;
        let scotland = is_scottish(region);
        // Validate the person table.
        let mut i: usize = 0;
        let n_people = p_data.len();
        while i < n_people
            invariant
                n_people == p_data@.len(),
                i <= n_people,
                p_data@ == people0,
                forall|l: int|
                    0 <= l < i ==> {
                        let p = #[trigger] p_data@[l];
                        p.pid == l && p.sex.valid() && p.hid is None && person_eth_mappable(
                            scotland,
                            p.eth.0 as int,
                        )
                    },
                scotland == spec_is_scottish(region),
            decreases n_people - i,
        {
            let p = &p_data[i];
            if p.pid != i || !(p.sex.0 == 1 || p.sex.0 == 2) || p.hid.is_some() {
                return Err(AssignmentError::BadIdentifier);
            }
            let mappable = if !scotland {
                map_eth_value(EthMapping::EnglandWales, p.eth.0).is_some()
            } else {
                match map_eth_value(EthMapping::ScotlandRaw, p.eth.0) {
                    Some(mid) => map_eth_value(EthMapping::ScotlandUnified, mid).is_some(),
                    None => false,
                }
            };
            if !mappable {
                return Err(AssignmentError::InvalidMapping);
            }
            i += 1;
        }
        // Validate the household table.
        let mut j: usize = 0;
        let n_houses = h_data.len();
        while j < n_houses
            invariant
                n_houses == h_data@.len(),
                j <= n_houses,
                h_data@ == houses0,
                forall|l: int|
                    0 <= l < j ==> {
                        let h = #[trigger] h_data@[l];
                        h.hid == l && h.hrpid is None && !h.is_filled() && (scotland ==> eth_mapped(
                            EthMapping::ScotlandUnified,
                            h.lc4202_c_ethhuk11.0 as int,
                        ) is Some)
                    },
                scotland == spec_is_scottish(region),
            decreases n_houses - j,
        {
            let h = &h_data[j];
            let filled_set = match h.filled {
                Some(b) => b,
                None => false,
            };
            if h.hid != j || h.hrpid.is_some() || filled_set {
                return Err(AssignmentError::BadIdentifier);
            }
            if scotland && map_eth_value(EthMapping::ScotlandUnified, h.lc4202_c_ethhuk11.0).is_none() {
                return Err(AssignmentError::InvalidMapping);
            }
            j += 1;
        }
        // Validate the distribution tables.
        let ws = hrp_weights(&hrp_sgl);
        if !check_weights(&ws) {
            return Err(AssignmentError::BadTable);
        }
        let ws = hrp_weights(&hrp_cpl);
        if !check_weights(&ws) {
            return Err(AssignmentError::BadTable);
        }
        let ws = hrp_weights(&hrp_sp);
        if !check_weights(&ws) {
            return Err(AssignmentError::BadTable);
        }
        let ws = hrp_weights(&hrp_mix);
        if !check_weights(&ws) {
            return Err(AssignmentError::BadTable);
        }
        let ws = partner_weights(&partner_hrp_dist);
        if !check_weights(&ws) {
            return Err(AssignmentError::BadTable);
        }
        let ws = child_weights(&child_hrp_dist);
        if !check_weights(&ws) {
            return Err(AssignmentError::BadTable);
        }
        let n_child = child_hrp_dist.len();
        let mut ci: usize = 0;
        while ci < n_child
            invariant
                n_child == child_hrp_dist@.len(),
                ci <= n_child,
                forall|l: int|
                    0 <= l < ci ==> (#[trigger] child_hrp_dist@[l]).sex.valid(),
            decreases n_child - ci,
        {
            let sx = child_hrp_dist[ci].sex.0;
            if !(sx == 1 || sx == 2) {
                return Err(AssignmentError::BadTable);
            }
            ci += 1;
        }
        // Apply the ethnicity remapping of the region.
        let p_data = if !scotland {
            match map_eth(p_data, EthMapping::EnglandWales) {
                Ok(v) => v,
                Err(e) => {
                    proof {
                        assert(false);
                    }
                    return Err(e);
                },
            }
        } else {
            let mid = match map_eth(p_data, EthMapping::ScotlandRaw) {
                Ok(v) => v,
                Err(e) => {
                    proof {
                        assert(false);
                    }
                    return Err(e);
                },
            };
            match map_eth(mid, EthMapping::ScotlandUnified) {
                Ok(v) => v,
                Err(e) => {
                    proof {
                        assert(false);
                    }
                    return Err(e);
                },
            }
        };
        let h_data = if scotland {
            match map_eth_households(h_data, EthMapping::ScotlandUnified) {
                Ok(v) => v,
                Err(e) => {
                    proof {
                        assert(false);
                    }
                    return Err(e);
                },
            }
        } else {
            h_data
        };
        // Seed the shared random source and build the queues.
        let mut rng = seed_rng(rng_seed);
        let queues = Queues::new(&p_data, &mut rng);
        let a = Assignment {
            year: config.year,
            scotland,
            strictmode: config.strict,
            h_data,
            p_data,
            geog_lookup,
            hrp_sgl,
            hrp_cpl,
            hrp_sp,
            hrp_mix,
            partner_hrp_dist,
            child_hrp_dist,
            queues,
        rng,
        };
        proof {
            assert(a.wf());
        }
        Ok(a)
    }
}

/// Frames compose across stages.
pub proof fn lemma_person_frame_trans(p1: Seq<Person>, p2: Seq<Person>, p3: Seq<Person>)
    requires
        person_frame(p1, p2),
        person_frame(p2, p3),
    ensures
        person_frame(p1, p3),
{
    assert forall|i: int|
        0 <= i < p1.len() implies {
        let a = p1[i];
        let b = #[trigger] p3[i];
        b.pid == a.pid && b.msoa == a.msoa && b.sex == a.sex && b.age == a.age && b.eth == a.eth && (
        a.hid is Some ==> b.hid == a.hid)
    } by {
        assert(person_frame(p1, p2));
        let m = p2[i];
        assert(m.pid == p1[i].pid);
    }
}

/// Frames compose across stages.
pub proof fn lemma_household_frame_trans(h1: Seq<Household>, h2: Seq<Household>, h3: Seq<Household>)
    requires
        household_frame(h1, h2),
        household_frame(h2, h3),
    ensures
        household_frame(h1, h3),
{
    assert forall|j: int|
        0 <= j < h1.len() implies {
        let a = h1[j];
        let b = #[trigger] h3[j];
        b.hid == a.hid && b.area == a.area && b.lc4402_c_typaccom == a.lc4402_c_typaccom
            && b.qs420_cell == a.qs420_cell && b.lc4402_c_tenhuk11 == a.lc4402_c_tenhuk11
            && b.lc4408_c_ahthuk11 == a.lc4408_c_ahthuk11 && b.communal_size == a.communal_size
            && b.lc4404_c_sizhuk11 == a.lc4404_c_sizhuk11 && b.lc4404_c_rooms == a.lc4404_c_rooms
            && b.lc4405ew_c_bedrooms == a.lc4405ew_c_bedrooms && b.lc4408ew_c_ppbroomhew11
            == a.lc4408ew_c_ppbroomhew11 && b.lc4402_c_cenheathuk11 == a.lc4402_c_cenheathuk11
            && b.lc4605_c_nssec == a.lc4605_c_nssec && b.lc4202_c_ethhuk11 == a.lc4202_c_ethhuk11
            && b.lc4202_c_carsno == a.lc4202_c_carsno && (a.hrpid is Some ==> b.hrpid == a.hrpid) && (
        a.is_filled() ==> b.is_filled())
    } by {
        let m = h2[j];
        assert(m.hid == h1[j].hid);
    }
}

/// One assignment step: person `p` (previously unmatched) is matched and his
/// household field set to `j`; household `j` may gain its reference person
/// and may be marked filled. Everything the engine promises survives.
pub proof fn lemma_wf_assign(a0: Assignment, a2: Assignment, p: int, j: int)
    requires
        a0.wf(),
        0 <= p < a0.p_data@.len(),
        0 <= j < a0.h_data@.len(),
        !a0.queues.matched_set().contains(p as usize),
        a2.queues.wf(a2.p_data@),
        a2.queues.matched_set() == a0.queues.matched_set().insert(p as usize),
        a2.queues.unmatched_set() == a0.queues.unmatched_set().remove(p as usize),
        a2.p_data@.len() == a0.p_data@.len(),
        a2.p_data@ == a0.p_data@.update(p, a2.p_data@[p]),
        ({
            let q0 = a0.p_data@[p];
            let q2 = a2.p_data@[p];
            q2.pid == q0.pid && q2.msoa == q0.msoa && q2.sex == q0.sex && q2.age == q0.age
                && q2.eth == q0.eth && q2.hid == Some(HID(j as usize))
        }),
        a2.h_data@.len() == a0.h_data@.len(),
        a2.h_data@ == a0.h_data@.update(j, a2.h_data@[j]),
        ({
            let g0 = a0.h_data@[j];
            let g2 = a2.h_data@[j];
            g2.hid == g0.hid && g2.area == g0.area && g2.lc4402_c_typaccom == g0.lc4402_c_typaccom
                && g2.qs420_cell == g0.qs420_cell && g2.lc4402_c_tenhuk11 == g0.lc4402_c_tenhuk11
                && g2.lc4408_c_ahthuk11 == g0.lc4408_c_ahthuk11 && g2.communal_size
                == g0.communal_size && g2.lc4404_c_sizhuk11 == g0.lc4404_c_sizhuk11
                && g2.lc4404_c_rooms == g0.lc4404_c_rooms && g2.lc4405ew_c_bedrooms
                == g0.lc4405ew_c_bedrooms && g2.lc4408ew_c_ppbroomhew11
                == g0.lc4408ew_c_ppbroomhew11 && g2.lc4402_c_cenheathuk11
                == g0.lc4402_c_cenheathuk11 && g2.lc4605_c_nssec == g0.lc4605_c_nssec
                && g2.lc4202_c_ethhuk11 == g0.lc4202_c_ethhuk11 && g2.lc4202_c_carsno
                == g0.lc4202_c_carsno && (g2.hrpid == g0.hrpid || (g0.hrpid is None && g2.hrpid
                == Some(PID(p as usize)))) && (g2.filled == g0.filled || g2.filled == Some(true))
                && (g0.is_filled() ==> g2.is_filled()) && (g2.is_filled() && !g2.is_communal()
                ==> g2.hrpid is Some)
        }),
        static_frame(a0, a2),
    ensures
        a2.wf(),
        person_frame(a0.p_data@, a2.p_data@),
        household_frame(a0.h_data@, a2.h_data@),
{
    let ps0 = a0.p_data@;
    let ps2 = a2.p_data@;
    let hs0 = a0.h_data@;
    let hs2 = a2.h_data@;
    assert(ps0[p].hid is None);
    assert(person_frame(ps0, ps2));
    assert(household_frame(hs0, hs2));
    assert(a2.ids_ok());
    assert forall|i: int|
        0 <= i < ps2.len() implies ((#[trigger] ps2[i]).hid is Some
        <==> a2.queues.matched_set().contains(i as usize)) by {
        if i != p {
            assert(ps2[i] == ps0[i]);
            assert(a2.queues.matched_set().contains(i as usize) == a0.queues.matched_set().contains(
                i as usize,
            ));
        }
    }
    assert(a2.assignments_valid());
    assert forall|j2: int|
        0 <= j2 < hs2.len() implies match (#[trigger] hs2[j2]).hrpid {
        Some(q) => q.0 < ps2.len() && ps2[q.0 as int].hid == Some(HID(j2 as usize)),
        None => true,
    } by {
        match hs2[j2].hrpid {
            Some(q) => {
                if j2 == j && hs0[j].hrpid is None {
                    assert(q == PID(p as usize));
                } else {
                    assert(hs2[j2].hrpid == hs0[j2].hrpid);
                    assert(ps0[q.0 as int].hid == Some(HID(j2 as usize)));
                    assert(q.0 != p);
                    assert(ps2[q.0 as int] == ps0[q.0 as int]);
                }
            },
            None => {},
        }
    }
    assert(a2.filled_have_hrp());
    assert(a2.tables_ok());
}

impl Assignment {
    /// The (age, sex, ethnicity) columns of one row of a grouping's table.
    fn hrp_row(&self, t: HhType, idx: usize) -> (r: (crate::Age, Option<crate::Sex>, Eth))
        requires
            idx < self.hrp_table_spec(t).len(),
        ensures
            r.0 == self.hrp_table_spec(t)[idx as int].age,
            r.1 == self.hrp_table_spec(t)[idx as int].sex,
            r.2 == self.hrp_table_spec(t)[idx as int].eth,
    {
        match t {
            HhType::Sgl => {
                let row = &self.hrp_sgl[idx];
                (row.age, row.sex, row.eth)
            },
            HhType::Cpl => {
                let row = &self.hrp_cpl[idx];
                (row.age, row.sex, row.eth)
            },
            HhType::Sp => {
                let row = &self.hrp_sp[idx];
                (row.age, row.sex, row.eth)
            },
            HhType::Mix => {
                let row = &self.hrp_mix[idx];
                (row.age, row.sex, row.eth)
            },
        }
    }

    /// Assigns reference persons to the unanchored households of one
    /// grouping within the small-area set: draws one row of the grouping's
    /// distribution per household and samples an adult for it. A drawn row
    /// without a sex, or a draw for which no person at all can be found, is
    /// fatal. Single-occupant households are filled by their reference
    /// person.
    fn sample_hrp_for(&mut self, msoa: crate::MSOA, oas: &Vec<OA>, hh_type: HhType) -> (r: Result<
        (),
        AssignmentError,
    >)
        requires
            old(self).wf(),
        ensures
            final(self).wf(),
            static_frame(*old(self), *final(self)),
            person_frame(old(self).p_data@, final(self).p_data@),
            household_frame(old(self).h_data@, final(self).h_data@),
            r is Ok ==> (forall|j: int|
                0 <= j < final(self).h_data@.len() ==> ((class_in(
                    hh_type,
                    (#[trigger] final(self).h_data@[j]).lc4408_c_ahthuk11,
                ) && oas@.contains(final(self).h_data@[j].area)) ==> final(self).h_data@[j].hrpid is Some)),
            r is Ok && hh_type == HhType::Sgl ==> (forall|j: int|
                0 <= j < old(self).h_data@.len() ==> (((#[trigger] old(self).h_data@[j]).hrpid is None
                    && old(self).h_data@[j].lc4408_c_ahthuk11 == 1 && oas@.contains(
                    old(self).h_data@[j].area,
                )) ==> final(self).h_data@[j].is_filled())),
            forall|i: int|
                0 <= i < old(self).p_data@.len() ==> ((#[trigger] final(self).p_data@[i]).hid
                    != old(self).p_data@[i].hid ==> (old(self).p_data@[i].hid is None && (final(self).p_data@[i].hid matches Some(hh2) && hh2.0 < old(self).h_data@.len() && class_in(
                    hh_type,
                    old(self).h_data@[hh2.0 as int].lc4408_c_ahthuk11,
                ) && oas@.contains(old(self).h_data@[hh2.0 as int].area) && old(self).h_data@[
                    hh2.0 as int
                ].hrpid is None))),
            forall|j: int|
                0 <= j < old(self).h_data@.len() ==> ((#[trigger] final(self).h_data@[j]).hrpid
                    != old(self).h_data@[j].hrpid ==> (old(self).h_data@[j].hrpid is None
                    && class_in(hh_type, old(self).h_data@[j].lc4408_c_ahthuk11) && oas@.contains(
                    old(self).h_data@[j].area,
                ) && (final(self).h_data@[j].hrpid matches Some(q2) && q2.0 < old(self).p_data@.len()
                    && old(self).p_data@[q2.0 as int].hid is None && final(self).p_data@[
                    q2.0 as int
                ].hid == Some(HID(j as usize))))),
            forall|j: int|
                0 <= j < old(self).h_data@.len() ==> ((#[trigger] final(self).h_data@[j]).filled
                    != old(self).h_data@[j].filled ==> (old(self).h_data@[j].lc4408_c_ahthuk11 == 1
                    && class_in(hh_type, 1) && oas@.contains(old(self).h_data@[j].area)
                    && !old(self).h_data@[j].is_filled() && old(self).h_data@[j].hrpid is None
                    && final(self).h_data@[j].hrpid is Some)),
            old(self).h_data@.len() == 0 ==> r is Ok && final(self).p_data@ == old(self).p_data@
                && final(self).queues.matched_set() == old(self).queues.matched_set() && final(self).queues.unmatched_set() == old(self).queues.unmatched_set(),
            (forall|j: int|
                0 <= j < old(self).h_data@.len() ==> !(class_in(
                    hh_type,
                    (#[trigger] old(self).h_data@[j]).lc4408_c_ahthuk11,
                ) && oas@.contains(old(self).h_data@[j].area) && old(self).h_data@[j].hrpid is None))
                ==> r is Ok,
            r == Err::<(), AssignmentError>(AssignmentError::NoMatch) ==> (forall|l: int|
                0 <= l < final(self).p_data@.len() && final(self).queues.unmatched_set().contains(
                    l as usize,
                ) ==> !((#[trigger] final(self).p_data@[l]).msoa == msoa && final(self).p_data@[l].is_adult())),
            r == Err::<(), AssignmentError>(AssignmentError::MissingSex) ==> (exists|i: int|
                0 <= i < final(self).hrp_table_spec(hh_type).len() && final(self).hrp_table_spec(
                    hh_type,
                )[i].sex is None),
            (match r {
                Ok(()) => true,
                Err(e) => e == AssignmentError::MissingSex || e == AssignmentError::NoMatch,
            }),
    {
        let ghost entry = *old(self);
        let weights = match hh_type {
            HhType::Sgl => hrp_weights(&self.hrp_sgl),
            HhType::Cpl => hrp_weights(&self.hrp_cpl),
            HhType::Sp => hrp_weights(&self.hrp_sp),
            HhType::Mix => hrp_weights(&self.hrp_mix),
        };
        proof {
            assert(weights@ == hrp_weights_spec(self.hrp_table_spec(hh_type)));
        }
        let n_houses = self.h_data.len();
        let mut j: usize = 0;
        while j < n_houses
            invariant
                self.wf(),
                entry == *old(self),
                n_houses == self.h_data@.len(),
                j <= n_houses,
                static_frame(entry, *self),
                person_frame(entry.p_data@, self.p_data@),
                household_frame(entry.h_data@, self.h_data@),
                weights@ == hrp_weights_spec(self.hrp_table_spec(hh_type)),
                forall|l: int|
                    0 <= l < j ==> ((class_in(
                        hh_type,
                        (#[trigger] self.h_data@[l]).lc4408_c_ahthuk11,
                    ) && oas@.contains(self.h_data@[l].area)) ==> self.h_data@[l].hrpid is Some),
                forall|l: int| j <= l < n_houses ==> self.h_data@[l] == entry.h_data@[l],
                hh_type == HhType::Sgl ==> (forall|l: int|
                    0 <= l < j ==> (((#[trigger] entry.h_data@[l]).hrpid is None
                        && entry.h_data@[l].lc4408_c_ahthuk11 == 1 && oas@.contains(
                        entry.h_data@[l].area,
                    )) ==> self.h_data@[l].is_filled())),
                forall|i: int|
                    0 <= i < entry.p_data@.len() ==> ((#[trigger] self.p_data@[i]).hid
                        != entry.p_data@[i].hid ==> (entry.p_data@[i].hid is None && (
                    self.p_data@[i].hid matches Some(hh2) && hh2.0 < entry.h_data@.len()
                        && class_in(hh_type, entry.h_data@[hh2.0 as int].lc4408_c_ahthuk11)
                        && oas@.contains(entry.h_data@[hh2.0 as int].area) && entry.h_data@[
                        hh2.0 as int
                    ].hrpid is None))),
                forall|l: int|
                    0 <= l < entry.h_data@.len() ==> ((#[trigger] self.h_data@[l]).hrpid
                        != entry.h_data@[l].hrpid ==> (entry.h_data@[l].hrpid is None && class_in(
                        hh_type,
                        entry.h_data@[l].lc4408_c_ahthuk11,
                    ) && oas@.contains(entry.h_data@[l].area) && (self.h_data@[l].hrpid
                        matches Some(q2) && q2.0 < entry.p_data@.len() && entry.p_data@[
                        q2.0 as int
                    ].hid is None && self.p_data@[q2.0 as int].hid == Some(HID(l as usize))))),
                forall|l: int|
                    0 <= l < entry.h_data@.len() ==> ((#[trigger] self.h_data@[l]).filled
                        != entry.h_data@[l].filled ==> (entry.h_data@[l].lc4408_c_ahthuk11 == 1
                        && class_in(hh_type, 1) && oas@.contains(entry.h_data@[l].area)
                        && !entry.h_data@[l].is_filled() && entry.h_data@[l].hrpid is None
                        && self.h_data@[l].hrpid is Some)),
                entry.h_data@.len() == 0 ==> (self.p_data@ == entry.p_data@
                    && self.queues.matched_set() == entry.queues.matched_set()
                    && self.queues.unmatched_set() == entry.queues.unmatched_set()),
            decreases n_houses - j,
        {
            let h_class = self.h_data[j].lc4408_c_ahthuk11;
            let h_area = self.h_data[j].area;
            let h_unanchored = self.h_data[j].hrpid.is_none();
            if class_matches(hh_type, h_class) && contains_oa(oas, h_area) && h_unanchored {
                let ghost a0 = *self;
                // Draw one reference-person row of the grouping's table.
                let idx = match weighted_choice(&mut self.rng, &weights) {
                    Some(i) => i,
                    None => {
                        proof {
                            assert(false);
                        }
                        return Err(AssignmentError::NoMatch);
                    },
                };
                let (r_age, r_sex, r_eth) = self.hrp_row(hh_type, idx);
                let sex = match r_sex {
                    Some(s) => s,
                    None => {
                        proof {
                            assert(entry.h_data@[j as int].hrpid is None
                                && class_in(hh_type, entry.h_data@[j as int].lc4408_c_ahthuk11)
                                && oas@.contains(entry.h_data@[j as int].area));
                            assert(self.hrp_table_spec(hh_type)[idx as int].sex is None);
                        }
                        return Err(AssignmentError::MissingSex);
                    },
                };
                // Find a person for the drawn demographic.
                let picked = self.queues.sample_person(
                    msoa,
                    r_age,
                    sex,
                    r_eth,
                    AdultOrChild::Adult,
                    &self.p_data,
                );
                let p = match picked {
                    Some(p) => p,
                    None => {
                        proof {
                            assert(entry.h_data@[j as int].hrpid is None
                                && class_in(hh_type, entry.h_data@[j as int].lc4408_c_ahthuk11)
                                && oas@.contains(entry.h_data@[j as int].area));
                        }
                        return Err(AssignmentError::NoMatch);
                    },
                };
                let ghost p_mid = self.p_data@;
                let hh_hid = self.h_data[j].hid;
                self.p_data[p].hid = Some(HID(hh_hid));
                self.h_data[j].hrpid = Some(PID(p));
                if h_class == 1 {
                    self.h_data[j].filled = Some(true);
                }
                proof {
                    self.queues.lemma_wf_same_demo(p_mid, self.p_data@);
                    assert(self.p_data@ =~= a0.p_data@.update(p as int, self.p_data@[p as int]));
                    assert(self.h_data@ =~= a0.h_data@.update(j as int, self.h_data@[j as int]));
                    lemma_wf_assign(a0, *self, p as int, j as int);
                    lemma_person_frame_trans(entry.p_data@, a0.p_data@, self.p_data@);
                    lemma_household_frame_trans(entry.h_data@, a0.h_data@, self.h_data@);
                }
            }
            j += 1;
        }
        Ok(())
    }

    /// Stage A: assigns a reference person to every unanchored household of
    /// the small-area set, one grouping after another in the fixed order.
    /// On success every household of a composition class within the
    /// small-area set is anchored.
    pub fn sample_hrp(&mut self, msoa: crate::MSOA, oas: &Vec<OA>) -> (r: Result<
        (),
        AssignmentError,
    >)
        requires
            old(self).wf(),
        ensures
            final(self).wf(),
            static_frame(*old(self), *final(self)),
            person_frame(old(self).p_data@, final(self).p_data@),
            household_frame(old(self).h_data@, final(self).h_data@),
            r is Ok ==> (forall|j: int|
                0 <= j < final(self).h_data@.len() ==> ((1 <= (
                #[trigger] final(self).h_data@[j]).lc4408_c_ahthuk11 <= 5 && oas@.contains(
                    final(self).h_data@[j].area,
                )) ==> final(self).h_data@[j].hrpid is Some)),
            r is Ok ==> (forall|j: int|
                0 <= j < old(self).h_data@.len() ==> (((#[trigger] old(self).h_data@[j]).hrpid is None
                    && old(self).h_data@[j].lc4408_c_ahthuk11 == 1 && oas@.contains(
                    old(self).h_data@[j].area,
                )) ==> final(self).h_data@[j].is_filled())),
            forall|i: int|
                0 <= i < old(self).p_data@.len() ==> ((#[trigger] final(self).p_data@[i]).hid
                    != old(self).p_data@[i].hid ==> (old(self).p_data@[i].hid is None && (final(self).p_data@[i].hid matches Some(hh2) && hh2.0 < old(self).h_data@.len() && 1 <= old(self).h_data@[hh2.0 as int].lc4408_c_ahthuk11 <= 5 && oas@.contains(
                    old(self).h_data@[hh2.0 as int].area,
                ) && old(self).h_data@[hh2.0 as int].hrpid is None))),
            forall|j: int|
                0 <= j < old(self).h_data@.len() ==> ((#[trigger] final(self).h_data@[j]).hrpid
                    != old(self).h_data@[j].hrpid ==> (old(self).h_data@[j].hrpid is None && 1 <= old(self).h_data@[j].lc4408_c_ahthuk11 <= 5 && oas@.contains(old(self).h_data@[j].area)
                    && (final(self).h_data@[j].hrpid matches Some(q2) && q2.0 < old(self).p_data@.len() && old(self).p_data@[q2.0 as int].hid is None && final(self).p_data@[
                    q2.0 as int
                ].hid == Some(HID(j as usize))))),
            forall|j: int|
                0 <= j < old(self).h_data@.len() ==> ((#[trigger] final(self).h_data@[j]).filled
                    != old(self).h_data@[j].filled ==> (old(self).h_data@[j].lc4408_c_ahthuk11 == 1
                    && oas@.contains(old(self).h_data@[j].area) && !old(self).h_data@[j].is_filled()
                    && old(self).h_data@[j].hrpid is None && final(self).h_data@[j].hrpid is Some)),
            (forall|j: int|
                0 <= j < old(self).h_data@.len() ==> !(1 <= (
                #[trigger] old(self).h_data@[j]).lc4408_c_ahthuk11 <= 5 && oas@.contains(
                    old(self).h_data@[j].area,
                ) && old(self).h_data@[j].hrpid is None)) ==> r is Ok,
            r == Err::<(), AssignmentError>(AssignmentError::NoMatch) ==> (forall|l: int|
                0 <= l < final(self).p_data@.len() && final(self).queues.unmatched_set().contains(
                    l as usize,
                ) ==> !((#[trigger] final(self).p_data@[l]).msoa == msoa && final(self).p_data@[l].is_adult())),
            r == Err::<(), AssignmentError>(AssignmentError::MissingSex) ==> (exists|
                t: HhType,
                i: int,
            |
                0 <= i < final(self).hrp_table_spec(t).len() && final(self).hrp_table_spec(
                    t,
                )[i].sex is None),
            old(self).h_data@.len() == 0 ==> r is Ok && final(self).p_data@ == old(self).p_data@
                && final(self).queues.matched_set() == old(self).queues.matched_set() && final(self).queues.unmatched_set() == old(self).queues.unmatched_set(),
            (match r {
                Ok(()) => true,
                Err(e) => e == AssignmentError::MissingSex || e == AssignmentError::NoMatch,
            }),
    {
        let ghost s0 = *self;
        let r1 = self.sample_hrp_for(msoa, oas, HhType::Sgl);
        if let Err(e) = r1 {
            proof {
                lemma_person_frame_trans(s0.p_data@, s0.p_data@, self.p_data@);
                let jw = choose|j: int|
                    0 <= j < s0.h_data@.len() && class_in(
                        HhType::Sgl,
                        s0.h_data@[j].lc4408_c_ahthuk11,
                    ) && oas@.contains(s0.h_data@[j].area) && s0.h_data@[j].hrpid is None;
                assert(1 <= s0.h_data@[jw].lc4408_c_ahthuk11 <= 5);
                if e == AssignmentError::MissingSex {
                    assert(exists|i: int|
                        0 <= i < self.hrp_table_spec(HhType::Sgl).len() && self.hrp_table_spec(
                            HhType::Sgl,
                        )[i].sex is None);
                }
            }
            return Err(e);
        }
        let ghost s1 = *self;
        let r2 = self.sample_hrp_for(msoa, oas, HhType::Cpl);
        proof {
            lemma_person_frame_trans(s0.p_data@, s1.p_data@, self.p_data@);
            lemma_household_frame_trans(s0.h_data@, s1.h_data@, self.h_data@);
        }
        if let Err(e) = r2 {
            proof {
                let jw = choose|j: int|
                    0 <= j < s1.h_data@.len() && class_in(
                        HhType::Cpl,
                        s1.h_data@[j].lc4408_c_ahthuk11,
                    ) && oas@.contains(s1.h_data@[j].area) && s1.h_data@[j].hrpid is None;
                assert(s1.h_data@[jw].lc4408_c_ahthuk11 == s0.h_data@[jw].lc4408_c_ahthuk11
                    && s1.h_data@[jw].area == s0.h_data@[jw].area);
                assert(s0.h_data@[jw].hrpid is None);
                assert(1 <= s0.h_data@[jw].lc4408_c_ahthuk11 <= 5);
                if e == AssignmentError::MissingSex {
                    assert(exists|i: int|
                        0 <= i < self.hrp_table_spec(HhType::Cpl).len() && self.hrp_table_spec(
                            HhType::Cpl,
                        )[i].sex is None);
                }
            }
            return Err(e);
        }
        let ghost s2 = *self;
        let r3 = self.sample_hrp_for(msoa, oas, HhType::Sp);
        proof {
            lemma_person_frame_trans(s0.p_data@, s2.p_data@, self.p_data@);
            lemma_household_frame_trans(s0.h_data@, s2.h_data@, self.h_data@);
        }
        if let Err(e) = r3 {
            proof {
                let jw = choose|j: int|
                    0 <= j < s2.h_data@.len() && class_in(
                        HhType::Sp,
                        s2.h_data@[j].lc4408_c_ahthuk11,
                    ) && oas@.contains(s2.h_data@[j].area) && s2.h_data@[j].hrpid is None;
                assert(s2.h_data@[jw].lc4408_c_ahthuk11 == s0.h_data@[jw].lc4408_c_ahthuk11
                    && s2.h_data@[jw].area == s0.h_data@[jw].area);
                assert(s0.h_data@[jw].hrpid is None);
                assert(1 <= s0.h_data@[jw].lc4408_c_ahthuk11 <= 5);
                if e == AssignmentError::MissingSex {
                    assert(exists|i: int|
                        0 <= i < self.hrp_table_spec(HhType::Sp).len() && self.hrp_table_spec(
                            HhType::Sp,
                        )[i].sex is None);
                }
            }
            return Err(e);
        }
        let ghost s3 = *self;
        let r4 = self.sample_hrp_for(msoa, oas, HhType::Mix);
        proof {
            lemma_person_frame_trans(s0.p_data@, s3.p_data@, self.p_data@);
            lemma_household_frame_trans(s0.h_data@, s3.h_data@, self.h_data@);
        }
        if let Err(e) = r4 {
            proof {
                let jw = choose|j: int|
                    0 <= j < s3.h_data@.len() && class_in(
                        HhType::Mix,
                        s3.h_data@[j].lc4408_c_ahthuk11,
                    ) && oas@.contains(s3.h_data@[j].area) && s3.h_data@[j].hrpid is None;
                assert(s3.h_data@[jw].lc4408_c_ahthuk11 == s0.h_data@[jw].lc4408_c_ahthuk11
                    && s3.h_data@[jw].area == s0.h_data@[jw].area);
                assert(s0.h_data@[jw].hrpid is None);
                assert(1 <= s0.h_data@[jw].lc4408_c_ahthuk11 <= 5);
                if e == AssignmentError::MissingSex {
                    assert(exists|i: int|
                        0 <= i < self.hrp_table_spec(HhType::Mix).len() && self.hrp_table_spec(
                            HhType::Mix,
                        )[i].sex is None);
                }
            }
            return Err(e);
        }
        proof {
            lemma_class_partition();
            assert forall|j: int|
                0 <= j < self.h_data@.len() && 1 <= (
                #[trigger] self.h_data@[j]).lc4408_c_ahthuk11 <= 5 && oas@.contains(
                    self.h_data@[j].area,
                ) implies self.h_data@[j].hrpid is Some by {
                let c = self.h_data@[j].lc4408_c_ahthuk11;
                if class_in(HhType::Sgl, c) {
                    assert(s1.h_data@[j].hrpid is Some);
                    assert(household_frame(s1.h_data@, s2.h_data@));
                    assert(s2.h_data@[j].hrpid == s1.h_data@[j].hrpid);
                    assert(s3.h_data@[j].hrpid == s2.h_data@[j].hrpid);
                    assert(self.h_data@[j].hrpid == s3.h_data@[j].hrpid);
                } else if class_in(HhType::Cpl, c) {
                    assert(s2.h_data@[j].hrpid is Some);
                    assert(s3.h_data@[j].hrpid == s2.h_data@[j].hrpid);
                    assert(self.h_data@[j].hrpid == s3.h_data@[j].hrpid);
                } else if class_in(HhType::Sp, c) {
                    assert(s3.h_data@[j].hrpid is Some);
                    assert(self.h_data@[j].hrpid == s3.h_data@[j].hrpid);
                } else {
                    assert(class_in(HhType::Mix, c));
                    assert(self.h_data@[j].hrpid is Some);
                }
            }
            assert forall|j: int|
                0 <= j < s0.h_data@.len() && (#[trigger] s0.h_data@[j]).hrpid is None
                && s0.h_data@[j].lc4408_c_ahthuk11 == 1 && oas@.contains(
                s0.h_data@[j].area,
            ) implies self.h_data@[j].is_filled() by {
                assert(s1.h_data@[j].is_filled());
                assert(s2.h_data@[j].is_filled());
                assert(s3.h_data@[j].is_filled());
            }
            assert forall|i: int|
                0 <= i < s0.p_data@.len() && (#[trigger] self.p_data@[i]).hid
                != s0.p_data@[i].hid implies (s0.p_data@[i].hid is None && (self.p_data@[i].hid
                matches Some(hh2) && hh2.0 < s0.h_data@.len() && 1 <= s0.h_data@[
                hh2.0 as int
            ].lc4408_c_ahthuk11 <= 5 && oas@.contains(s0.h_data@[hh2.0 as int].area) && s0.h_data@[
                hh2.0 as int
            ].hrpid is None)) by {
                if self.p_data@[i].hid != s3.p_data@[i].hid {
                } else if s3.p_data@[i].hid != s2.p_data@[i].hid {
                    assert(s3.p_data@[i].hid is Some);
                    assert(self.p_data@[i].hid == s3.p_data@[i].hid);
                } else if s2.p_data@[i].hid != s1.p_data@[i].hid {
                    assert(s2.p_data@[i].hid is Some);
                    assert(s3.p_data@[i].hid == s2.p_data@[i].hid);
                } else {
                    assert(s1.p_data@[i].hid != s0.p_data@[i].hid);
                    assert(s1.p_data@[i].hid is Some);
                    assert(s2.p_data@[i].hid == s1.p_data@[i].hid);
                }
            }
            assert forall|j: int|
                0 <= j < s0.h_data@.len() && (#[trigger] self.h_data@[j]).hrpid
                != s0.h_data@[j].hrpid implies (s0.h_data@[j].hrpid is None && 1 <= s0.h_data@[
                j
            ].lc4408_c_ahthuk11 <= 5 && oas@.contains(s0.h_data@[j].area) && (self.h_data@[j].hrpid
                matches Some(q2) && q2.0 < s0.p_data@.len() && s0.p_data@[q2.0 as int].hid is None
                && self.p_data@[q2.0 as int].hid == Some(HID(j as usize)))) by {
                if self.h_data@[j].hrpid != s3.h_data@[j].hrpid {
                } else if s3.h_data@[j].hrpid != s2.h_data@[j].hrpid {
                    assert(s3.h_data@[j].hrpid is Some);
                    assert(self.h_data@[j].hrpid == s3.h_data@[j].hrpid);
                    let q2 = s3.h_data@[j].hrpid->Some_0;
                    assert(s3.p_data@[q2.0 as int].hid == Some(HID(j as usize)));
                    assert(self.p_data@[q2.0 as int].hid == Some(HID(j as usize)));
                } else if s2.h_data@[j].hrpid != s1.h_data@[j].hrpid {
                    assert(s2.h_data@[j].hrpid is Some);
                    assert(s3.h_data@[j].hrpid == s2.h_data@[j].hrpid);
                    let q2 = s2.h_data@[j].hrpid->Some_0;
                    assert(s2.p_data@[q2.0 as int].hid == Some(HID(j as usize)));
                    assert(s3.p_data@[q2.0 as int].hid == Some(HID(j as usize)));
                    assert(self.p_data@[q2.0 as int].hid == Some(HID(j as usize)));
                } else {
                    assert(s1.h_data@[j].hrpid != s0.h_data@[j].hrpid);
                    assert(s1.h_data@[j].hrpid is Some);
                    assert(s2.h_data@[j].hrpid == s1.h_data@[j].hrpid);
                    let q2 = s1.h_data@[j].hrpid->Some_0;
                    assert(s1.p_data@[q2.0 as int].hid == Some(HID(j as usize)));
                    assert(s2.p_data@[q2.0 as int].hid == Some(HID(j as usize)));
                    assert(s3.p_data@[q2.0 as int].hid == Some(HID(j as usize)));
                    assert(self.p_data@[q2.0 as int].hid == Some(HID(j as usize)));
                }
            }
            assert forall|j: int|
                0 <= j < s0.h_data@.len() && (#[trigger] self.h_data@[j]).filled
                != s0.h_data@[j].filled implies (s0.h_data@[j].lc4408_c_ahthuk11 == 1
                && oas@.contains(s0.h_data@[j].area) && !s0.h_data@[j].is_filled() && s0.h_data@[
                j
            ].hrpid is None && self.h_data@[j].hrpid is Some) by {
                if self.h_data@[j].filled != s3.h_data@[j].filled {
                } else if s3.h_data@[j].filled != s2.h_data@[j].filled {
                    assert(s3.h_data@[j].hrpid is Some);
                } else if s2.h_data@[j].filled != s1.h_data@[j].filled {
                    assert(s2.h_data@[j].hrpid is Some);
                    assert(s3.h_data@[j].hrpid == s2.h_data@[j].hrpid);
                } else {
                    assert(s1.h_data@[j].filled != s0.h_data@[j].filled);
                    assert(s1.h_data@[j].hrpid is Some);
                    assert(s2.h_data@[j].hrpid == s1.h_data@[j].hrpid);
                    assert(s3.h_data@[j].hrpid == s2.h_data@[j].hrpid);
                }
            }
        }
        Ok(())
    }
}

/// The rows of the partner table matching the requested reference-person
/// age and ethnicity (each filter optional), as parallel index and weight
/// columns. With no filter this is the whole table.
fn partner_rows(
    t: &Vec<PartnerHRPerson>,
    age: crate::Age,
    eth: Eth,
    by_age: bool,
    by_eth: bool,
) -> (r: (Vec<usize>, Vec<usize>))
    ensures
        r.0@.len() == r.1@.len(),
        forall|l: int|
            0 <= l < r.0@.len() ==> (#[trigger] r.0@[l]) < t@.len() && r.1@[l] == t@[r.0@[
                l
            ] as int].n && (by_age ==> t@[r.0@[l] as int].agehrp == age) && (by_eth ==> t@[r.0@[
                l
            ] as int].eth == eth),
        sum_weights(r.1@) <= sum_weights(partner_weights_spec(t@)),
        !by_age && !by_eth ==> r.1@ == partner_weights_spec(t@),
{
    let ghost wsp = partner_weights_spec(t@);
    let mut idxs: Vec<usize> = Vec::new();
    let mut ws: Vec<usize> = Vec::new();
    let mut j: usize = 0;
    let n = t.len();
    while j < n
        invariant
            n == t@.len(),
            j <= n,
            wsp == partner_weights_spec(t@),
            idxs@.len() == ws@.len(),
            forall|l: int|
                0 <= l < idxs@.len() ==> (#[trigger] idxs@[l]) < t@.len() && ws@[l] == t@[idxs@[
                    l
                ] as int].n && (by_age ==> t@[idxs@[l] as int].agehrp == age) && (by_eth ==> t@[
                    idxs@[l] as int
                ].eth == eth),
            sum_weights(ws@) <= sum_weights(wsp.take(j as int)),
            !by_age && !by_eth ==> ws@ == wsp.take(j as int),
        decreases n - j,
    {
        let keep = (!by_age || t[j].agehrp.0 == age.0) && (!by_eth || t[j].eth.0 == eth.0);
        proof {
            lemma_sum_take_next(wsp, j as int);
            assert(wsp[j as int] == t@[j as int].n);
        }
        if keep {
            let ghost ws0 = ws@;
            idxs.push(j);
            ws.push(t[j].n);
            proof {
                lemma_sum_push(ws0, t@[j as int].n);
                assert(wsp.take(j as int + 1) =~= wsp.take(j as int).push(t@[j as int].n));
            }
        }
        j += 1;
    }
    proof {
        assert(wsp.take(n as int) =~= wsp);
    }
    (idxs, ws)
}

/// The rows of the child table matching the requested reference-person age
/// and ethnicity (each filter optional), as parallel index and weight
/// columns. With no filter this is the whole table.
fn child_rows(
    t: &Vec<ChildHRPerson>,
    age: crate::Age,
    eth: Eth,
    by_age: bool,
    by_eth: bool,
) -> (r: (Vec<usize>, Vec<usize>))
    ensures
        r.0@.len() == r.1@.len(),
        forall|l: int|
            0 <= l < r.0@.len() ==> (#[trigger] r.0@[l]) < t@.len() && r.1@[l] == t@[r.0@[
                l
            ] as int].n && (by_age ==> t@[r.0@[l] as int].agehrp == age) && (by_eth ==> t@[r.0@[
                l
            ] as int].eth == eth),
        sum_weights(r.1@) <= sum_weights(child_weights_spec(t@)),
        !by_age && !by_eth ==> r.1@ == child_weights_spec(t@),
        forall|i: int|
            0 <= i < t@.len() && (by_age ==> (#[trigger] t@[i]).agehrp == age) && (by_eth
                ==> t@[i].eth == eth) ==> (exists|l: int| 0 <= l < r.0@.len() && r.0@[l] == i),
{
    let ghost wsp = child_weights_spec(t@);
    let mut idxs: Vec<usize> = Vec::new();
    let mut ws: Vec<usize> = Vec::new();
    let mut j: usize = 0;
    let n = t.len();
    while j < n
        invariant
            n == t@.len(),
            j <= n,
            wsp == child_weights_spec(t@),
            idxs@.len() == ws@.len(),
            forall|l: int|
                0 <= l < idxs@.len() ==> (#[trigger] idxs@[l]) < t@.len() && ws@[l] == t@[idxs@[
                    l
                ] as int].n && (by_age ==> t@[idxs@[l] as int].agehrp == age) && (by_eth ==> t@[
                    idxs@[l] as int
                ].eth == eth),
            sum_weights(ws@) <= sum_weights(wsp.take(j as int)),
            !by_age && !by_eth ==> ws@ == wsp.take(j as int),
            forall|i: int|
                0 <= i < j && (by_age ==> (#[trigger] t@[i]).agehrp == age) && (by_eth ==> t@[
                    i
                ].eth == eth) ==> (exists|l: int| 0 <= l < idxs@.len() && idxs@[l] == i),
        decreases n - j,
    {
        let keep = (!by_age || t[j].agehrp.0 == age.0) && (!by_eth || t[j].eth.0 == eth.0);
        proof {
            lemma_sum_take_next(wsp, j as int);
            assert(wsp[j as int] == t@[j as int].n);
        }
        if keep {
            let ghost ws0 = ws@;
            let ghost idxs0 = idxs@;
            idxs.push(j);
            ws.push(t[j].n);
            proof {
                lemma_sum_push(ws0, t@[j as int].n);
                assert(wsp.take(j as int + 1) =~= wsp.take(j as int).push(t@[j as int].n));
                assert(idxs@[idxs@.len() - 1] == j);
                assert forall|i: int|
                    0 <= i < j && (by_age ==> (#[trigger] t@[i]).agehrp == age) && (by_eth ==> t@[
                        i
                    ].eth == eth) implies (exists|l: int|
                    0 <= l < idxs@.len() && idxs@[l] == i) by {
                    let l0 = choose|l0: int| 0 <= l0 < idxs0.len() && idxs0[l0] == i;
                    assert(idxs@[l0] == i);
                }
            }
        }
        j += 1;
    }
    proof {
        assert(wsp.take(n as int) =~= wsp);
    }
    (idxs, ws)
}

impl Assignment {
    /// Stage B: assigns a partner to each unfilled couple household of the
    /// small-area set. The partner row is drawn preferring rows matching the
    /// reference person's age and ethnicity, then age alone, then the whole
    /// table; a subgroup without positive weight falls through. The partner's
    /// sex follows the drawn row's same-sex flag. A household sized for two
    /// is then filled; a miss is tolerated and the household left as it is.
    #[verifier::rlimit(60)]
    pub fn sample_partner(&mut self, msoa: crate::MSOA, oas: &Vec<OA>)
        requires
            old(self).wf(),
            forall|j: int|
                0 <= j < old(self).h_data@.len() ==> {
                    let h = #[trigger] old(self).h_data@[j];
                    ((h.lc4408_c_ahthuk11 == 2 || h.lc4408_c_ahthuk11 == 3) && oas@.contains(h.area)
                        && !h.is_filled()) ==> h.hrpid is Some
                },
        ensures
            final(self).wf(),
            static_frame(*old(self), *final(self)),
            person_frame(old(self).p_data@, final(self).p_data@),
            household_frame(old(self).h_data@, final(self).h_data@),
            unmatched_adult_remains(*final(self), msoa) ==> (forall|j: int|
                0 <= j < old(self).h_data@.len() ==> {
                    let h = #[trigger] old(self).h_data@[j];
                    ((h.lc4408_c_ahthuk11 == 2 || h.lc4408_c_ahthuk11 == 3) && oas@.contains(
                        h.area,
                    ) && !h.is_filled() && h.lc4404_c_sizhuk11 == 2) ==> final(self).h_data@[j].is_filled()
                }),
            forall|i: int|
                0 <= i < old(self).p_data@.len() ==> ((#[trigger] final(self).p_data@[i]).hid
                    != old(self).p_data@[i].hid ==> (old(self).p_data@[i].hid is None && (final(self).p_data@[i].hid matches Some(hh2) && hh2.0 < old(self).h_data@.len() && (old(self).h_data@[hh2.0 as int].lc4408_c_ahthuk11 == 2 || old(self).h_data@[
                    hh2.0 as int
                ].lc4408_c_ahthuk11 == 3) && oas@.contains(old(self).h_data@[hh2.0 as int].area)
                    && !old(self).h_data@[hh2.0 as int].is_filled()))),
            forall|i1: int, i2: int|
                0 <= i1 < old(self).p_data@.len() && 0 <= i2 < old(self).p_data@.len() && (
                #[trigger] final(self).p_data@[i1]).hid != old(self).p_data@[i1].hid && (
                #[trigger] final(self).p_data@[i2]).hid != old(self).p_data@[i2].hid && final(self).p_data@[i1].hid == final(self).p_data@[i2].hid ==> i1 == i2,
            forall|j: int|
                0 <= j < old(self).h_data@.len() ==> ((#[trigger] final(self).h_data@[j]).filled
                    != old(self).h_data@[j].filled ==> ((old(self).h_data@[j].lc4408_c_ahthuk11
                    == 2 || old(self).h_data@[j].lc4408_c_ahthuk11 == 3) && oas@.contains(
                    old(self).h_data@[j].area,
                ) && !old(self).h_data@[j].is_filled() && old(self).h_data@[j].lc4404_c_sizhuk11
                    == 2 && (exists|i: int|
                    0 <= i < final(self).p_data@.len() && (#[trigger] final(self).p_data@[i]).hid
                        == Some(HID(j as usize)) && old(self).p_data@[i].hid is None))),
            old(self).h_data@.len() == 0 ==> final(self).p_data@ == old(self).p_data@ && final(self).queues.matched_set() == old(self).queues.matched_set() && final(self).queues.unmatched_set() == old(self).queues.unmatched_set(),
    {
        let ghost entry = *old(self);
        let n_houses = self.h_data.len();
        let mut j: usize = 0;
        while j < n_houses
            invariant
                self.wf(),
                entry == *old(self),
                n_houses == self.h_data@.len(),
                j <= n_houses,
                static_frame(entry, *self),
                person_frame(entry.p_data@, self.p_data@),
                household_frame(entry.h_data@, self.h_data@),
                forall|l: int|
                    0 <= l < entry.h_data@.len() ==> {
                        let h = #[trigger] entry.h_data@[l];
                        ((h.lc4408_c_ahthuk11 == 2 || h.lc4408_c_ahthuk11 == 3) && oas@.contains(
                            h.area,
                        ) && !h.is_filled()) ==> h.hrpid is Some
                    },
                forall|l: int|
                    0 <= l < j ==> {
                        let h = #[trigger] entry.h_data@[l];
                        ((h.lc4408_c_ahthuk11 == 2 || h.lc4408_c_ahthuk11 == 3) && oas@.contains(
                            h.area,
                        ) && !h.is_filled() && h.lc4404_c_sizhuk11 == 2) ==> (
                        self.h_data@[l].is_filled() || !unmatched_adult_remains(*self, msoa))
                    },
                forall|i: int|
                    0 <= i < entry.p_data@.len() ==> ((#[trigger] self.p_data@[i]).hid
                        != entry.p_data@[i].hid ==> (entry.p_data@[i].hid is None && (
                    self.p_data@[i].hid matches Some(hh2) && hh2.0 < entry.h_data@.len() && (
                    entry.h_data@[hh2.0 as int].lc4408_c_ahthuk11 == 2 || entry.h_data@[
                        hh2.0 as int
                    ].lc4408_c_ahthuk11 == 3) && oas@.contains(entry.h_data@[hh2.0 as int].area)
                        && !entry.h_data@[hh2.0 as int].is_filled()))),
                forall|i: int|
                    0 <= i < entry.p_data@.len() ==> ((#[trigger] self.p_data@[i]).hid
                        != entry.p_data@[i].hid ==> (self.p_data@[i].hid matches Some(hh3)
                        && hh3.0 < j)),
                forall|i1: int, i2: int|
                    0 <= i1 < entry.p_data@.len() && 0 <= i2 < entry.p_data@.len() && (
                    #[trigger] self.p_data@[i1]).hid != entry.p_data@[i1].hid && (
                    #[trigger] self.p_data@[i2]).hid != entry.p_data@[i2].hid && self.p_data@[
                    i1
                ].hid == self.p_data@[i2].hid ==> i1 == i2,
                forall|l: int|
                    0 <= l < entry.h_data@.len() ==> ((#[trigger] self.h_data@[l]).filled
                        != entry.h_data@[l].filled ==> ((entry.h_data@[l].lc4408_c_ahthuk11 == 2
                        || entry.h_data@[l].lc4408_c_ahthuk11 == 3) && oas@.contains(
                        entry.h_data@[l].area,
                    ) && !entry.h_data@[l].is_filled() && entry.h_data@[l].lc4404_c_sizhuk11 == 2
                        && (exists|i: int|
                        0 <= i < self.p_data@.len() && (#[trigger] self.p_data@[i]).hid == Some(
                            HID(l as usize),
                        ) && entry.p_data@[i].hid is None))),
                entry.h_data@.len() == 0 ==> (self.p_data@ == entry.p_data@
                    && self.queues.matched_set() == entry.queues.matched_set()
                    && self.queues.unmatched_set() == entry.queues.unmatched_set()),
            decreases n_houses - j,
        {
            let h_class = self.h_data[j].lc4408_c_ahthuk11;
            let h_area = self.h_data[j].area;
            let h_filled = match self.h_data[j].filled {
                Some(b) => b,
                None => false,
            };
            if (h_class == 2 || h_class == 3) && contains_oa(oas, h_area) && !h_filled {
                let ghost a0 = *self;
                let hrpid = match self.h_data[j].hrpid {
                    Some(p) => p,
                    None => {
                        proof {
                            assert(entry.h_data@[j as int].hrpid is Some);
                            assert(false);
                        }
                        return ;
                    },
                };
                let hrp_age = self.p_data[hrpid.0].age;
                let hrp_sex = self.p_data[hrpid.0].sex;
                let hrp_eth = self.p_data[hrpid.0].eth;
                // Pick the distribution: age and ethnicity, then age, then
                // the whole table.
                let (idxs, ws) = partner_rows(&self.partner_hrp_dist, hrp_age, hrp_eth, true, true);
                let mut pick = weighted_choice(&mut self.rng, &ws);
                let mut picked_idx: usize = 0;
                let mut have = false;
                match pick {
                    Some(k) => {
                        picked_idx = idxs[k];
                        have = true;
                    },
                    None => {},
                }
                if !have {
                    let (idxs2, ws2) = partner_rows(
                        &self.partner_hrp_dist,
                        hrp_age,
                        hrp_eth,
                        true,
                        false,
                    );
                    pick = weighted_choice(&mut self.rng, &ws2);
                    match pick {
                        Some(k) => {
                            picked_idx = idxs2[k];
                            have = true;
                        },
                        None => {},
                    }
                }
                if !have {
                    let (idxs3, ws3) = partner_rows(
                        &self.partner_hrp_dist,
                        hrp_age,
                        hrp_eth,
                        false,
                        false,
                    );
                    pick = weighted_choice(&mut self.rng, &ws3);
                    match pick {
                        Some(k) => {
                            picked_idx = idxs3[k];
                        },
                        None => {
                            proof {
                                assert(false);
                            }
                            return ;
                        },
                    }
                }
                let row_age = self.partner_hrp_dist[picked_idx].age;
                let row_samesex = self.partner_hrp_dist[picked_idx].samesex;
                let row_eth_ew = self.partner_hrp_dist[picked_idx].ethnicityew;
                let sex = if row_samesex {
                    hrp_sex
                } else {
                    hrp_sex.opposite()
                };
                let eth = Eth::from_ew(row_eth_ew);
                let picked = self.queues.sample_person(
                    msoa,
                    row_age,
                    sex,
                    eth,
                    AdultOrChild::Adult,
                    &self.p_data,
                );
                match picked {
                    Some(p) => {
                        let ghost p_mid = self.p_data@;
                        let hh_hid = self.h_data[j].hid;
                        self.p_data[p].hid = Some(HID(hh_hid));
                        if self.h_data[j].lc4404_c_sizhuk11 == 2 {
                            self.h_data[j].filled = Some(true);
                        }
                        proof {
                            self.queues.lemma_wf_same_demo(p_mid, self.p_data@);
                            assert(self.p_data@ =~= a0.p_data@.update(
                                p as int,
                                self.p_data@[p as int],
                            ));
                            assert(self.h_data@ =~= a0.h_data@.update(
                                j as int,
                                self.h_data@[j as int],
                            ));
                            lemma_wf_assign(a0, *self, p as int, j as int);
                            lemma_person_frame_trans(entry.p_data@, a0.p_data@, self.p_data@);
                            lemma_household_frame_trans(entry.h_data@, a0.h_data@, self.h_data@);
                            lemma_adult_remains_shrinks(a0, *self, msoa);
                            assert(entry.p_data@[p as int].hid is None);
                            assert forall|l: int|
                                0 <= l < entry.h_data@.len() && (#[trigger] self.h_data@[l]).filled
                                != entry.h_data@[l].filled implies ((
                            entry.h_data@[l].lc4408_c_ahthuk11 == 2
                                || entry.h_data@[l].lc4408_c_ahthuk11 == 3) && oas@.contains(
                                entry.h_data@[l].area,
                            ) && !entry.h_data@[l].is_filled() && entry.h_data@[
                                l
                            ].lc4404_c_sizhuk11 == 2 && (exists|i: int|
                                0 <= i < self.p_data@.len() && (#[trigger] self.p_data@[i]).hid
                                    == Some(HID(l as usize)) && entry.p_data@[i].hid is None)) by {
                                if l == j {
                                    assert(self.p_data@[p as int].hid == Some(HID(l as usize))
                                        && entry.p_data@[p as int].hid is None);
                                } else {
                                    assert(self.h_data@[l] == a0.h_data@[l]);
                                    let iw = choose|iw: int|
                                        0 <= iw < a0.p_data@.len() && (
                                        #[trigger] a0.p_data@[iw]).hid == Some(HID(l as usize))
                                            && entry.p_data@[iw].hid is None;
                                    assert(iw != p as int);
                                    assert(self.p_data@[iw].hid == Some(HID(l as usize)));
                                }
                            }
                        }
                    },
                    None => {
                        proof {
                            assert(!unmatched_adult_remains(*self, msoa)) by {
                                if unmatched_adult_remains(*self, msoa) {
                                    let l = choose|l: int|
                                        0 <= l < self.p_data@.len()
                                            && self.queues.unmatched_set().contains(l as usize)
                                            && (#[trigger] self.p_data@[l]).msoa == msoa
                                            && self.p_data@[l].is_adult();
                                    assert(!(self.p_data@[l].msoa == msoa
                                        && self.p_data@[l].is_adult()));
                                }
                            }
                        }
                    },
                }
            }
            j += 1;
        }
    }

    /// Stage C: assigns one child to each unfilled household of the given
    /// size and parent kind within the small-area set. Single-parent
    /// households fall back from (age, ethnicity) through age and ethnicity
    /// to the whole child table; couple households use only the exact
    /// subgroup and are skipped when it is empty. A miss is tolerated.
    #[verifier::rlimit(60)]
    pub fn sample_child(
        &mut self,
        msoa: crate::MSOA,
        oas: &Vec<OA>,
        num_occ: i32,
        mark_filled: bool,
        parent: Parent,
    )
        requires
            old(self).wf(),
            forall|j: int|
                0 <= j < old(self).h_data@.len() ==> {
                    let h = #[trigger] old(self).h_data@[j];
                    (1 <= h.lc4408_c_ahthuk11 <= 5 && oas@.contains(h.area) && !h.is_filled())
                        ==> h.hrpid is Some
                },
        ensures
            final(self).wf(),
            static_frame(*old(self), *final(self)),
            person_frame(old(self).p_data@, final(self).p_data@),
            household_frame(old(self).h_data@, final(self).h_data@),
            (unmatched_child_remains(*final(self), msoa, crate::Sex(1)) && unmatched_child_remains(
                *final(self),
                msoa,
                crate::Sex(2),
            ) && mark_filled) ==> (forall|j: int|
                0 <= j < old(self).h_data@.len() ==> {
                    let h = #[trigger] old(self).h_data@[j];
                    (oas@.contains(h.area) && h.lc4404_c_sizhuk11 == num_occ && (match parent {
                        Parent::Single => h.lc4408_c_ahthuk11 == 4,
                        Parent::Couple => h.lc4408_c_ahthuk11 == 2 || h.lc4408_c_ahthuk11 == 3,
                    }) && !h.is_filled() && (match parent {
                        Parent::Single => true,
                        Parent::Couple => (match h.hrpid {
                            Some(q) => q.0 < old(self).p_data@.len() && couple_child_subgroup(
                                old(self).child_hrp_dist@,
                                old(self).p_data@[q.0 as int].age,
                                old(self).p_data@[q.0 as int].eth,
                            ),
                            None => false,
                        }),
                    })) ==> final(self).h_data@[j].is_filled()
                }),
            forall|i: int|
                0 <= i < old(self).p_data@.len() ==> ((#[trigger] final(self).p_data@[i]).hid
                    != old(self).p_data@[i].hid ==> (old(self).p_data@[i].hid is None && (final(self).p_data@[i].hid matches Some(hh2) && hh2.0 < old(self).h_data@.len() && (match parent {
                    Parent::Single => old(self).h_data@[hh2.0 as int].lc4408_c_ahthuk11 == 4,
                    Parent::Couple => old(self).h_data@[hh2.0 as int].lc4408_c_ahthuk11 == 2 || old(self).h_data@[hh2.0 as int].lc4408_c_ahthuk11 == 3,
                }) && old(self).h_data@[hh2.0 as int].lc4404_c_sizhuk11 == num_occ && oas@.contains(
                    old(self).h_data@[hh2.0 as int].area,
                ) && !old(self).h_data@[hh2.0 as int].is_filled()))),
            forall|i1: int, i2: int|
                0 <= i1 < old(self).p_data@.len() && 0 <= i2 < old(self).p_data@.len() && (
                #[trigger] final(self).p_data@[i1]).hid != old(self).p_data@[i1].hid && (
                #[trigger] final(self).p_data@[i2]).hid != old(self).p_data@[i2].hid && final(self).p_data@[i1].hid == final(self).p_data@[i2].hid ==> i1 == i2,
            forall|j: int|
                0 <= j < old(self).h_data@.len() ==> ((#[trigger] final(self).h_data@[j]).filled
                    != old(self).h_data@[j].filled ==> (oas@.contains(old(self).h_data@[j].area)
                    && old(self).h_data@[j].lc4404_c_sizhuk11 == num_occ && (match parent {
                    Parent::Single => old(self).h_data@[j].lc4408_c_ahthuk11 == 4,
                    Parent::Couple => old(self).h_data@[j].lc4408_c_ahthuk11 == 2 || old(self).h_data@[j].lc4408_c_ahthuk11 == 3,
                }) && !old(self).h_data@[j].is_filled() && mark_filled && (match parent {
                    Parent::Single => true,
                    Parent::Couple => (match old(self).h_data@[j].hrpid {
                        Some(q) => q.0 < old(self).p_data@.len() && couple_child_subgroup(
                            old(self).child_hrp_dist@,
                            old(self).p_data@[q.0 as int].age,
                            old(self).p_data@[q.0 as int].eth,
                        ),
                        None => false,
                    }),
                }) && (exists|i: int|
                    0 <= i < final(self).p_data@.len() && (#[trigger] final(self).p_data@[i]).hid
                        == Some(HID(j as usize)) && old(self).p_data@[i].hid is None))),
            old(self).h_data@.len() == 0 ==> final(self).p_data@ == old(self).p_data@ && final(self).queues.matched_set() == old(self).queues.matched_set() && final(self).queues.unmatched_set() == old(self).queues.unmatched_set(),
    {
        let ghost entry = *old(self);
        let n_houses = self.h_data.len();
        let mut j: usize = 0;
        while j < n_houses
            invariant
                self.wf(),
                entry == *old(self),
                n_houses == self.h_data@.len(),
                j <= n_houses,
                static_frame(entry, *self),
                person_frame(entry.p_data@, self.p_data@),
                household_frame(entry.h_data@, self.h_data@),
                forall|l: int|
                    0 <= l < entry.h_data@.len() ==> {
                        let h = #[trigger] entry.h_data@[l];
                        (1 <= h.lc4408_c_ahthuk11 <= 5 && oas@.contains(h.area) && !h.is_filled())
                            ==> h.hrpid is Some
                    },
                forall|i: int|
                    0 <= i < entry.p_data@.len() ==> ((#[trigger] self.p_data@[i]).hid
                        != entry.p_data@[i].hid ==> (entry.p_data@[i].hid is None && (
                    self.p_data@[i].hid matches Some(hh2) && hh2.0 < entry.h_data@.len() && (
                    match parent {
                        Parent::Single => entry.h_data@[hh2.0 as int].lc4408_c_ahthuk11 == 4,
                        Parent::Couple => entry.h_data@[hh2.0 as int].lc4408_c_ahthuk11 == 2
                            || entry.h_data@[hh2.0 as int].lc4408_c_ahthuk11 == 3,
                    }) && entry.h_data@[hh2.0 as int].lc4404_c_sizhuk11 == num_occ && oas@.contains(
                        entry.h_data@[hh2.0 as int].area,
                    ) && !entry.h_data@[hh2.0 as int].is_filled()))),
                forall|i: int|
                    0 <= i < entry.p_data@.len() ==> ((#[trigger] self.p_data@[i]).hid
                        != entry.p_data@[i].hid ==> (self.p_data@[i].hid matches Some(hh3)
                        && hh3.0 < j)),
                forall|i1: int, i2: int|
                    0 <= i1 < entry.p_data@.len() && 0 <= i2 < entry.p_data@.len() && (
                    #[trigger] self.p_data@[i1]).hid != entry.p_data@[i1].hid && (
                    #[trigger] self.p_data@[i2]).hid != entry.p_data@[i2].hid && self.p_data@[
                    i1
                ].hid == self.p_data@[i2].hid ==> i1 == i2,
                forall|l: int|
                    0 <= l < entry.h_data@.len() ==> ((#[trigger] self.h_data@[l]).filled
                        != entry.h_data@[l].filled ==> (oas@.contains(entry.h_data@[l].area)
                        && entry.h_data@[l].lc4404_c_sizhuk11 == num_occ && (match parent {
                        Parent::Single => entry.h_data@[l].lc4408_c_ahthuk11 == 4,
                        Parent::Couple => entry.h_data@[l].lc4408_c_ahthuk11 == 2
                            || entry.h_data@[l].lc4408_c_ahthuk11 == 3,
                    }) && !entry.h_data@[l].is_filled() && mark_filled && (match parent {
                        Parent::Single => true,
                        Parent::Couple => (match entry.h_data@[l].hrpid {
                            Some(q) => q.0 < entry.p_data@.len() && couple_child_subgroup(
                                entry.child_hrp_dist@,
                                entry.p_data@[q.0 as int].age,
                                entry.p_data@[q.0 as int].eth,
                            ),
                            None => false,
                        }),
                    }) && (exists|i: int|
                        0 <= i < self.p_data@.len() && (#[trigger] self.p_data@[i]).hid == Some(
                            HID(l as usize),
                        ) && entry.p_data@[i].hid is None))),
                mark_filled ==> (forall|l: int|
                    0 <= l < j ==> {
                        let h = #[trigger] entry.h_data@[l];
                        (oas@.contains(h.area) && h.lc4404_c_sizhuk11 == num_occ && (match parent {
                            Parent::Single => h.lc4408_c_ahthuk11 == 4,
                            Parent::Couple => h.lc4408_c_ahthuk11 == 2 || h.lc4408_c_ahthuk11 == 3,
                        }) && !h.is_filled() && (match parent {
                            Parent::Single => true,
                            Parent::Couple => (match h.hrpid {
                                Some(q) => q.0 < entry.p_data@.len() && couple_child_subgroup(
                                    entry.child_hrp_dist@,
                                    entry.p_data@[q.0 as int].age,
                                    entry.p_data@[q.0 as int].eth,
                                ),
                                None => false,
                            }),
                        })) ==> (self.h_data@[l].is_filled() || !(unmatched_child_remains(
                            *self,
                            msoa,
                            crate::Sex(1),
                        ) && unmatched_child_remains(*self, msoa, crate::Sex(2))))
                    }),
                entry.h_data@.len() == 0 ==> (self.p_data@ == entry.p_data@
                    && self.queues.matched_set() == entry.queues.matched_set()
                    && self.queues.unmatched_set() == entry.queues.unmatched_set()),
            decreases n_houses - j,
        {
            let h_class = self.h_data[j].lc4408_c_ahthuk11;
            let h_area = self.h_data[j].area;
            let h_size = self.h_data[j].lc4404_c_sizhuk11;
            let h_filled = match self.h_data[j].filled {
                Some(b) => b,
                None => false,
            };
            let class_sel = match parent {
                Parent::Single => h_class == 4,
                Parent::Couple => h_class == 2 || h_class == 3,
            };
            if contains_oa(oas, h_area) && h_size == num_occ && class_sel && !h_filled {
                let ghost a0 = *self;
                let hrpid = match self.h_data[j].hrpid {
                    Some(p) => p,
                    None => {
                        proof {
                            assert(entry.h_data@[j as int].hrpid is Some);
                            assert(false);
                        }
                        return ;
                    },
                };
                let hrp_age = self.p_data[hrpid.0].age;
                let hrp_eth = self.p_data[hrpid.0].eth;
                // Pick the distribution.
                let (idxs, ws) = child_rows(&self.child_hrp_dist, hrp_age, hrp_eth, true, true);
                let mut pick = weighted_choice(&mut self.rng, &ws);
                let mut picked_idx: usize = 0;
                let mut have = false;
                match pick {
                    Some(k) => {
                        picked_idx = idxs[k];
                        have = true;
                        proof {
                            assert(couple_child_subgroup(self.child_hrp_dist@, hrp_age, hrp_eth))
                                by {
                                assert(self.child_hrp_dist@[idxs@[k as int] as int].agehrp
                                    == hrp_age && self.child_hrp_dist@[
                                    idxs@[k as int] as int
                                ].eth == hrp_eth && self.child_hrp_dist@[
                                    idxs@[k as int] as int
                                ].n > 0);
                            }
                            assert(entry.p_data@[hrpid.0 as int].age == hrp_age
                                && entry.p_data@[hrpid.0 as int].eth == hrp_eth);
                            assert(entry.h_data@[j as int].hrpid == Some(hrpid));
                        }
                    },
                    None => {},
                }
                let couple = match parent {
                    Parent::Single => false,
                    Parent::Couple => true,
                };
                if !have && couple {
                    // A couple household without its exact subgroup is
                    // skipped rather than relaxed.
                    proof {
                        assert(!couple_child_subgroup(self.child_hrp_dist@, hrp_age, hrp_eth)) by {
                            if couple_child_subgroup(self.child_hrp_dist@, hrp_age, hrp_eth) {
                                let iw = choose|iw: int|
                                    0 <= iw < self.child_hrp_dist@.len() && (
                                    #[trigger] self.child_hrp_dist@[iw]).agehrp == hrp_age
                                        && self.child_hrp_dist@[iw].eth == hrp_eth
                                        && self.child_hrp_dist@[iw].n > 0;
                                let lw = choose|lw: int|
                                    0 <= lw < idxs@.len() && idxs@[lw] == iw;
                                assert(ws@[lw] == self.child_hrp_dist@[iw].n);
                                assert(ws@[lw] == 0);
                            }
                        }
                        assert(entry.p_data@[hrpid.0 as int].age == hrp_age
                            && entry.p_data@[hrpid.0 as int].eth == hrp_eth);
                        assert(entry.h_data@[j as int].hrpid == Some(hrpid));
                    }
                    j += 1;
                    continue ;
                }
                if !have {
                    let (idxs2, ws2) = child_rows(&self.child_hrp_dist, hrp_age, hrp_eth, true, false);
                    pick = weighted_choice(&mut self.rng, &ws2);
                    match pick {
                        Some(k) => {
                            picked_idx = idxs2[k];
                            have = true;
                        },
                        None => {},
                    }
                }
                if !have {
                    let (idxs3, ws3) = child_rows(&self.child_hrp_dist, hrp_age, hrp_eth, false, true);
                    pick = weighted_choice(&mut self.rng, &ws3);
                    match pick {
                        Some(k) => {
                            picked_idx = idxs3[k];
                            have = true;
                        },
                        None => {},
                    }
                }
                if !have {
                    let (idxs4, ws4) = child_rows(&self.child_hrp_dist, hrp_age, hrp_eth, false, false);
                    pick = weighted_choice(&mut self.rng, &ws4);
                    match pick {
                        Some(k) => {
                            picked_idx = idxs4[k];
                        },
                        None => {
                            proof {
                                assert(false);
                            }
                            return ;
                        },
                    }
                }
                let row_age = self.child_hrp_dist[picked_idx].age;
                let row_sex = self.child_hrp_dist[picked_idx].sex;
                let row_eth = self.child_hrp_dist[picked_idx].eth;
                let picked = self.queues.sample_person(
                    msoa,
                    row_age,
                    row_sex,
                    row_eth,
                    AdultOrChild::Child,
                    &self.p_data,
                );
                match picked {
                    Some(p) => {
                        let ghost p_mid = self.p_data@;
                        let hh_hid = self.h_data[j].hid;
                        self.p_data[p].hid = Some(HID(hh_hid));
                        if mark_filled {
                            self.h_data[j].filled = Some(true);
                        }
                        proof {
                            self.queues.lemma_wf_same_demo(p_mid, self.p_data@);
                            assert(self.p_data@ =~= a0.p_data@.update(
                                p as int,
                                self.p_data@[p as int],
                            ));
                            assert(self.h_data@ =~= a0.h_data@.update(
                                j as int,
                                self.h_data@[j as int],
                            ));
                            lemma_wf_assign(a0, *self, p as int, j as int);
                            lemma_person_frame_trans(entry.p_data@, a0.p_data@, self.p_data@);
                            lemma_household_frame_trans(entry.h_data@, a0.h_data@, self.h_data@);
                            lemma_child_remains_shrinks(a0, *self, msoa, crate::Sex(1));
                            lemma_child_remains_shrinks(a0, *self, msoa, crate::Sex(2));
                            assert(entry.p_data@[p as int].hid is None);
                            assert forall|l: int|
                                0 <= l < entry.h_data@.len() && (#[trigger] self.h_data@[l]).filled
                                != entry.h_data@[l].filled && l != j implies (exists|i: int|
                                0 <= i < self.p_data@.len() && (#[trigger] self.p_data@[i]).hid
                                    == Some(HID(l as usize)) && entry.p_data@[i].hid is None) by {
                                assert(self.h_data@[l] == a0.h_data@[l]);
                                let iw = choose|iw: int|
                                    0 <= iw < a0.p_data@.len() && (#[trigger] a0.p_data@[iw]).hid
                                        == Some(HID(l as usize)) && entry.p_data@[iw].hid is None;
                                assert(iw != p as int);
                                assert(self.p_data@[iw].hid == Some(HID(l as usize)));
                            }
                            if mark_filled {
                                assert(self.p_data@[p as int].hid == Some(HID(j as usize)));
                            }
                        }
                    },
                    None => {
                        proof {
                            assert(self.child_rows_valid());
                            assert(row_sex.0 == 1 || row_sex.0 == 2);
                            assert(!unmatched_child_remains(*self, msoa, row_sex)) by {
                                if unmatched_child_remains(*self, msoa, row_sex) {
                                    let l = choose|l: int|
                                        0 <= l < self.p_data@.len()
                                            && self.queues.unmatched_set().contains(l as usize)
                                            && (#[trigger] self.p_data@[l]).msoa == msoa
                                            && !self.p_data@[l].is_adult() && self.p_data@[l].sex
                                            == row_sex;
                                    assert(!(self.p_data@[l].msoa == msoa
                                        && !self.p_data@[l].is_adult() && self.p_data@[l].sex
                                        == row_sex));
                                }
                            }
                        }
                    },
                }
            }
            j += 1;
        }
    }

    /// Stage D: fills the remaining mixed households of the small-area set
    /// one person at a time, with no demographic filter. A household of the
    /// call's size is marked filled when asked. When the area runs out of
    /// unmatched adults the stage stops early.
    #[verifier::rlimit(60)]
    pub fn fill_multi(&mut self, msoa: crate::MSOA, oas: &Vec<OA>, nocc: usize, mark_filled: bool)
        requires
            old(self).wf(),
            forall|j: int|
                0 <= j < old(self).h_data@.len() ==> {
                    let h = #[trigger] old(self).h_data@[j];
                    (1 <= h.lc4408_c_ahthuk11 <= 5 && oas@.contains(h.area) && !h.is_filled())
                        ==> h.hrpid is Some
                },
        ensures
            final(self).wf(),
            static_frame(*old(self), *final(self)),
            person_frame(old(self).p_data@, final(self).p_data@),
            household_frame(old(self).h_data@, final(self).h_data@),
            unmatched_adult_remains(*final(self), msoa) && mark_filled ==> (forall|j: int|
                0 <= j < old(self).h_data@.len() ==> (((#[trigger] old(self).h_data@[j]).lc4408_c_ahthuk11
                    == 5 && oas@.contains(old(self).h_data@[j].area) && !old(self).h_data@[j].is_filled()
                    && old(self).h_data@[j].lc4404_c_sizhuk11 == nocc as i32) ==> final(self).h_data@[j].is_filled())),
            forall|i: int|
                0 <= i < old(self).p_data@.len() ==> ((#[trigger] final(self).p_data@[i]).hid
                    != old(self).p_data@[i].hid ==> (old(self).p_data@[i].hid is None && (final(self).p_data@[i].hid matches Some(hh2) && hh2.0 < old(self).h_data@.len() && old(self).h_data@[hh2.0 as int].lc4408_c_ahthuk11 == 5 && oas@.contains(
                    old(self).h_data@[hh2.0 as int].area,
                ) && !old(self).h_data@[hh2.0 as int].is_filled()))),
            forall|i1: int, i2: int|
                0 <= i1 < old(self).p_data@.len() && 0 <= i2 < old(self).p_data@.len() && (
                #[trigger] final(self).p_data@[i1]).hid != old(self).p_data@[i1].hid && (
                #[trigger] final(self).p_data@[i2]).hid != old(self).p_data@[i2].hid && final(self).p_data@[i1].hid == final(self).p_data@[i2].hid ==> i1 == i2,
            forall|j: int|
                0 <= j < old(self).h_data@.len() ==> ((#[trigger] final(self).h_data@[j]).filled
                    != old(self).h_data@[j].filled ==> (old(self).h_data@[j].lc4408_c_ahthuk11 == 5
                    && oas@.contains(old(self).h_data@[j].area) && !old(self).h_data@[j].is_filled()
                    && mark_filled && old(self).h_data@[j].lc4404_c_sizhuk11 == nocc as i32 && (
                exists|i: int|
                    0 <= i < final(self).p_data@.len() && (#[trigger] final(self).p_data@[i]).hid
                        == Some(HID(j as usize)) && old(self).p_data@[i].hid is None))),
            old(self).h_data@.len() == 0 ==> final(self).p_data@ == old(self).p_data@ && final(self).queues.matched_set() == old(self).queues.matched_set() && final(self).queues.unmatched_set() == old(self).queues.unmatched_set(),
    {
        let ghost entry = *old(self);
        let n_houses = self.h_data.len();
        let mut j: usize = 0;
        while j < n_houses
            invariant
                self.wf(),
                entry == *old(self),
                n_houses == self.h_data@.len(),
                j <= n_houses,
                static_frame(entry, *self),
                person_frame(entry.p_data@, self.p_data@),
                household_frame(entry.h_data@, self.h_data@),
                forall|l: int|
                    0 <= l < entry.h_data@.len() ==> {
                        let h = #[trigger] entry.h_data@[l];
                        (1 <= h.lc4408_c_ahthuk11 <= 5 && oas@.contains(h.area) && !h.is_filled())
                            ==> h.hrpid is Some
                    },
                mark_filled ==> (forall|l: int|
                    0 <= l < j ==> (((#[trigger] entry.h_data@[l]).lc4408_c_ahthuk11 == 5
                        && oas@.contains(entry.h_data@[l].area) && !entry.h_data@[l].is_filled()
                        && entry.h_data@[l].lc4404_c_sizhuk11 == nocc as i32) ==> (
                        self.h_data@[l].is_filled() || !unmatched_adult_remains(*self, msoa)))),
                forall|i: int|
                    0 <= i < entry.p_data@.len() ==> ((#[trigger] self.p_data@[i]).hid
                        != entry.p_data@[i].hid ==> (entry.p_data@[i].hid is None && (
                    self.p_data@[i].hid matches Some(hh2) && hh2.0 < entry.h_data@.len()
                        && entry.h_data@[hh2.0 as int].lc4408_c_ahthuk11 == 5 && oas@.contains(
                        entry.h_data@[hh2.0 as int].area,
                    ) && !entry.h_data@[hh2.0 as int].is_filled()))),
                forall|i: int|
                    0 <= i < entry.p_data@.len() ==> ((#[trigger] self.p_data@[i]).hid
                        != entry.p_data@[i].hid ==> (self.p_data@[i].hid matches Some(hh3)
                        && hh3.0 < j)),
                forall|i1: int, i2: int|
                    0 <= i1 < entry.p_data@.len() && 0 <= i2 < entry.p_data@.len() && (
                    #[trigger] self.p_data@[i1]).hid != entry.p_data@[i1].hid && (
                    #[trigger] self.p_data@[i2]).hid != entry.p_data@[i2].hid && self.p_data@[
                    i1
                ].hid == self.p_data@[i2].hid ==> i1 == i2,
                forall|l: int|
                    0 <= l < entry.h_data@.len() ==> ((#[trigger] self.h_data@[l]).filled
                        != entry.h_data@[l].filled ==> (entry.h_data@[l].lc4408_c_ahthuk11 == 5
                        && oas@.contains(entry.h_data@[l].area) && !entry.h_data@[l].is_filled()
                        && mark_filled && entry.h_data@[l].lc4404_c_sizhuk11 == nocc as i32 && (
                    exists|i: int|
                        0 <= i < self.p_data@.len() && (#[trigger] self.p_data@[i]).hid == Some(
                            HID(l as usize),
                        ) && entry.p_data@[i].hid is None))),
                entry.h_data@.len() == 0 ==> (self.p_data@ == entry.p_data@
                    && self.queues.matched_set() == entry.queues.matched_set()
                    && self.queues.unmatched_set() == entry.queues.unmatched_set()),
            decreases n_houses - j,
        {
            let h_class = self.h_data[j].lc4408_c_ahthuk11;
            let h_area = self.h_data[j].area;
            let h_size = self.h_data[j].lc4404_c_sizhuk11;
            let h_filled = match self.h_data[j].filled {
                Some(b) => b,
                None => false,
            };
            if h_class == 5 && contains_oa(oas, h_area) && !h_filled {
                let ghost a0 = *self;
                let picked = self.queues.sample_adult_any(msoa, &self.p_data);
                match picked {
                    Some(p) => {
                        let ghost p_mid = self.p_data@;
                        let hh_hid = self.h_data[j].hid;
                        self.p_data[p].hid = Some(HID(hh_hid));
                        if mark_filled && h_size == nocc as i32 {
                            proof {
                                assert(entry.h_data@[j as int].hrpid is Some);
                                assert(self.h_data@[j as int].hrpid is Some);
                            }
                            self.h_data[j].filled = Some(true);
                        }
                        proof {
                            self.queues.lemma_wf_same_demo(p_mid, self.p_data@);
                            assert(self.p_data@ =~= a0.p_data@.update(
                                p as int,
                                self.p_data@[p as int],
                            ));
                            assert(self.h_data@ =~= a0.h_data@.update(
                                j as int,
                                self.h_data@[j as int],
                            ));
                            lemma_wf_assign(a0, *self, p as int, j as int);
                            lemma_person_frame_trans(entry.p_data@, a0.p_data@, self.p_data@);
                            lemma_household_frame_trans(entry.h_data@, a0.h_data@, self.h_data@);
                            lemma_adult_remains_shrinks(a0, *self, msoa);
                            assert(entry.p_data@[p as int].hid is None);
                            assert forall|l: int|
                                0 <= l < entry.h_data@.len() && (#[trigger] self.h_data@[l]).filled
                                != entry.h_data@[l].filled implies (
                            entry.h_data@[l].lc4408_c_ahthuk11 == 5 && oas@.contains(
                                entry.h_data@[l].area,
                            ) && !entry.h_data@[l].is_filled() && mark_filled && entry.h_data@[
                                l
                            ].lc4404_c_sizhuk11 == nocc as i32 && (exists|i: int|
                                0 <= i < self.p_data@.len() && (#[trigger] self.p_data@[i]).hid
                                    == Some(HID(l as usize)) && entry.p_data@[i].hid is None)) by {
                                if l == j {
                                    assert(self.p_data@[p as int].hid == Some(HID(l as usize))
                                        && entry.p_data@[p as int].hid is None);
                                } else {
                                    assert(self.h_data@[l] == a0.h_data@[l]);
                                    let iw = choose|iw: int|
                                        0 <= iw < a0.p_data@.len() && (
                                        #[trigger] a0.p_data@[iw]).hid == Some(HID(l as usize))
                                            && entry.p_data@[iw].hid is None;
                                    assert(iw != p as int);
                                    assert(self.p_data@[iw].hid == Some(HID(l as usize)));
                                }
                            }
                        }
                    },
                    None => {
                        // The area has no unmatched adult left; later stages
                        // still run.
                        proof {
                            assert(!unmatched_adult_remains(*self, msoa)) by {
                                if unmatched_adult_remains(*self, msoa) {
                                    let l = choose|l: int|
                                        0 <= l < self.p_data@.len()
                                            && self.queues.unmatched_set().contains(l as usize)
                                            && (#[trigger] self.p_data@[l]).msoa == msoa
                                            && self.p_data@[l].is_adult();
                                    assert(!(self.p_data@[l].msoa == msoa
                                        && self.p_data@[l].is_adult()));
                                }
                            }
                        }
                        return ;
                    },
                }
            }
            j += 1;
        }
    }
}

/// What one communal establishment gets: either exactly its communal size in
/// newly assigned persons now pointing at it, or nothing was taken for it at
/// all (the put-back on exhaustion).
pub open spec fn communal_outcome(p_old: Seq<Person>, p_new: Seq<Person>, j: int, n: int) -> bool {
    ||| (exists|s: Seq<usize>|
        s.len() == n && (forall|x: int, y: int| 0 <= x < y < s.len() ==> s[x] != s[y]) && (forall|
            x: int,
        |
            0 <= x < s.len() ==> (#[trigger] s[x]) < p_new.len() && p_new[s[x] as int].hid == Some(
                HID(j as usize),
            ) && p_old[s[x] as int].hid is None))
    ||| (forall|i: int|
        0 <= i < p_new.len() ==> !((#[trigger] p_new[i]).hid == Some(HID(j as usize))
            && p_old[i].hid is None))
}

/// A communal establishment's outcome survives later writes, which only set
/// household fields of other households.
pub proof fn lemma_communal_outcome_preserved(
    p_old: Seq<Person>,
    p_mid: Seq<Person>,
    p_new: Seq<Person>,
    j: int,
    n: int,
)
    requires
        communal_outcome(p_old, p_mid, j, n),
        p_mid.len() == p_old.len(),
        p_new.len() == p_mid.len(),
        forall|i: int|
            0 <= i < p_mid.len() ==> ((#[trigger] p_mid[i]).hid is Some ==> p_new[i].hid
                == p_mid[i].hid),
        forall|i: int|
            0 <= i < p_mid.len() ==> (p_new[i].hid != (#[trigger] p_mid[i]).hid ==> p_new[i].hid
                != Some(HID(j as usize))),
    ensures
        communal_outcome(p_old, p_new, j, n),
{
    if exists|s: Seq<usize>|
        s.len() == n && (forall|x: int, y: int| 0 <= x < y < s.len() ==> s[x] != s[y]) && (forall|
            x: int,
        |
            0 <= x < s.len() ==> (#[trigger] s[x]) < p_mid.len() && p_mid[s[x] as int].hid == Some(
                HID(j as usize),
            ) && p_old[s[x] as int].hid is None) {
        let s = choose|s: Seq<usize>|
            s.len() == n && (forall|x: int, y: int| 0 <= x < y < s.len() ==> s[x] != s[y]) && (
            forall|x: int|
                0 <= x < s.len() ==> (#[trigger] s[x]) < p_mid.len() && p_mid[s[x] as int].hid
                    == Some(HID(j as usize)) && p_old[s[x] as int].hid is None);
        assert forall|x: int| 0 <= x < s.len() implies (#[trigger] s[x]) < p_new.len() && p_new[
            s[x] as int
        ].hid == Some(HID(j as usize)) && p_old[s[x] as int].hid is None by {
            assert(p_mid[s[x] as int].hid is Some);
        }
    } else {
        assert forall|i: int|
            0 <= i < p_new.len() implies !((#[trigger] p_new[i]).hid == Some(HID(j as usize))
            && p_old[i].hid is None) by {
            if p_new[i].hid == Some(HID(j as usize)) && p_old[i].hid is None {
                if p_new[i].hid != p_mid[i].hid {
                } else {
                    assert(p_mid[i].hid == Some(HID(j as usize)));
                }
            }
        }
    }
}

/// Marking a communal household filled preserves everything the engine
/// promises; communal households are exempt from the reference-person
/// obligation.
pub proof fn lemma_wf_fill_communal(a0: Assignment, a2: Assignment, j: int)
    requires
        a0.wf(),
        0 <= j < a0.h_data@.len(),
        a0.h_data@[j].is_communal(),
        a2.p_data == a0.p_data,
        a2.queues == a0.queues,
        static_frame(a0, a2),
        a2.h_data@.len() == a0.h_data@.len(),
        a2.h_data@ == a0.h_data@.update(j, a2.h_data@[j]),
        a2.h_data@[j] == (Household { filled: Some(true), ..a0.h_data@[j] }),
    ensures
        a2.wf(),
        household_frame(a0.h_data@, a2.h_data@),
{
    assert forall|j2: int|
        0 <= j2 < a2.h_data@.len() implies match (#[trigger] a2.h_data@[j2]).hrpid {
        Some(q) => q.0 < a2.p_data@.len() && a2.p_data@[q.0 as int].hid == Some(HID(j2 as usize)),
        None => true,
    } by {
        if j2 != j {
            assert(a2.h_data@[j2] == a0.h_data@[j2]);
        }
    }
    assert(a2.wf());
}

impl Assignment {
    /// Stage E: populates the communal establishments of the small-area
    /// set. Each draws its communal size from the age band of its type; if
    /// the band runs out first, the drawn persons are returned to their
    /// queue and nobody is taken. The household is marked filled either way.
    pub fn fill_communal(&mut self, msoa: crate::MSOA, oas: &Vec<OA>)
        requires
            old(self).wf(),
        ensures
            final(self).wf(),
            static_frame(*old(self), *final(self)),
            person_frame(old(self).p_data@, final(self).p_data@),
            household_frame(old(self).h_data@, final(self).h_data@),
            forall|j: int|
                0 <= j < old(self).h_data@.len() ==> (((#[trigger] old(self).h_data@[j]).qs420_cell
                    > -1 && oas@.contains(old(self).h_data@[j].area)) ==> final(self).h_data@[j].is_filled()),
            forall|j: int|
                0 <= j < old(self).h_data@.len() ==> {
                    let h = #[trigger] old(self).h_data@[j];
                    (h.qs420_cell > -1 && oas@.contains(h.area) && h.communal_size > 0)
                        ==> communal_outcome(
                        old(self).p_data@,
                        final(self).p_data@,
                        j,
                        h.communal_size as int,
                    )
                },
            forall|i: int|
                0 <= i < old(self).p_data@.len() ==> ((#[trigger] final(self).p_data@[i]).hid
                    != old(self).p_data@[i].hid ==> (old(self).p_data@[i].hid is None && (final(self).p_data@[i].hid matches Some(hh2) && hh2.0 < old(self).h_data@.len() && old(self).h_data@[hh2.0 as int].qs420_cell > -1 && oas@.contains(
                    old(self).h_data@[hh2.0 as int].area,
                )))),
            forall|q: usize|
                old(self).queues.people_by_area_over_75.spec_get(key_area(msoa.0)).contains(q)
                    && !final(self).queues.matched_set().contains(q) ==> final(self).queues.people_by_area_over_75.spec_get(key_area(msoa.0)).contains(q),
            forall|q: usize|
                old(self).queues.people_by_area_19_to_25.spec_get(key_area(msoa.0)).contains(q)
                    && !final(self).queues.matched_set().contains(q) ==> final(self).queues.people_by_area_19_to_25.spec_get(key_area(msoa.0)).contains(q),
            forall|q: usize|
                old(self).queues.people_by_area_over_16.spec_get(key_area(msoa.0)).contains(q)
                    && !final(self).queues.matched_set().contains(q) ==> final(self).queues.people_by_area_over_16.spec_get(key_area(msoa.0)).contains(q),
            old(self).h_data@.len() == 0 ==> final(self).p_data@ == old(self).p_data@ && final(self).queues.matched_set() == old(self).queues.matched_set() && final(self).queues.unmatched_set() == old(self).queues.unmatched_set(),
    {
        let ghost entry = *old(self);
        let n_houses = self.h_data.len();
        let mut j: usize = 0;
        while j < n_houses
            invariant
                self.wf(),
                entry == *old(self),
                n_houses == self.h_data@.len(),
                j <= n_houses,
                static_frame(entry, *self),
                person_frame(entry.p_data@, self.p_data@),
                household_frame(entry.h_data@, self.h_data@),
                forall|l: int| j <= l < n_houses ==> self.h_data@[l] == entry.h_data@[l],
                forall|l: int|
                    0 <= l < j ==> (((#[trigger] entry.h_data@[l]).qs420_cell > -1
                        && oas@.contains(entry.h_data@[l].area)) ==> self.h_data@[l].is_filled()),
                forall|l: int|
                    0 <= l < j ==> {
                        let h = #[trigger] entry.h_data@[l];
                        (h.qs420_cell > -1 && oas@.contains(h.area) && h.communal_size > 0)
                            ==> communal_outcome(
                            entry.p_data@,
                            self.p_data@,
                            l,
                            h.communal_size as int,
                        )
                    },
                forall|i: int|
                    0 <= i < entry.p_data@.len() ==> ((#[trigger] self.p_data@[i]).hid
                        != entry.p_data@[i].hid ==> (entry.p_data@[i].hid is None && (
                    self.p_data@[i].hid matches Some(hh) && hh.0 < j
                        && entry.h_data@[hh.0 as int].qs420_cell > -1 && oas@.contains(
                        entry.h_data@[hh.0 as int].area,
                    )))),
                forall|q: usize|
                    entry.queues.matched_set().contains(q) ==> self.queues.matched_set().contains(
                        q,
                    ),
                forall|q: usize|
                    entry.queues.people_by_area_over_75.spec_get(key_area(msoa.0)).contains(q)
                        && !self.queues.matched_set().contains(q)
                        ==> self.queues.people_by_area_over_75.spec_get(key_area(msoa.0)).contains(
                        q,
                    ),
                forall|q: usize|
                    entry.queues.people_by_area_19_to_25.spec_get(key_area(msoa.0)).contains(q)
                        && !self.queues.matched_set().contains(q)
                        ==> self.queues.people_by_area_19_to_25.spec_get(key_area(msoa.0)).contains(
                        q,
                    ),
                forall|q: usize|
                    entry.queues.people_by_area_over_16.spec_get(key_area(msoa.0)).contains(q)
                        && !self.queues.matched_set().contains(q)
                        ==> self.queues.people_by_area_over_16.spec_get(key_area(msoa.0)).contains(
                        q,
                    ),
                entry.h_data@.len() == 0 ==> (self.p_data@ == entry.p_data@
                    && self.queues.matched_set() == entry.queues.matched_set()
                    && self.queues.unmatched_set() == entry.queues.unmatched_set()),
            decreases n_houses - j,
        {
            let ctype = self.h_data[j].qs420_cell;
            let h_area = self.h_data[j].area;
            if ctype > -1 && contains_oa(oas, h_area) {
                let ghost a0 = *self;
                let nocc_raw = self.h_data[j].communal_size;
                if nocc_raw > 0 {
                    let nocc = nocc_raw as usize;
                    let picked = self.queues.sample_communal(ctype, msoa, nocc, &self.p_data);
                    match picked {
                        Some(pids) => {
                            let ghost a1 = *self;
                            let ghost m1 = self.queues.matched_set();
                            let hh_hid = self.h_data[j].hid;
                            let n_drawn = pids.len();
                            let np = self.p_data.len();
                            proof {
                                assert(pids@.skip(0) =~= pids@);
                                assert(self.queues.matched_set() == a0.queues.matched_set().union(
                                    pids@.to_set(),
                                ));
                                assert forall|q: usize|
                                    m1.contains(q) <==> (a0.queues.matched_set().contains(q)
                                        || pids@.contains(q)) by {
                                    assert(pids@.to_set().contains(q) == pids@.contains(q));
                                }
                                assert forall|i: int|
                                    0 <= i < self.p_data@.len() implies ((
                                #[trigger] self.p_data@[i]).hid is Some <==> (m1.contains(
                                    i as usize,
                                ) && !pids@.contains(i as usize))) by {
                                    if pids@.contains(i as usize) {
                                        let x = choose|x: int|
                                            0 <= x < pids@.len() && pids@[x] == i as usize;
                                        assert(!a0.queues.matched_set().contains(pids@[x]));
                                    }
                                }
                            }
                            let mut l: usize = 0;
                            while l < n_drawn
                                invariant
                                    entry == *old(self),
                                    a0.wf(),
                                    np == self.p_data@.len(),
                                    forall|q: usize|
                                        m1.contains(q) <==> (a0.queues.matched_set().contains(q)
                                            || pids@.contains(q)),
                                    0 <= (j as int) < a0.h_data@.len(),
                                    n_drawn == pids@.len(),
                                    l <= n_drawn,
                                    hh_hid == a0.h_data@[j as int].hid,
                                    a0.ids_ok(),
                                    self.queues == a1.queues,
                                    self.h_data@ == a1.h_data@,
                                    a1.h_data@ == a0.h_data@,
                                    m1 == self.queues.matched_set(),
                                    static_frame(entry, *self),
                                    static_frame(a0, *self),
                                    person_frame(entry.p_data@, self.p_data@),
                                    person_frame(a0.p_data@, self.p_data@),
                                    household_frame(entry.h_data@, self.h_data@),
                                    self.queues.wf(self.p_data@),
                                    self.ids_ok(),
                                    self.assignments_valid(),
                                    self.hrp_consistent(),
                                    self.filled_have_hrp(),
                                    self.tables_ok(),
                                    forall|x: int, y: int|
                                        0 <= x < y < pids@.len() ==> pids@[x] != pids@[y],
                                    forall|x: int|
                                        0 <= x < pids@.len() ==> (#[trigger] pids@[x])
                                            < self.p_data@.len() && !a0.queues.matched_set().contains(
                                            pids@[x],
                                        ),
                                    forall|i: int|
                                        0 <= i < self.p_data@.len() ==> ((
                                        #[trigger] self.p_data@[i]).hid is Some <==> (m1.contains(
                                            i as usize,
                                        ) && !pids@.skip(l as int).contains(i as usize))),
                                    hh_hid == j,
                                    nocc as int == a0.h_data@[j as int].communal_size as int,
                                    person_frame(entry.p_data@, a0.p_data@),
                                    forall|x: int|
                                        0 <= x < l ==> self.p_data@[pids@[x] as int].hid == Some(
                                            HID(hh_hid),
                                        ),
                                    forall|i: int|
                                        0 <= i < self.p_data@.len() ==> ((
                                        #[trigger] self.p_data@[i]).hid != a0.p_data@[i].hid ==> (
                                        pids@.contains(i as usize) && self.p_data@[i].hid == Some(
                                            HID(hh_hid),
                                        ))),
                                    forall|i: int|
                                        0 <= i < entry.p_data@.len() ==> ((
                                        #[trigger] a0.p_data@[i]).hid != entry.p_data@[i].hid ==> (
                                        a0.p_data@[i].hid matches Some(hh) && hh.0 < j)),
                                    forall|l2: int|
                                        0 <= l2 < j ==> {
                                            let h = #[trigger] entry.h_data@[l2];
                                            (h.qs420_cell > -1 && oas@.contains(h.area)
                                                && h.communal_size > 0) ==> communal_outcome(
                                                entry.p_data@,
                                                a0.p_data@,
                                                l2,
                                                h.communal_size as int,
                                            )
                                        },
                                decreases n_drawn - l,
                            {
                                let p = pids[l];
                                proof {
                                    assert(pids@.skip(l as int)[0] == p);
                                    assert(pids@.skip(l as int).contains(p));
                                    assert(self.p_data@[p as int].hid is None);
                                }
                                let ghost p_mid = self.p_data@;
                                self.p_data[p].hid = Some(HID(hh_hid));
                                proof {
                                    self.queues.lemma_wf_same_demo(p_mid, self.p_data@);
                                    lemma_skip_distinct(pids@, l as int);
                                    assert forall|i: int|
                                        0 <= i < self.p_data@.len() implies ((
                                        #[trigger] self.p_data@[i]).hid is Some <==> (m1.contains(
                                            i as usize,
                                        ) && !pids@.skip(l as int + 1).contains(i as usize))) by {
                                        lemma_skip_step(pids@, l as int, i as usize);
                                        if i != p as int {
                                            assert(self.p_data@[i] == p_mid[i]);
                                        } else {
                                            assert(m1.contains(p));
                                        }
                                    }
                                    assert forall|j2: int|
                                        0 <= j2 < self.h_data@.len() implies match ((
                                        #[trigger] self.h_data@[j2]).hrpid) {
                                        Some(q) => q.0 < self.p_data@.len() && self.p_data@[
                                            q.0 as int
                                        ].hid == Some(HID(j2 as usize)),
                                        None => true,
                                    } by {
                                        match self.h_data@[j2].hrpid {
                                            Some(q) => {
                                                assert(p_mid[q.0 as int].hid == Some(
                                                    HID(j2 as usize),
                                                ));
                                                assert(q.0 != p);
                                            },
                                            None => {},
                                        }
                                    }
                                    assert(person_frame(p_mid, self.p_data@));
                                    lemma_person_frame_trans(entry.p_data@, p_mid, self.p_data@);
                                    lemma_person_frame_trans(a0.p_data@, p_mid, self.p_data@);
                                }
                                l += 1;
                            }
                            proof {
                                assert(pids@.skip(n_drawn as int) =~= Seq::<usize>::empty());
                                assert forall|i: int|
                                    0 <= i < self.p_data@.len() implies ((
                                    #[trigger] self.p_data@[i]).hid is Some <==> m1.contains(
                                        i as usize,
                                    )) by {
                                    assert(!pids@.skip(n_drawn as int).contains(i as usize));
                                }
                                assert(self.wf());
                                // This establishment received exactly its size
                                // in fresh occupants.
                                assert(communal_outcome(
                                    entry.p_data@,
                                    self.p_data@,
                                    j as int,
                                    entry.h_data@[j as int].communal_size as int,
                                )) by {
                                    let s2 = pids@;
                                    assert forall|x: int|
                                        0 <= x < s2.len() implies (#[trigger] s2[x])
                                        < self.p_data@.len() && self.p_data@[s2[x] as int].hid
                                        == Some(HID(j as usize)) && entry.p_data@[
                                        s2[x] as int
                                    ].hid is None by {
                                        assert(self.p_data@[s2[x] as int].hid == Some(
                                            HID(hh_hid),
                                        ));
                                        assert(!a0.queues.matched_set().contains(s2[x]));
                                        assert(a0.p_data@[s2[x] as int].hid is None);
                                    }
                                    assert(s2.len() == entry.h_data@[
                                        j as int
                                    ].communal_size as int);
                                }
                                // Earlier establishments keep their outcome:
                                // the new pointers all aim at this one.
                                assert forall|l2: int|
                                    0 <= l2 < j && (#[trigger] entry.h_data@[l2]).qs420_cell > -1
                                    && oas@.contains(entry.h_data@[l2].area)
                                    && entry.h_data@[l2].communal_size > 0 implies communal_outcome(
                                    entry.p_data@,
                                    self.p_data@,
                                    l2,
                                    entry.h_data@[l2].communal_size as int,
                                ) by {
                                    assert forall|i: int|
                                        0 <= i < a0.p_data@.len() implies (self.p_data@[i].hid != (
                                        #[trigger] a0.p_data@[i]).hid ==> self.p_data@[i].hid
                                        != Some(HID(l2 as usize))) by {
                                        if self.p_data@[i].hid != a0.p_data@[i].hid {
                                            assert(self.p_data@[i].hid == Some(HID(hh_hid)));
                                        }
                                    }
                                    lemma_communal_outcome_preserved(
                                        entry.p_data@,
                                        a0.p_data@,
                                        self.p_data@,
                                        l2,
                                        entry.h_data@[l2].communal_size as int,
                                    );
                                }
                                // Every pointer written so far aims below the
                                // next position, at a communal household of
                                // the area set.
                                assert forall|i: int|
                                    0 <= i < entry.p_data@.len() implies ((
                                #[trigger] self.p_data@[i]).hid != entry.p_data@[i].hid ==> (
                                entry.p_data@[i].hid is None && (self.p_data@[i].hid
                                    matches Some(hh) && hh.0 < j + 1 && entry.h_data@[
                                    hh.0 as int
                                ].qs420_cell > -1 && oas@.contains(
                                    entry.h_data@[hh.0 as int].area,
                                )))) by {
                                    if self.p_data@[i].hid != entry.p_data@[i].hid {
                                        if self.p_data@[i].hid != a0.p_data@[i].hid {
                                            assert(self.p_data@[i].hid == Some(HID(hh_hid)));
                                            assert(pids@.contains(i as usize));
                                            assert(!a0.queues.matched_set().contains(i as usize));
                                            assert(a0.p_data@[i].hid is None);
                                            assert(entry.h_data@[j as int].qs420_cell > -1
                                                && oas@.contains(entry.h_data@[j as int].area));
                                        } else {
                                            assert(a0.p_data@[i].hid != entry.p_data@[i].hid);
                                        }
                                    }
                                }
                            }
                        },
                        None => {
                            proof {
                                // Nothing was taken for this establishment.
                                assert forall|i: int|
                                    0 <= i < self.p_data@.len() implies !((
                                #[trigger] self.p_data@[i]).hid == Some(HID(j as usize))
                                    && entry.p_data@[i].hid is None) by {
                                    if self.p_data@[i].hid == Some(HID(j as usize))
                                        && entry.p_data@[i].hid is None {
                                        assert(self.p_data@[i].hid != entry.p_data@[i].hid);
                                    }
                                }
                                assert(communal_outcome(
                                    entry.p_data@,
                                    self.p_data@,
                                    j as int,
                                    entry.h_data@[j as int].communal_size as int,
                                ));
                            }
                        },
                    }
                }
                // Mark the establishment filled whatever happened.
                let ghost a3 = *self;
                self.h_data[j].filled = Some(true);
                proof {
                    assert(self.h_data@ =~= a3.h_data@.update(j as int, self.h_data@[j as int]));
                    assert(self.h_data@[j as int] == Household {
                        filled: Some(true),
                        ..a3.h_data@[j as int]
                    });
                    lemma_wf_fill_communal(a3, *self, j as int);
                    lemma_household_frame_trans(entry.h_data@, a3.h_data@, self.h_data@);
                }
            }
            j += 1;
        }
    }

    /// Stage F: every adult of the middle-area still without a household is
    /// assigned to a uniformly chosen unfilled mixed household of the
    /// small-area set, disregarding sizes. With no candidate household the
    /// stage does nothing.
    pub fn assign_surplus_adults(&mut self, msoa: crate::MSOA, oas: &Vec<OA>)
        requires
            old(self).wf(),
        ensures
            final(self).wf(),
            static_frame(*old(self), *final(self)),
            person_frame(old(self).p_data@, final(self).p_data@),
            household_frame(old(self).h_data@, final(self).h_data@),
            (exists|j: int|
                0 <= j < old(self).h_data@.len() && (#[trigger] old(self).h_data@[j]).lc4408_c_ahthuk11
                    == 5 && oas@.contains(old(self).h_data@[j].area) && !old(self).h_data@[j].is_filled()) ==> (forall|i: int|
                0 <= i < old(self).p_data@.len() ==> (((#[trigger] old(self).p_data@[i]).msoa
                    == msoa && old(self).p_data@[i].age.0 > crate::ADULT_AGE && old(self).p_data@[i].hid is None) ==> final(self).p_data@[i].hid is Some)),
            final(self).h_data@ == old(self).h_data@,
            forall|i: int|
                0 <= i < old(self).p_data@.len() ==> ((#[trigger] final(self).p_data@[i]).hid
                    != old(self).p_data@[i].hid ==> (old(self).p_data@[i].hid is None && old(self).p_data@[i].msoa == msoa && old(self).p_data@[i].age.0 > crate::ADULT_AGE && (final(self).p_data@[i].hid matches Some(h) && h.0 < old(self).h_data@.len()
                    && old(self).h_data@[h.0 as int].lc4408_c_ahthuk11 == 5 && oas@.contains(
                    old(self).h_data@[h.0 as int].area,
                ) && !old(self).h_data@[h.0 as int].is_filled()))),
            old(self).h_data@.len() == 0 ==> final(self).p_data@ == old(self).p_data@ && final(self).queues.matched_set() == old(self).queues.matched_set() && final(self).queues.unmatched_set() == old(self).queues.unmatched_set(),
    {
        let ghost entry = *old(self);
        // Candidate households.
        let mut cands: Vec<usize> = Vec::new();
        let n_houses = self.h_data.len();
        let mut j: usize = 0;
        while j < n_houses
            invariant
                *self == entry,
                n_houses == self.h_data@.len(),
                j <= n_houses,
                forall|l: int| 0 <= l < cands@.len() ==> (#[trigger] cands@[l]) < n_houses,
                forall|l: int|
                    0 <= l < cands@.len() ==> {
                        let c = (#[trigger] cands@[l]) as int;
                        entry.h_data@[c].lc4408_c_ahthuk11 == 5 && oas@.contains(
                            entry.h_data@[c].area,
                        ) && !entry.h_data@[c].is_filled()
                    },
                cands@.len() == 0 ==> (forall|l: int|
                    0 <= l < j ==> !((#[trigger] self.h_data@[l]).lc4408_c_ahthuk11 == 5
                        && oas@.contains(self.h_data@[l].area) && !self.h_data@[l].is_filled())),
            decreases n_houses - j,
        {
            let h_class = self.h_data[j].lc4408_c_ahthuk11;
            let h_area = self.h_data[j].area;
            let h_filled = match self.h_data[j].filled {
                Some(b) => b,
                None => false,
            };
            if h_class == 5 && contains_oa(oas, h_area) && !h_filled {
                cands.push(j);
            }
            j += 1;
        }
        if cands.len() == 0 {
            return ;
        }
        let n_people = self.p_data.len();
        let mut i: usize = 0;
        while i < n_people
            invariant
                self.wf(),
                entry == *old(self),
                n_people == self.p_data@.len(),
                i <= n_people,
                cands@.len() > 0,
                forall|l: int| 0 <= l < cands@.len() ==> (#[trigger] cands@[l]) < self.h_data@.len(),
                forall|l: int|
                    0 <= l < cands@.len() ==> {
                        let c = (#[trigger] cands@[l]) as int;
                        entry.h_data@[c].lc4408_c_ahthuk11 == 5 && oas@.contains(
                            entry.h_data@[c].area,
                        ) && !entry.h_data@[c].is_filled()
                    },
                static_frame(entry, *self),
                person_frame(entry.p_data@, self.p_data@),
                household_frame(entry.h_data@, self.h_data@),
                self.h_data@ == entry.h_data@,
                forall|l: int| i <= l < n_people ==> self.p_data@[l] == entry.p_data@[l],
                forall|l: int|
                    0 <= l < i ==> (((#[trigger] entry.p_data@[l]).msoa == msoa
                        && entry.p_data@[l].age.0 > crate::ADULT_AGE
                        && entry.p_data@[l].hid is None) ==> self.p_data@[l].hid is Some),
                forall|l: int|
                    0 <= l < entry.p_data@.len() ==> ((#[trigger] self.p_data@[l]).hid
                        != entry.p_data@[l].hid ==> (entry.p_data@[l].hid is None
                        && entry.p_data@[l].msoa == msoa && entry.p_data@[l].age.0
                        > crate::ADULT_AGE && (self.p_data@[l].hid matches Some(h) && h.0
                        < entry.h_data@.len() && entry.h_data@[h.0 as int].lc4408_c_ahthuk11 == 5
                        && oas@.contains(entry.h_data@[h.0 as int].area)
                        && !entry.h_data@[h.0 as int].is_filled()))),
                entry.h_data@.len() == 0 ==> (self.p_data@ == entry.p_data@
                    && self.queues.matched_set() == entry.queues.matched_set()
                    && self.queues.unmatched_set() == entry.queues.unmatched_set()),
            decreases n_people - i,
        {
            let p_msoa = self.p_data[i].msoa;
            let p_age = self.p_data[i].age.0;
            let p_unassigned = self.p_data[i].hid.is_none();
            if p_msoa.0 == msoa.0 && p_age > crate::ADULT_AGE && p_unassigned {
                let ghost a0 = *self;
                let k = choose_index(&mut self.rng, cands.len());
                let hj = cands[k];
                let hh_hid = self.h_data[hj].hid;
                proof {
                    assert(!self.queues.matched_set().contains(i));
                }
                self.queues.mark_matched(i, &self.p_data);
                let ghost p_mid = self.p_data@;
                self.p_data[i].hid = Some(HID(hh_hid));
                proof {
                    self.queues.lemma_wf_same_demo(p_mid, self.p_data@);
                    assert(self.p_data@ =~= a0.p_data@.update(i as int, self.p_data@[i as int]));
                    assert(self.h_data@ =~= a0.h_data@.update(
                        hj as int,
                        self.h_data@[hj as int],
                    ));
                    lemma_wf_assign(a0, *self, i as int, hj as int);
                    lemma_person_frame_trans(entry.p_data@, a0.p_data@, self.p_data@);
                }
            }
            i += 1;
        }
    }

    /// Stage G: for each ethnicity of the surplus range, every child of the
    /// middle-area still without a household is assigned to a uniformly
    /// chosen unfilled non-single household of the small-area set with that
    /// ethnicity. With no candidate household that ethnicity is skipped.
    pub fn assign_surplus_children(&mut self, msoa: crate::MSOA, oas: &Vec<OA>)
        requires
            old(self).wf(),
        ensures
            final(self).wf(),
            static_frame(*old(self), *final(self)),
            person_frame(old(self).p_data@, final(self).p_data@),
            household_frame(old(self).h_data@, final(self).h_data@),
            final(self).h_data@ == old(self).h_data@,
            forall|i: int|
                0 <= i < old(self).p_data@.len() ==> (((#[trigger] old(self).p_data@[i]).msoa
                    == msoa && old(self).p_data@[i].age.0 <= crate::ADULT_AGE && old(self).p_data@[i].hid is None
                    && 2 <= old(self).p_data@[i].eth.0 <= 8 && surplus_child_candidate(
                    old(self).h_data@,
                    oas@,
                    old(self).p_data@[i].eth.0,
                )) ==> final(self).p_data@[i].hid is Some),
            forall|i: int|
                0 <= i < old(self).p_data@.len() ==> ((#[trigger] final(self).p_data@[i]).hid
                    != old(self).p_data@[i].hid ==> (old(self).p_data@[i].hid is None && old(self).p_data@[i].msoa == msoa && old(self).p_data@[i].age.0 <= crate::ADULT_AGE && 2
                    <= old(self).p_data@[i].eth.0 <= 8 && (final(self).p_data@[i].hid
                    matches Some(hh2) && hh2.0 < old(self).h_data@.len() && oas@.contains(
                    old(self).h_data@[hh2.0 as int].area,
                ) && old(self).h_data@[hh2.0 as int].lc4202_c_ethhuk11.0 == old(self).p_data@[i].eth.0
                    && (old(self).h_data@[hh2.0 as int].lc4408_c_ahthuk11 == 2 || old(self).h_data@[
                    hh2.0 as int
                ].lc4408_c_ahthuk11 == 3 || old(self).h_data@[hh2.0 as int].lc4408_c_ahthuk11 == 4
                    || old(self).h_data@[hh2.0 as int].lc4408_c_ahthuk11 == 5) && !old(self).h_data@[
                    hh2.0 as int
                ].is_filled()))),
            old(self).h_data@.len() == 0 ==> final(self).p_data@ == old(self).p_data@ && final(self).queues.matched_set() == old(self).queues.matched_set() && final(self).queues.unmatched_set() == old(self).queues.unmatched_set(),
    {
        let ghost entry = *old(self);
        let mut eth_code: i32 = 2;
        while eth_code <= 8
            invariant
                self.wf(),
                entry == *old(self),
                2 <= eth_code <= 9,
                static_frame(entry, *self),
                person_frame(entry.p_data@, self.p_data@),
                household_frame(entry.h_data@, self.h_data@),
                self.h_data@ == entry.h_data@,
                forall|l: int|
                    0 <= l < entry.p_data@.len() ==> ((#[trigger] self.p_data@[l]).hid
                        != entry.p_data@[l].hid ==> (entry.p_data@[l].hid is None
                        && entry.p_data@[l].msoa == msoa && entry.p_data@[l].age.0
                        <= crate::ADULT_AGE && 2 <= entry.p_data@[l].eth.0 < eth_code && (self.p_data@[l].hid matches Some(hh2) && hh2.0
                        < entry.h_data@.len() && oas@.contains(entry.h_data@[hh2.0 as int].area)
                        && entry.h_data@[hh2.0 as int].lc4202_c_ethhuk11.0
                        == entry.p_data@[l].eth.0 && (entry.h_data@[hh2.0 as int].lc4408_c_ahthuk11
                        == 2 || entry.h_data@[hh2.0 as int].lc4408_c_ahthuk11 == 3
                        || entry.h_data@[hh2.0 as int].lc4408_c_ahthuk11 == 4
                        || entry.h_data@[hh2.0 as int].lc4408_c_ahthuk11 == 5)
                        && !entry.h_data@[hh2.0 as int].is_filled()))),
                forall|l: int|
                    0 <= l < entry.p_data@.len() ==> (((#[trigger] entry.p_data@[l]).msoa == msoa
                        && entry.p_data@[l].age.0 <= crate::ADULT_AGE
                        && entry.p_data@[l].hid is None && 2 <= entry.p_data@[l].eth.0 < eth_code
                        && surplus_child_candidate(
                        entry.h_data@,
                        oas@,
                        entry.p_data@[l].eth.0,
                    )) ==> self.p_data@[l].hid is Some),
                entry.h_data@.len() == 0 ==> (self.p_data@ == entry.p_data@
                    && self.queues.matched_set() == entry.queues.matched_set()
                    && self.queues.unmatched_set() == entry.queues.unmatched_set()),
            decreases 9 - eth_code,
        {
            let ghost round = *self;
            // Candidate households of this ethnicity.
            let mut cands: Vec<usize> = Vec::new();
            let n_houses = self.h_data.len();
            let mut j: usize = 0;
            while j < n_houses
                invariant
                    *self == round,
                    n_houses == self.h_data@.len(),
                    j <= n_houses,
                    forall|l: int| 0 <= l < cands@.len() ==> (#[trigger] cands@[l]) < n_houses,
                    forall|l: int|
                        0 <= l < cands@.len() ==> {
                            let c = (#[trigger] cands@[l]) as int;
                            oas@.contains(entry.h_data@[c].area)
                                && entry.h_data@[c].lc4202_c_ethhuk11.0 == eth_code && (
                            entry.h_data@[c].lc4408_c_ahthuk11 == 2
                                || entry.h_data@[c].lc4408_c_ahthuk11 == 3
                                || entry.h_data@[c].lc4408_c_ahthuk11 == 4
                                || entry.h_data@[c].lc4408_c_ahthuk11 == 5)
                                && !entry.h_data@[c].is_filled()
                        },
                    round.h_data@ == entry.h_data@,
                    cands@.len() == 0 ==> (forall|l: int|
                        0 <= l < j ==> !(oas@.contains((#[trigger] self.h_data@[l]).area)
                            && self.h_data@[l].lc4202_c_ethhuk11.0 == eth_code && (
                            self.h_data@[l].lc4408_c_ahthuk11 == 2
                                || self.h_data@[l].lc4408_c_ahthuk11 == 3
                                || self.h_data@[l].lc4408_c_ahthuk11 == 4
                                || self.h_data@[l].lc4408_c_ahthuk11 == 5)
                            && !self.h_data@[l].is_filled())),
                decreases n_houses - j,
            {
                let h_class = self.h_data[j].lc4408_c_ahthuk11;
                let h_area = self.h_data[j].area;
                let h_eth = self.h_data[j].lc4202_c_ethhuk11;
                let h_filled = match self.h_data[j].filled {
                    Some(b) => b,
                    None => false,
                };
                if contains_oa(oas, h_area) && h_eth.0 == eth_code && (h_class == 2 || h_class == 3
                    || h_class == 4 || h_class == 5) && !h_filled {
                    cands.push(j);
                }
                j += 1;
            }
            if cands.len() > 0 {
                let n_people = self.p_data.len();
                let mut i: usize = 0;
                while i < n_people
                    invariant
                        self.wf(),
                        entry == *old(self),
                        round.h_data@ == self.h_data@,
                        round.h_data@ == entry.h_data@,
                        round.p_data@.len() == entry.p_data@.len(),
                        n_people == self.p_data@.len(),
                        i <= n_people,
                        2 <= eth_code <= 8,
                        cands@.len() > 0,
                        forall|l: int|
                            0 <= l < cands@.len() ==> (#[trigger] cands@[l])
                                < self.h_data@.len(),
                        static_frame(entry, *self),
                        person_frame(entry.p_data@, self.p_data@),
                        household_frame(entry.h_data@, self.h_data@),
                        forall|l: int|
                            0 <= l < entry.p_data@.len() ==> ((#[trigger] self.p_data@[l]).hid
                                != entry.p_data@[l].hid ==> (entry.p_data@[l].hid is None
                                && entry.p_data@[l].msoa == msoa && entry.p_data@[l].age.0
                                <= crate::ADULT_AGE && ((2 <= entry.p_data@[l].eth.0 < eth_code)
                                || (entry.p_data@[l].eth.0 == eth_code && l < i)) && (self.p_data@[l].hid matches Some(hh2) && hh2.0
                                < entry.h_data@.len() && oas@.contains(
                                entry.h_data@[hh2.0 as int].area,
                            ) && entry.h_data@[hh2.0 as int].lc4202_c_ethhuk11.0
                                == entry.p_data@[l].eth.0 && (entry.h_data@[
                                hh2.0 as int
                            ].lc4408_c_ahthuk11 == 2 || entry.h_data@[hh2.0 as int].lc4408_c_ahthuk11
                                == 3 || entry.h_data@[hh2.0 as int].lc4408_c_ahthuk11 == 4
                                || entry.h_data@[hh2.0 as int].lc4408_c_ahthuk11 == 5)
                                && !entry.h_data@[hh2.0 as int].is_filled()))),
                        forall|l: int|
                            0 <= l < cands@.len() ==> {
                                let c = (#[trigger] cands@[l]) as int;
                                oas@.contains(entry.h_data@[c].area)
                                    && entry.h_data@[c].lc4202_c_ethhuk11.0 == eth_code && (
                                entry.h_data@[c].lc4408_c_ahthuk11 == 2
                                    || entry.h_data@[c].lc4408_c_ahthuk11 == 3
                                    || entry.h_data@[c].lc4408_c_ahthuk11 == 4
                                    || entry.h_data@[c].lc4408_c_ahthuk11 == 5)
                                    && !entry.h_data@[c].is_filled()
                            },
                        forall|l: int|
                            0 <= l < entry.p_data@.len() ==> (((#[trigger] entry.p_data@[l]).msoa
                                == msoa && entry.p_data@[l].age.0 <= crate::ADULT_AGE
                                && entry.p_data@[l].hid is None && 2 <= entry.p_data@[l].eth.0
                                < eth_code && surplus_child_candidate(
                                entry.h_data@,
                                oas@,
                                entry.p_data@[l].eth.0,
                            )) ==> self.p_data@[l].hid is Some),
                        forall|l: int|
                            0 <= l < i ==> (((#[trigger] entry.p_data@[l]).msoa == msoa
                                && entry.p_data@[l].age.0 <= crate::ADULT_AGE
                                && entry.p_data@[l].hid is None && entry.p_data@[l].eth.0
                                == eth_code) ==> self.p_data@[l].hid is Some),
                        entry.h_data@.len() == 0 ==> (self.p_data@ == entry.p_data@
                            && self.queues.matched_set() == entry.queues.matched_set()
                            && self.queues.unmatched_set() == entry.queues.unmatched_set()),
                    decreases n_people - i,
                {
                    let p_msoa = self.p_data[i].msoa;
                    let p_age = self.p_data[i].age.0;
                    let p_eth = self.p_data[i].eth;
                    let p_unassigned = self.p_data[i].hid.is_none();
                    if p_msoa.0 == msoa.0 && p_age <= crate::ADULT_AGE && p_unassigned && p_eth.0
                        == eth_code {
                        let ghost a0 = *self;
                        let k = choose_index(&mut self.rng, cands.len());
                        let hj = cands[k];
                        let hh_hid = self.h_data[hj].hid;
                        proof {
                            assert(!self.queues.matched_set().contains(i));
                        }
                        self.queues.mark_matched(i, &self.p_data);
                        let ghost p_mid = self.p_data@;
                        self.p_data[i].hid = Some(HID(hh_hid));
                        proof {
                            self.queues.lemma_wf_same_demo(p_mid, self.p_data@);
                            assert(self.p_data@ =~= a0.p_data@.update(
                                i as int,
                                self.p_data@[i as int],
                            ));
                            assert(self.h_data@ =~= a0.h_data@.update(
                                hj as int,
                                self.h_data@[hj as int],
                            ));
                            lemma_wf_assign(a0, *self, i as int, hj as int);
                            lemma_person_frame_trans(entry.p_data@, a0.p_data@, self.p_data@);
                        }
                    }
                    i += 1;
                }
            }
            eth_code += 1;
        }
    }
}

/// The distinct middle-areas of the person population, in ascending order of
/// their identifiers (identifiers follow the lexicographic order of the raw
/// area codes, so this is the ascending lexical enumeration).
pub fn distinct_msoas(p_data: &Vec<Person>) -> (r: Vec<usize>)
    ensures
        forall|x: int, y: int| 0 <= x < y < r@.len() ==> r@[x] < r@[y],
        forall|m: usize|
            #[trigger] r@.contains(m) <==> (exists|i: int|
                0 <= i < p_data@.len() && (#[trigger] p_data@[i]).msoa.0 == m),
{
    let mut r: Vec<usize> = Vec::new();
    let mut i: usize = 0;
    let n = p_data.len();
    while i < n
        invariant
            n == p_data@.len(),
            i <= n,
            forall|x: int, y: int| 0 <= x < y < r@.len() ==> r@[x] < r@[y],
            forall|m: usize|
                #[trigger] r@.contains(m) ==> (exists|l: int|
                    0 <= l < i && (#[trigger] p_data@[l]).msoa.0 == m),
            forall|l: int|
                0 <= l < i ==> r@.contains((#[trigger] p_data@[l]).msoa.0),
        decreases n - i,
    {
        let m = p_data[i].msoa.0;
        // Find the insertion position.
        let mut pos: usize = 0;
        let rl = r.len();
        while pos < rl && r[pos] < m
            invariant
                rl == r@.len(),
                pos <= rl,
                forall|x: int| 0 <= x < pos ==> r@[x] < m,
            decreases rl - pos,
        {
            pos += 1;
        }
        let present = pos < rl && r[pos] == m;
        if !present {
            let ghost r0 = r@;
            r.insert(pos, m);
            proof {
                assert forall|x: int, y: int| 0 <= x < y < r@.len() implies r@[x] < r@[y] by {
                    if y < pos {
                        assert(r@[x] == r0[x] && r@[y] == r0[y]);
                    } else if x < pos && y == pos {
                        assert(r@[x] == r0[x]);
                    } else if x < pos && y > pos {
                        assert(r@[x] == r0[x] && r@[y] == r0[y - 1]);
                        assert(r0[x] < m);
                        if pos < r0.len() {
                            assert(m != r0[pos as int]);
                            assert(m <= r0[pos as int]);
                        }
                        assert(m < r0[y - 1] || r0[x] < r0[y - 1]);
                    } else if x == pos {
                        assert(r@[y] == r0[y - 1]);
                        assert(y - 1 >= pos);
                        assert(m != r0[pos as int]);
                        assert(m <= r0[pos as int]);
                        assert(r0[pos as int] <= r0[y - 1]);
                    } else {
                        assert(r@[x] == r0[x - 1] && r@[y] == r0[y - 1]);
                    }
                }
                assert(r@.contains(m)) by {
                    assert(r@[pos as int] == m);
                }
                assert forall|m2: usize| #[trigger] r@.contains(m2) && m2 != m implies r0.contains(
                    m2,
                ) by {
                    let x = choose|x: int| 0 <= x < r@.len() && r@[x] == m2;
                    if x < pos {
                        assert(r0[x] == m2);
                    } else {
                        assert(x > pos);
                        assert(r0[x - 1] == m2);
                    }
                }
                assert forall|m2: usize| r0.contains(m2) implies #[trigger] r@.contains(m2) by {
                    let x = choose|x: int| 0 <= x < r0.len() && r0[x] == m2;
                    if x < pos {
                        assert(r@[x] == m2);
                    } else {
                        assert(r@[x + 1] == m2);
                    }
                }
            }
        } else {
            proof {
                assert(r@[pos as int] == m);
                assert(r@.contains(m));
            }
        }
        i += 1;
    }
    r
}

/// Whether the middle-area is inhabited yet holds no unmatched adult: the
/// only way the reference-person stage can fail.
pub open spec fn area_adults_exhausted(a: Assignment, m: usize) -> bool {
    (exists|i: int| 0 <= i < a.p_data@.len() && (#[trigger] a.p_data@[i]).msoa.0 == m) && (forall|
        l: int,
    |
        0 <= l < a.p_data@.len() && a.queues.unmatched_set().contains(l as usize) ==> !((
        #[trigger] a.p_data@[l]).msoa.0 == m && a.p_data@[l].is_adult()))
}

/// Whether a small-area lies, per the geographic table, inside a
/// middle-area that the person population inhabits; the pipeline visits
/// exactly those areas.
pub open spec fn area_is_processed(geog: Seq<GeogEntry>, people: Seq<Person>, oa: OA) -> bool {
    exists|g: int|
        0 <= g < geog.len() && (#[trigger] geog[g]).oa == oa && (exists|i: int|
            0 <= i < people.len() && (#[trigger] people[i]).msoa == geog[g].msoa)
}

/// Whether a small-area lies inside one of the first `upto` middle-areas of
/// the enumeration.
pub open spec fn area_in_prefix(geog: Seq<GeogEntry>, msoas: Seq<usize>, upto: int, oa: OA) -> bool {
    exists|g: int|
        0 <= g < geog.len() && (#[trigger] geog[g]).oa == oa && (exists|idx: int|
            0 <= idx < upto && msoas[idx] == geog[g].msoa.0)
}

/// Households keep their reference persons: once every household of the
/// classes within the area is anchored, it stays so through later stages.
pub proof fn lemma_hrp_persists(h1: Seq<Household>, h2: Seq<Household>, oas: Seq<OA>)
    requires
        household_frame(h1, h2),
        forall|j: int|
            0 <= j < h1.len() ==> ((1 <= (#[trigger] h1[j]).lc4408_c_ahthuk11 <= 5 && oas.contains(
                h1[j].area,
            )) ==> h1[j].hrpid is Some),
    ensures
        forall|j: int|
            0 <= j < h2.len() ==> ((1 <= (#[trigger] h2[j]).lc4408_c_ahthuk11 <= 5 && oas.contains(
                h2[j].area,
            )) ==> h2[j].hrpid is Some),
{
    assert forall|j: int|
        0 <= j < h2.len() && 1 <= (#[trigger] h2[j]).lc4408_c_ahthuk11 <= 5 && oas.contains(
            h2[j].area,
        ) implies h2[j].hrpid is Some by {
        assert(h2[j].lc4408_c_ahthuk11 == h1[j].lc4408_c_ahthuk11);
        assert(h2[j].area == h1[j].area);
        assert(h1[j].hrpid is Some);
    }
}

impl Assignment {
    /// Runs the whole pipeline: iterates the distinct middle-areas of the
    /// person population in ascending order and, for each, resolves its
    /// small-area set and executes the stages in their fixed order. With no
    /// persons nothing runs; with no households nobody is assigned.
    #[verifier::rlimit(80)]
    pub fn run(&mut self) -> (r: Result<(), AssignmentError>)
        requires
            old(self).wf(),
        ensures
            final(self).wf(),
            static_frame(*old(self), *final(self)),
            person_frame(old(self).p_data@, final(self).p_data@),
            household_frame(old(self).h_data@, final(self).h_data@),
            r is Ok ==> (forall|j: int|
                0 <= j < old(self).h_data@.len() ==> ((1 <= (
                #[trigger] old(self).h_data@[j]).lc4408_c_ahthuk11 <= 5 && area_is_processed(
                    old(self).geog_lookup@,
                    old(self).p_data@,
                    old(self).h_data@[j].area,
                )) ==> final(self).h_data@[j].hrpid is Some)),
            r is Ok ==> (forall|j: int|
                0 <= j < old(self).h_data@.len() ==> (((#[trigger] old(self).h_data@[j]).qs420_cell
                    > -1 && area_is_processed(
                    old(self).geog_lookup@,
                    old(self).p_data@,
                    old(self).h_data@[j].area,
                )) ==> final(self).h_data@[j].is_filled())),
            old(self).p_data@.len() == 0 ==> r is Ok && final(self).h_data@ == old(self).h_data@
                && final(self).p_data@ == old(self).p_data@,
            old(self).h_data@.len() == 0 ==> r is Ok && final(self).p_data@ == old(self).p_data@
                && final(self).queues.matched_set() == old(self).queues.matched_set() && final(self).queues.unmatched_set() == old(self).queues.unmatched_set(),
            r == Err::<(), AssignmentError>(AssignmentError::MissingSex) ==> (exists|
                t: HhType,
                i: int,
            |
                0 <= i < final(self).hrp_table_spec(t).len() && final(self).hrp_table_spec(
                    t,
                )[i].sex is None),
            r == Err::<(), AssignmentError>(AssignmentError::NoMatch) ==> (exists|m: usize|
                #[trigger] area_adults_exhausted(*final(self), m)),
            (match r {
                Ok(()) => true,
                Err(e) => e == AssignmentError::MissingSex || e == AssignmentError::NoMatch,
            }),
    {
        let ghost entry = *old(self);
        let msoas = distinct_msoas(&self.p_data);
        proof {
            if entry.p_data@.len() == 0 && msoas@.len() > 0 {
                assert(msoas@.contains(msoas@[0]));
            }
        }
        let n_areas = msoas.len();
        let mut ai: usize = 0;
        while ai < n_areas
            invariant
                self.wf(),
                entry == *old(self),
                n_areas == msoas@.len(),
                ai <= n_areas,
                static_frame(entry, *self),
                person_frame(entry.p_data@, self.p_data@),
                household_frame(entry.h_data@, self.h_data@),
                entry.p_data@.len() == 0 ==> (msoas@.len() == 0),
                forall|m2: usize|
                    #[trigger] msoas@.contains(m2) ==> (exists|i: int|
                        0 <= i < entry.p_data@.len() && (#[trigger] entry.p_data@[i]).msoa.0 == m2),
                entry.p_data@.len() == 0 ==> (self.h_data@ == entry.h_data@ && self.p_data@
                    == entry.p_data@),
                forall|j: int|
                    0 <= j < entry.h_data@.len() ==> ((1 <= (
                    #[trigger] entry.h_data@[j]).lc4408_c_ahthuk11 <= 5 && area_in_prefix(
                        entry.geog_lookup@,
                        msoas@,
                        ai as int,
                        entry.h_data@[j].area,
                    )) ==> self.h_data@[j].hrpid is Some),
                forall|j: int|
                    0 <= j < entry.h_data@.len() ==> (((#[trigger] entry.h_data@[j]).qs420_cell
                        > -1 && area_in_prefix(
                        entry.geog_lookup@,
                        msoas@,
                        ai as int,
                        entry.h_data@[j].area,
                    )) ==> self.h_data@[j].is_filled()),
                entry.h_data@.len() == 0 ==> (self.p_data@ == entry.p_data@
                    && self.queues.matched_set() == entry.queues.matched_set()
                    && self.queues.unmatched_set() == entry.queues.unmatched_set()),
            decreases n_areas - ai,
        {
            let m = msoas[ai];
            let msoa = crate::MSOA(m);
            // The small-areas inside this middle-area.
            let mut oas: Vec<OA> = Vec::new();
            let n_geog = self.geog_lookup.len();
            let mut g: usize = 0;
            while g < n_geog
                invariant
                    n_geog == self.geog_lookup@.len(),
                    g <= n_geog,
                    forall|g2: int|
                        0 <= g2 < g ==> ((#[trigger] self.geog_lookup@[g2]).msoa.0 == m
                            ==> oas@.contains(self.geog_lookup@[g2].oa)),
                decreases n_geog - g,
            {
                if self.geog_lookup[g].msoa.0 == m {
                    let oa = self.geog_lookup[g].oa;
                    let ghost oas0 = oas@;
                    oas.push(oa);
                    proof {
                        assert(oas@[oas@.len() - 1] == oa);
                        assert forall|g2: int|
                            0 <= g2 < g + 1 && (#[trigger] self.geog_lookup@[g2]).msoa.0
                            == m implies oas@.contains(self.geog_lookup@[g2].oa) by {
                            if g2 < g {
                                let x = choose|x: int|
                                    0 <= x < oas0.len() && oas0[x] == self.geog_lookup@[g2].oa;
                                assert(oas@[x] == self.geog_lookup@[g2].oa);
                            } else {
                                assert(oas@[oas@.len() - 1] == self.geog_lookup@[g2].oa);
                            }
                        }
                    }
                }
                g += 1;
            }
            let ghost s_in = *self;
            // Stage A: reference persons.
            let ra = self.sample_hrp(msoa, &oas);
            if let Err(e) = ra {
                proof {
                    lemma_person_frame_trans(entry.p_data@, s_in.p_data@, self.p_data@);
                    lemma_household_frame_trans(entry.h_data@, s_in.h_data@, self.h_data@);
                    if e == AssignmentError::NoMatch {
                        assert(msoas@.contains(m)) by {
                            assert(msoas@[ai as int] == m);
                        }
                        let iw = choose|iw: int|
                            0 <= iw < entry.p_data@.len() && (#[trigger] entry.p_data@[iw]).msoa.0
                                == m;
                        assert(self.p_data@[iw].msoa == entry.p_data@[iw].msoa);
                        assert(self.p_data@[iw].msoa.0 == m);
                        assert forall|l: int|
                            0 <= l < self.p_data@.len() && self.queues.unmatched_set().contains(
                                l as usize,
                            ) implies !((#[trigger] self.p_data@[l]).msoa.0 == m && self.p_data@[
                            l
                        ].is_adult()) by {
                            assert(!(self.p_data@[l].msoa == msoa && self.p_data@[l].is_adult()));
                        }
                        assert(area_adults_exhausted(*self, m));
                    }
                }
                return Err(e);
            }
            let ghost s_a = *self;
            // Stage B: partners.
            self.sample_partner(msoa, &oas);
            let ghost s1 = *self;
            proof {
                lemma_hrp_persists(s_a.h_data@, self.h_data@, oas@);
            }
            // Stage C: children, single-parent then couple households.
            self.sample_child(msoa, &oas, 2, true, Parent::Single);
            let ghost s2 = *self;
            proof {
                lemma_person_frame_trans(s_a.p_data@, s1.p_data@, self.p_data@);
                lemma_household_frame_trans(s_a.h_data@, s1.h_data@, self.h_data@);
                lemma_hrp_persists(s_a.h_data@, self.h_data@, oas@);
            }
            self.sample_child(msoa, &oas, 3, true, Parent::Single);
            let ghost s3 = *self;
            proof {
                lemma_person_frame_trans(s_a.p_data@, s2.p_data@, self.p_data@);
                lemma_household_frame_trans(s_a.h_data@, s2.h_data@, self.h_data@);
                lemma_hrp_persists(s_a.h_data@, self.h_data@, oas@);
            }
            self.sample_child(msoa, &oas, 4, true, Parent::Single);
            let ghost s4 = *self;
            proof {
                lemma_person_frame_trans(s_a.p_data@, s3.p_data@, self.p_data@);
                lemma_household_frame_trans(s_a.h_data@, s3.h_data@, self.h_data@);
                lemma_hrp_persists(s_a.h_data@, self.h_data@, oas@);
            }
            self.sample_child(msoa, &oas, 3, true, Parent::Couple);
            let ghost s5 = *self;
            proof {
                lemma_person_frame_trans(s_a.p_data@, s4.p_data@, self.p_data@);
                lemma_household_frame_trans(s_a.h_data@, s4.h_data@, self.h_data@);
                lemma_hrp_persists(s_a.h_data@, self.h_data@, oas@);
            }
            self.sample_child(msoa, &oas, 4, true, Parent::Couple);
            let ghost s6 = *self;
            proof {
                lemma_person_frame_trans(s_a.p_data@, s5.p_data@, self.p_data@);
                lemma_household_frame_trans(s_a.h_data@, s5.h_data@, self.h_data@);
                lemma_hrp_persists(s_a.h_data@, self.h_data@, oas@);
            }
            // Stage D: multi-person fill.
            self.fill_multi(msoa, &oas, 2, true);
            let ghost s7 = *self;
            proof {
                lemma_person_frame_trans(s_a.p_data@, s6.p_data@, self.p_data@);
                lemma_household_frame_trans(s_a.h_data@, s6.h_data@, self.h_data@);
                lemma_hrp_persists(s_a.h_data@, self.h_data@, oas@);
            }
            self.fill_multi(msoa, &oas, 3, true);
            let ghost s8 = *self;
            proof {
                lemma_person_frame_trans(s_a.p_data@, s7.p_data@, self.p_data@);
                lemma_household_frame_trans(s_a.h_data@, s7.h_data@, self.h_data@);
                lemma_hrp_persists(s_a.h_data@, self.h_data@, oas@);
            }
            self.fill_multi(msoa, &oas, 4, false);
            let ghost s9 = *self;
            proof {
                lemma_person_frame_trans(s_a.p_data@, s8.p_data@, self.p_data@);
                lemma_household_frame_trans(s_a.h_data@, s8.h_data@, self.h_data@);
            }
            // Stage E: communal establishments.
            self.fill_communal(msoa, &oas);
            let ghost s10 = *self;
            proof {
                lemma_person_frame_trans(s_a.p_data@, s9.p_data@, self.p_data@);
                lemma_household_frame_trans(s_a.h_data@, s9.h_data@, self.h_data@);
            }
            // Stage F: surplus adults.
            self.assign_surplus_adults(msoa, &oas);
            let ghost s11 = *self;
            proof {
                lemma_person_frame_trans(s_a.p_data@, s10.p_data@, self.p_data@);
                lemma_household_frame_trans(s_a.h_data@, s10.h_data@, self.h_data@);
            }
            // Stage G: surplus children.
            self.assign_surplus_children(msoa, &oas);
            proof {
                lemma_person_frame_trans(s_a.p_data@, s11.p_data@, self.p_data@);
                lemma_household_frame_trans(s_a.h_data@, s11.h_data@, self.h_data@);
                lemma_person_frame_trans(s_in.p_data@, s_a.p_data@, self.p_data@);
                lemma_household_frame_trans(s_in.h_data@, s_a.h_data@, self.h_data@);
                lemma_person_frame_trans(entry.p_data@, s_in.p_data@, self.p_data@);
                lemma_household_frame_trans(entry.h_data@, s_in.h_data@, self.h_data@);
                lemma_household_frame_trans(s10.h_data@, s11.h_data@, self.h_data@);
                // Every household of this middle-area is now anchored, and
                // its communal establishments filled; earlier areas keep
                // theirs through the frames.
                assert forall|j2: int|
                    0 <= j2 < entry.h_data@.len() && 1 <= (
                #[trigger] entry.h_data@[j2]).lc4408_c_ahthuk11 <= 5 && area_in_prefix(
                    entry.geog_lookup@,
                    msoas@,
                    ai as int + 1,
                    entry.h_data@[j2].area,
                ) implies self.h_data@[j2].hrpid is Some by {
                    let g2 = choose|g2: int|
                        0 <= g2 < entry.geog_lookup@.len() && (#[trigger] entry.geog_lookup@[g2]).oa
                            == entry.h_data@[j2].area && (exists|idx: int|
                            0 <= idx < ai + 1 && msoas@[idx] == entry.geog_lookup@[g2].msoa.0);
                    let idx = choose|idx: int|
                        0 <= idx < ai + 1 && msoas@[idx] == entry.geog_lookup@[g2].msoa.0;
                    if idx < ai {
                        assert(area_in_prefix(
                            entry.geog_lookup@,
                            msoas@,
                            ai as int,
                            entry.h_data@[j2].area,
                        ));
                        assert(s_in.h_data@[j2].hrpid is Some);
                    } else {
                        assert(entry.geog_lookup@[g2].msoa.0 == m);
                        assert(oas@.contains(entry.geog_lookup@[g2].oa));
                        assert(s_a.h_data@[j2].lc4408_c_ahthuk11
                            == entry.h_data@[j2].lc4408_c_ahthuk11 && s_a.h_data@[j2].area
                            == entry.h_data@[j2].area);
                        assert(s_a.h_data@[j2].hrpid is Some);
                    }
                }
                assert forall|j2: int|
                    0 <= j2 < entry.h_data@.len() && (#[trigger] entry.h_data@[j2]).qs420_cell > -1
                    && area_in_prefix(
                    entry.geog_lookup@,
                    msoas@,
                    ai as int + 1,
                    entry.h_data@[j2].area,
                ) implies self.h_data@[j2].is_filled() by {
                    let g2 = choose|g2: int|
                        0 <= g2 < entry.geog_lookup@.len() && (#[trigger] entry.geog_lookup@[g2]).oa
                            == entry.h_data@[j2].area && (exists|idx: int|
                            0 <= idx < ai + 1 && msoas@[idx] == entry.geog_lookup@[g2].msoa.0);
                    let idx = choose|idx: int|
                        0 <= idx < ai + 1 && msoas@[idx] == entry.geog_lookup@[g2].msoa.0;
                    if idx < ai {
                        assert(area_in_prefix(
                            entry.geog_lookup@,
                            msoas@,
                            ai as int,
                            entry.h_data@[j2].area,
                        ));
                        assert(s_in.h_data@[j2].is_filled());
                    } else {
                        assert(entry.geog_lookup@[g2].msoa.0 == m);
                        assert(oas@.contains(entry.geog_lookup@[g2].oa));
                        assert(s9.h_data@[j2].qs420_cell == entry.h_data@[j2].qs420_cell
                            && s9.h_data@[j2].area == entry.h_data@[j2].area);
                        assert(s10.h_data@[j2].is_filled());
                    }
                }
            }
            ai += 1;
        }
        proof {
            assert forall|j2: int|
                0 <= j2 < entry.h_data@.len() && 1 <= (
            #[trigger] entry.h_data@[j2]).lc4408_c_ahthuk11 <= 5 && area_is_processed(
                entry.geog_lookup@,
                entry.p_data@,
                entry.h_data@[j2].area,
            ) implies self.h_data@[j2].hrpid is Some by {
                let g2 = choose|g2: int|
                    0 <= g2 < entry.geog_lookup@.len() && (#[trigger] entry.geog_lookup@[g2]).oa
                        == entry.h_data@[j2].area && (exists|i: int|
                        0 <= i < entry.p_data@.len() && (#[trigger] entry.p_data@[i]).msoa
                            == entry.geog_lookup@[g2].msoa);
                assert(msoas@.contains(entry.geog_lookup@[g2].msoa.0));
                let idx = choose|idx: int|
                    0 <= idx < msoas@.len() && msoas@[idx] == entry.geog_lookup@[g2].msoa.0;
                assert(area_in_prefix(
                    entry.geog_lookup@,
                    msoas@,
                    n_areas as int,
                    entry.h_data@[j2].area,
                ));
            }
            assert forall|j2: int|
                0 <= j2 < entry.h_data@.len() && (#[trigger] entry.h_data@[j2]).qs420_cell > -1
                && area_is_processed(
                entry.geog_lookup@,
                entry.p_data@,
                entry.h_data@[j2].area,
            ) implies self.h_data@[j2].is_filled() by {
                let g2 = choose|g2: int|
                    0 <= g2 < entry.geog_lookup@.len() && (#[trigger] entry.geog_lookup@[g2]).oa
                        == entry.h_data@[j2].area && (exists|i: int|
                        0 <= i < entry.p_data@.len() && (#[trigger] entry.p_data@[i]).msoa
                            == entry.geog_lookup@[g2].msoa);
                assert(msoas@.contains(entry.geog_lookup@[g2].msoa.0));
                let idx = choose|idx: int|
                    0 <= idx < msoas@.len() && msoas@[idx] == entry.geog_lookup@[g2].msoa.0;
                assert(area_in_prefix(
                    entry.geog_lookup@,
                    msoas@,
                    n_areas as int,
                    entry.h_data@[j2].area,
                ));
            }
        }
        Ok(())
    }
}

/// Whether the small-area set holds an open non-single household of the
/// given ethnicity, as the surplus-children stage looks for.
pub open spec fn surplus_child_candidate(h_data: Seq<Household>, oas: Seq<OA>, eth: i32) -> bool {
    exists|j: int|
        0 <= j < h_data.len() && oas.contains((#[trigger] h_data[j]).area) && h_data[j].lc4202_c_ethhuk11.0
            == eth && (h_data[j].lc4408_c_ahthuk11 == 2 || h_data[j].lc4408_c_ahthuk11 == 3
            || h_data[j].lc4408_c_ahthuk11 == 4 || h_data[j].lc4408_c_ahthuk11 == 5)
            && !h_data[j].is_filled()
}

/// How many persons of the table satisfy a predicate.
pub open spec fn count_p(s: Seq<Person>, f: spec_fn(Person) -> bool) -> int
    decreases s.len(),
{
    if s.len() == 0 {
        0
    } else {
        count_p(s.drop_last(), f) + if f(s.last()) {
            1int
        } else {
            0int
        }
    }
}

/// How many households of the table satisfy a predicate.
pub open spec fn count_h(s: Seq<Household>, f: spec_fn(Household) -> bool) -> int
    decreases s.len(),
{
    if s.len() == 0 {
        0
    } else {
        count_h(s.drop_last(), f) + if f(s.last()) {
            1int
        } else {
            0int
        }
    }
}

/// The per-stage summary counts.
#[derive(Copy, Clone, Debug, PartialEq, Eq, Structural)]
pub struct Stats {
    pub assigned_people: usize,
    pub remaining_people: usize,
    pub total_people: usize,
    pub assigned_households: usize,
    pub remaining_households: usize,
    pub total_households: usize,
    pub unclassified_households: usize,
}

/// The final report: households left unfilled by category, and persons left
/// unassigned.
#[derive(Copy, Clone, Debug, PartialEq, Eq, Structural)]
pub struct CheckReport {
    pub occupied_no_hrp: usize,
    pub occupied_not_filled: usize,
    pub occupied_total: usize,
    pub single_occupant_not_filled: usize,
    pub single_parent_one_child_not_filled: usize,
    pub single_parent_two_children_not_filled: usize,
    pub single_parent_more_not_filled: usize,
    pub couple_no_children_not_filled: usize,
    pub couple_one_child_not_filled: usize,
    pub couple_more_children_not_filled: usize,
    pub mixed_small_not_filled: usize,
    pub mixed_large_not_filled: usize,
    pub adults_unassigned: usize,
    pub adults_total: usize,
    pub children_unassigned: usize,
    pub children_total: usize,
}

impl Assignment {
    /// The summary counts emitted after each stage.
    pub fn info_stats(&self) -> (r: Stats)
        ensures
            r.assigned_people == count_p(self.p_data@, |p: Person| p.hid is Some),
            r.remaining_people == count_p(self.p_data@, |p: Person| p.hid is None),
            r.total_people == self.p_data@.len(),
            r.assigned_households == count_h(self.h_data@, |h: Household| h.is_filled()),
            r.remaining_households == count_h(
                self.h_data@,
                |h: Household| h.lc4408_c_ahthuk11 > 0 && !h.is_filled(),
            ),
            r.total_households == count_h(self.h_data@, |h: Household| h.lc4408_c_ahthuk11 > 0),
            r.unclassified_households == count_h(
                self.h_data@,
                |h: Household| h.lc4408_c_ahthuk11 == -1,
            ),
    {
        let mut assigned_people: usize = 0;
        let mut remaining_people: usize = 0;
        let n_people = self.p_data.len();
        let mut i: usize = 0;
        while i < n_people
            invariant
                n_people == self.p_data@.len(),
                i <= n_people,
                assigned_people == count_p(self.p_data@.take(i as int), |p: Person| p.hid is Some),
                remaining_people == count_p(self.p_data@.take(i as int), |p: Person| p.hid is None),
                assigned_people + remaining_people == i,
            decreases n_people - i,
        {
            proof {
                assert(self.p_data@.take(i as int + 1).drop_last() =~= self.p_data@.take(i as int));
                assert(self.p_data@.take(i as int + 1).last() == self.p_data@[i as int]);
            }
            if self.p_data[i].hid.is_some() {
                assigned_people += 1;
            } else {
                remaining_people += 1;
            }
            i += 1;
        }
        let mut assigned_households: usize = 0;
        let mut remaining_households: usize = 0;
        let mut total_households: usize = 0;
        let mut unclassified_households: usize = 0;
        let n_houses = self.h_data.len();
        let mut j: usize = 0;
        while j < n_houses
            invariant
                n_houses == self.h_data@.len(),
                j <= n_houses,
                assigned_households == count_h(
                    self.h_data@.take(j as int),
                    |h: Household| h.is_filled(),
                ),
                remaining_households == count_h(
                    self.h_data@.take(j as int),
                    |h: Household| h.lc4408_c_ahthuk11 > 0 && !h.is_filled(),
                ),
                total_households == count_h(
                    self.h_data@.take(j as int),
                    |h: Household| h.lc4408_c_ahthuk11 > 0,
                ),
                unclassified_households == count_h(
                    self.h_data@.take(j as int),
                    |h: Household| h.lc4408_c_ahthuk11 == -1,
                ),
                assigned_households <= j && remaining_households <= j && total_households <= j
                    && unclassified_households <= j,
            decreases n_houses - j,
        {
            proof {
                assert(self.h_data@.take(j as int + 1).drop_last() =~= self.h_data@.take(j as int));
                assert(self.h_data@.take(j as int + 1).last() == self.h_data@[j as int]);
            }
            let filled = match self.h_data[j].filled {
                Some(b) => b,
                None => false,
            };
            let class = self.h_data[j].lc4408_c_ahthuk11;
            if filled {
                assigned_households += 1;
            }
            if class > 0 && !filled {
                remaining_households += 1;
            }
            if class > 0 {
                total_households += 1;
            }
            if class == -1 {
                unclassified_households += 1;
            }
            j += 1;
        }
        proof {
            assert(self.p_data@.take(n_people as int) =~= self.p_data@);
            assert(self.h_data@.take(n_houses as int) =~= self.h_data@);
        }
        Stats {
            assigned_people,
            remaining_people,
            total_people: n_people,
            assigned_households,
            remaining_households,
            total_households,
            unclassified_households,
        }
    }

    /// The final check pass: counts the households left unfilled in each
    /// category and the persons left unassigned.
    pub fn check(&self) -> (r: CheckReport)
        ensures
            r.occupied_no_hrp == count_h(
                self.h_data@,
                |h: Household| h.lc4408_c_ahthuk11 > 0 && h.hrpid is None,
            ),
            r.occupied_not_filled == count_h(
                self.h_data@,
                |h: Household| h.lc4408_c_ahthuk11 > 0 && h.filled is None,
            ),
            r.occupied_total == count_h(self.h_data@, |h: Household| h.lc4408_c_ahthuk11 > 0),
            r.single_occupant_not_filled == count_h(
                self.h_data@,
                |h: Household| h.lc4408_c_ahthuk11 == 1 && h.filled is None,
            ),
            r.single_parent_one_child_not_filled == count_h(
                self.h_data@,
                |h: Household| h.lc4408_c_ahthuk11 == 4 && h.lc4404_c_sizhuk11 == 2
                    && h.filled is None,
            ),
            r.single_parent_two_children_not_filled == count_h(
                self.h_data@,
                |h: Household| h.lc4408_c_ahthuk11 == 4 && h.lc4404_c_sizhuk11 == 3
                    && h.filled is None,
            ),
            r.single_parent_more_not_filled == count_h(
                self.h_data@,
                |h: Household| h.lc4408_c_ahthuk11 == 4 && h.lc4404_c_sizhuk11 == 4
                    && h.filled is None,
            ),
            r.couple_no_children_not_filled == count_h(
                self.h_data@,
                |h: Household| (h.lc4408_c_ahthuk11 == 2 || h.lc4408_c_ahthuk11 == 3)
                    && h.lc4404_c_sizhuk11 == 2 && h.filled is None,
            ),
            r.couple_one_child_not_filled == count_h(
                self.h_data@,
                |h: Household| (h.lc4408_c_ahthuk11 == 2 || h.lc4408_c_ahthuk11 == 3)
                    && h.lc4404_c_sizhuk11 == 3 && h.filled is None,
            ),
            r.couple_more_children_not_filled == count_h(
                self.h_data@,
                |h: Household| (h.lc4408_c_ahthuk11 == 2 || h.lc4408_c_ahthuk11 == 3)
                    && h.lc4404_c_sizhuk11 == 4 && h.filled is None,
            ),
            r.mixed_small_not_filled == count_h(
                self.h_data@,
                |h: Household| h.lc4408_c_ahthuk11 == 5 && h.lc4404_c_sizhuk11 < 4
                    && h.filled is None,
            ),
            r.mixed_large_not_filled == count_h(
                self.h_data@,
                |h: Household| h.lc4408_c_ahthuk11 == 5 && h.lc4404_c_sizhuk11 == 4
                    && h.filled is None,
            ),
            r.adults_unassigned == count_p(
                self.p_data@,
                |p: Person| p.is_adult() && p.hid is None,
            ),
            r.adults_total == count_p(self.p_data@, |p: Person| p.is_adult()),
            r.children_unassigned == count_p(
                self.p_data@,
                |p: Person| !p.is_adult() && p.hid is None,
            ),
            r.children_total == count_p(self.p_data@, |p: Person| !p.is_adult()),
    {
        let mut occupied_no_hrp: usize = 0;
        let mut occupied_not_filled: usize = 0;
        let mut occupied_total: usize = 0;
        let mut single_occupant_not_filled: usize = 0;
        let mut sp1: usize = 0;
        let mut sp2: usize = 0;
        let mut sp3: usize = 0;
        let mut cpl0: usize = 0;
        let mut cpl1: usize = 0;
        let mut cpl2: usize = 0;
        let mut mixed_small: usize = 0;
        let mut mixed: usize = 0;
        let n_houses = self.h_data.len();
        let mut j: usize = 0;
        while j < n_houses
            invariant
                n_houses == self.h_data@.len(),
                j <= n_houses,
                occupied_no_hrp == count_h(
                    self.h_data@.take(j as int),
                    |h: Household| h.lc4408_c_ahthuk11 > 0 && h.hrpid is None,
                ),
                occupied_not_filled == count_h(
                    self.h_data@.take(j as int),
                    |h: Household| h.lc4408_c_ahthuk11 > 0 && h.filled is None,
                ),
                occupied_total == count_h(
                    self.h_data@.take(j as int),
                    |h: Household| h.lc4408_c_ahthuk11 > 0,
                ),
                single_occupant_not_filled == count_h(
                    self.h_data@.take(j as int),
                    |h: Household| h.lc4408_c_ahthuk11 == 1 && h.filled is None,
                ),
                sp1 == count_h(
                    self.h_data@.take(j as int),
                    |h: Household| h.lc4408_c_ahthuk11 == 4 && h.lc4404_c_sizhuk11 == 2
                        && h.filled is None,
                ),
                sp2 == count_h(
                    self.h_data@.take(j as int),
                    |h: Household| h.lc4408_c_ahthuk11 == 4 && h.lc4404_c_sizhuk11 == 3
                        && h.filled is None,
                ),
                sp3 == count_h(
                    self.h_data@.take(j as int),
                    |h: Household| h.lc4408_c_ahthuk11 == 4 && h.lc4404_c_sizhuk11 == 4
                        && h.filled is None,
                ),
                cpl0 == count_h(
                    self.h_data@.take(j as int),
                    |h: Household| (h.lc4408_c_ahthuk11 == 2 || h.lc4408_c_ahthuk11 == 3)
                        && h.lc4404_c_sizhuk11 == 2 && h.filled is None,
                ),
                cpl1 == count_h(
                    self.h_data@.take(j as int),
                    |h: Household| (h.lc4408_c_ahthuk11 == 2 || h.lc4408_c_ahthuk11 == 3)
                        && h.lc4404_c_sizhuk11 == 3 && h.filled is None,
                ),
                cpl2 == count_h(
                    self.h_data@.take(j as int),
                    |h: Household| (h.lc4408_c_ahthuk11 == 2 || h.lc4408_c_ahthuk11 == 3)
                        && h.lc4404_c_sizhuk11 == 4 && h.filled is None,
                ),
                mixed_small == count_h(
                    self.h_data@.take(j as int),
                    |h: Household| h.lc4408_c_ahthuk11 == 5 && h.lc4404_c_sizhuk11 < 4
                        && h.filled is None,
                ),
                mixed == count_h(
                    self.h_data@.take(j as int),
                    |h: Household| h.lc4408_c_ahthuk11 == 5 && h.lc4404_c_sizhuk11 == 4
                        && h.filled is None,
                ),
                occupied_no_hrp <= j && occupied_not_filled <= j && occupied_total <= j
                    && single_occupant_not_filled <= j && sp1 <= j && sp2 <= j && sp3 <= j && cpl0
                    <= j && cpl1 <= j && cpl2 <= j && mixed_small <= j && mixed <= j,
            decreases n_houses - j,
        {
            proof {
                assert(self.h_data@.take(j as int + 1).drop_last() =~= self.h_data@.take(j as int));
                assert(self.h_data@.take(j as int + 1).last() == self.h_data@[j as int]);
            }
            let class = self.h_data[j].lc4408_c_ahthuk11;
            let size = self.h_data[j].lc4404_c_sizhuk11;
            let no_hrp = self.h_data[j].hrpid.is_none();
            let not_filled = self.h_data[j].filled.is_none();
            if class > 0 && no_hrp {
                occupied_no_hrp += 1;
            }
            if class > 0 && not_filled {
                occupied_not_filled += 1;
            }
            if class > 0 {
                occupied_total += 1;
            }
            if class == 1 && not_filled {
                single_occupant_not_filled += 1;
            }
            if class == 4 && size == 2 && not_filled {
                sp1 += 1;
            }
            if class == 4 && size == 3 && not_filled {
                sp2 += 1;
            }
            if class == 4 && size == 4 && not_filled {
                sp3 += 1;
            }
            if (class == 2 || class == 3) && size == 2 && not_filled {
                cpl0 += 1;
            }
            if (class == 2 || class == 3) && size == 3 && not_filled {
                cpl1 += 1;
            }
            if (class == 2 || class == 3) && size == 4 && not_filled {
                cpl2 += 1;
            }
            if class == 5 && size < 4 && not_filled {
                mixed_small += 1;
            }
            if class == 5 && size == 4 && not_filled {
                mixed += 1;
            }
            j += 1;
        }
        let mut adults_unassigned: usize = 0;
        let mut adults_total: usize = 0;
        let mut children_unassigned: usize = 0;
        let mut children_total: usize = 0;
        let n_people = self.p_data.len();
        let mut i: usize = 0;
        while i < n_people
            invariant
                n_people == self.p_data@.len(),
                i <= n_people,
                adults_unassigned == count_p(
                    self.p_data@.take(i as int),
                    |p: Person| p.is_adult() && p.hid is None,
                ),
                adults_total == count_p(self.p_data@.take(i as int), |p: Person| p.is_adult()),
                children_unassigned == count_p(
                    self.p_data@.take(i as int),
                    |p: Person| !p.is_adult() && p.hid is None,
                ),
                children_total == count_p(self.p_data@.take(i as int), |p: Person| !p.is_adult()),
                adults_unassigned <= i && adults_total <= i && children_unassigned <= i
                    && children_total <= i,
            decreases n_people - i,
        {
            proof {
                assert(self.p_data@.take(i as int + 1).drop_last() =~= self.p_data@.take(i as int));
                assert(self.p_data@.take(i as int + 1).last() == self.p_data@[i as int]);
            }
            let adult = self.p_data[i].age.0 > crate::ADULT_AGE;
            let unassigned = self.p_data[i].hid.is_none();
            if adult && unassigned {
                adults_unassigned += 1;
            }
            if adult {
                adults_total += 1;
            }
            if !adult && unassigned {
                children_unassigned += 1;
            }
            if !adult {
                children_total += 1;
            }
            i += 1;
        }
        proof {
            assert(self.h_data@.take(n_houses as int) =~= self.h_data@);
            assert(self.p_data@.take(n_people as int) =~= self.p_data@);
        }
        CheckReport {
            occupied_no_hrp,
            occupied_not_filled,
            occupied_total,
            single_occupant_not_filled,
            single_parent_one_child_not_filled: sp1,
            single_parent_two_children_not_filled: sp2,
            single_parent_more_not_filled: sp3,
            couple_no_children_not_filled: cpl0,
            couple_one_child_not_filled: cpl1,
            couple_more_children_not_filled: cpl2,
            mixed_small_not_filled: mixed_small,
            mixed_large_not_filled: mixed,
            adults_unassigned,
            adults_total,
            children_unassigned,
            children_total,
        }
    }
}

/// A person's household field is set exactly when they are in the matched
/// set; this holds of a loaded engine and after every stage.
pub proof fn lemma_hid_iff_matched(a: Assignment, i: int)
    requires
        a.wf(),
        0 <= i < a.p_data@.len(),
    ensures
        a.p_data@[i].hid is Some <==> a.queues.matched_set().contains(i as usize),
{
}

/// No person anchors two households: households pointing at the same
/// reference person are the same household.
pub proof fn lemma_hrp_unique(a: Assignment, j1: int, j2: int)
    requires
        a.wf(),
        0 <= j1 < a.h_data@.len(),
        0 <= j2 < a.h_data@.len(),
        a.h_data@[j1].hrpid is Some,
        a.h_data@[j1].hrpid == a.h_data@[j2].hrpid,
    ensures
        j1 == j2,
{
    let q = a.h_data@[j1].hrpid->Some_0;
    assert(a.p_data@[q.0 as int].hid == Some(HID(j1 as usize)));
    assert(a.p_data@[q.0 as int].hid == Some(HID(j2 as usize)));
}

/// Every filled non-communal household is occupied: at least its reference
/// person points at it. Communal establishments are marked filled even on a
/// failed draw, and the tolerated misses of the other stages may leave a
/// filled household below its size, so one occupant is what every filled
/// non-communal household is guaranteed.
pub proof fn lemma_filled_household_occupied(a: Assignment, j: int)
    requires
        a.wf(),
        0 <= j < a.h_data@.len(),
        a.h_data@[j].is_filled(),
        !a.h_data@[j].is_communal(),
    ensures
        exists|i: int|
            0 <= i < a.p_data@.len() && (#[trigger] a.p_data@[i]).hid == Some(HID(j as usize)),
{
    let q = a.h_data@[j].hrpid->Some_0;
    assert(a.p_data@[q.0 as int].hid == Some(HID(j as usize)));
}

/// Whether a small-area is one of the given set.
pub fn contains_oa(oas: &Vec<OA>, x: OA) -> (r: bool)
    ensures
        r == oas@.contains(x),
{
    let mut i: usize = 0;
    let n = oas.len();
    while i < n
        invariant
            n == oas@.len(),
            i <= n,
            forall|l: int| 0 <= l < i ==> oas@[l] != x,
        decreases n - i,
    {
        if oas[i].0 == x.0 {
            return true;
        }
        i += 1;
    }
    false
}

/// Whether a region code is Scottish: it begins with `S`.
pub open spec fn spec_is_scottish(region: &str) -> bool {
    region.spec_bytes().len() > 0 && region.spec_bytes()[0] == 'S' as u8
}

/// The executable region test.
pub fn is_scottish(region: &str) -> (r: bool)
    ensures
        r == spec_is_scottish(region),
{
    let b = region.as_bytes();
    b.len() > 0 && b[0] == 83
}

} // verus!
