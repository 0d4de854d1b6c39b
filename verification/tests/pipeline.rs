use spenser_rs::areas::{assign_area_ids, lex_cmp};
use spenser_rs::assignment::{
    class_matches, distinct_msoas, map_eth, map_eth_value, Assignment, EthMapping, GeogEntry,
    HhType, Parent,
};
use spenser_rs::config::{Config, Projection, Resolution, Year};
use spenser_rs::household::{Household, HID};
use spenser_rs::person::{parse_bool_literal, ChildHRPerson, HRPerson, PartnerHRPerson, Person};
use spenser_rs::queues::{AdultOrChild, Queues};
use spenser_rs::{Age, AssignmentError, Eth, EthEW, Sex, MSOA, OA};

fn config() -> Config {
    Config {
        person_resolution: Resolution::MSOA11,
        household_resolution: Resolution::OA11,
        projection: Projection::PPP,
        strict: false,
        year: Year(2020),
        data_dir: "tests/data/".to_string(),
        profile: false,
    }
}

fn person(pid: usize, msoa: usize, sex: usize, age: usize, eth: i32) -> Person {
    Person {
        pid,
        msoa: MSOA(msoa),
        sex: Sex(sex),
        age: Age(age),
        eth: Eth(eth),
        hid: None,
    }
}

fn household(hid: usize, oa: usize, class: i32, size: i32) -> Household {
    Household {
        hid,
        area: OA(oa),
        lc4402_c_typaccom: 0,
        qs420_cell: -1,
        lc4402_c_tenhuk11: 0,
        lc4408_c_ahthuk11: class,
        communal_size: 0,
        lc4404_c_sizhuk11: size,
        lc4404_c_rooms: 0,
        lc4405ew_c_bedrooms: 0,
        lc4408ew_c_ppbroomhew11: 0,
        lc4402_c_cenheathuk11: 0,
        lc4605_c_nssec: 0,
        lc4202_c_ethhuk11: Eth(2),
        lc4202_c_carsno: 0,
        hrpid: None,
        filled: None,
    }
}

fn hrp_row(age: usize, sex: Option<usize>, eth: i32, n: usize) -> HRPerson {
    HRPerson {
        age: Age(age),
        sex: sex.map(Sex),
        eth: Eth(eth),
        n,
    }
}

fn partner_row(age: usize, agehrp: usize, ethew: i32, eth: i32, n: usize, samesex: bool) -> PartnerHRPerson {
    PartnerHRPerson {
        age: Age(age),
        agehrp: Age(agehrp),
        ethnicityew: EthEW(ethew),
        eth: Eth(eth),
        n,
        samesex,
    }
}

fn child_row(age: usize, sex: usize, agehrp: usize, ethew: i32, eth: i32, n: usize) -> ChildHRPerson {
    ChildHRPerson {
        age: Age(age),
        sex: Sex(sex),
        agehrp: Age(agehrp),
        ethnicityew: EthEW(ethew),
        eth: Eth(eth),
        n,
    }
}

/// Default distribution tables: one adult row each, weight 1. Raw person
/// ethnicity 2 maps to 2 under the non-Scottish remapping.
fn tables() -> (Vec<HRPerson>, Vec<HRPerson>, Vec<HRPerson>, Vec<HRPerson>, Vec<PartnerHRPerson>, Vec<ChildHRPerson>) {
    (
        vec![hrp_row(30, Some(1), 2, 1)],
        vec![hrp_row(30, Some(1), 2, 1)],
        vec![hrp_row(30, Some(1), 2, 1)],
        vec![hrp_row(30, Some(1), 2, 1)],
        vec![partner_row(31, 30, 2, 2, 1, false)],
        vec![child_row(5, 1, 30, 2, 2, 1)],
    )
}

fn engine(
    seed: u64,
    h: Vec<Household>,
    p: Vec<Person>,
    geog: Vec<GeogEntry>,
) -> Assignment {
    let (sgl, cpl, sp, mix, partner, child) = tables();
    Assignment::new("E09000001", seed, &config(), h, p, geog, sgl, cpl, sp, mix, partner, child)
        .expect("engine should load")
}

fn geog(oa: usize, msoa: usize) -> GeogEntry {
    GeogEntry {
        oa: OA(oa),
        msoa: MSOA(msoa),
    }
}

#[test]
fn test_empty_population_runs_clean() {
    // With no persons every stage succeeds and no household is touched.
    let mut a = engine(0, vec![household(0, 0, 1, 1)], vec![], vec![geog(0, 0)]);
    assert!(a.run().is_ok());
    assert!(a.h_data[0].hrpid.is_none());
    assert!(a.h_data[0].filled.is_none());
    let stats = a.info_stats();
    assert_eq!(stats.assigned_people, 0);
    assert_eq!(stats.assigned_households, 0);
}

#[test]
fn test_empty_households_leaves_everyone_unmatched() {
    // With no households nobody is assigned and everyone stays unmatched.
    let p = vec![person(0, 0, 1, 30, 2), person(1, 0, 2, 40, 2)];
    let mut a = engine(0, vec![], p, vec![geog(0, 0)]);
    assert!(a.run().is_ok());
    for i in 0..a.p_data.len() {
        assert!(a.p_data[i].hid.is_none());
        assert!(!a.queues.matched.contains(i));
        assert!(a.queues.unmatched.contains(i));
    }
}

#[test]
fn test_single_occupant_household_filled_by_stage_a() {
    // One single-occupant household, one matching adult: stage A fills it.
    let p = vec![person(0, 0, 1, 30, 2)];
    let h = vec![household(0, 0, 1, 1)];
    let mut a = engine(0, h, p, vec![geog(0, 0)]);
    let oas = vec![OA(0)];
    a.sample_hrp(MSOA(0), &oas).expect("stage A should match");
    assert_eq!(a.h_data[0].hrpid, Some(spenser_rs::person::PID(0)));
    assert_eq!(a.h_data[0].filled, Some(true));
    assert_eq!(a.p_data[0].hid, Some(HID(0)));
    assert!(a.queues.matched.contains(0));
    assert!(!a.queues.unmatched.contains(0));
    // No queue can hand the adult out again.
    let snapshot = a.p_data.clone();
    assert_eq!(a.queues.sample_adult_any(MSOA(0), &snapshot), None);
}

#[test]
fn test_hid_set_iff_matched_after_stages() {
    let p = vec![
        person(0, 0, 1, 30, 2),
        person(1, 0, 2, 31, 2),
        person(2, 0, 1, 5, 2),
    ];
    let h = vec![household(0, 0, 1, 1), household(1, 0, 4, 2)];
    let mut a = engine(0, h, p, vec![geog(0, 0)]);
    assert!(a.run().is_ok());
    for i in 0..a.p_data.len() {
        assert_eq!(a.p_data[i].hid.is_some(), a.queues.matched.contains(i));
        assert_eq!(a.p_data[i].hid.is_none(), a.queues.unmatched.contains(i));
    }
}

#[test]
fn test_no_household_shares_a_reference_person() {
    let p = vec![
        person(0, 0, 1, 30, 2),
        person(1, 0, 1, 31, 2),
        person(2, 0, 2, 52, 2),
    ];
    let h = vec![household(0, 0, 1, 1), household(1, 0, 1, 1), household(2, 0, 5, 3)];
    let mut a = engine(0, h, p, vec![geog(0, 0)]);
    assert!(a.run().is_ok());
    let mut seen = Vec::new();
    for j in 0..a.h_data.len() {
        if let Some(pid) = a.h_data[j].hrpid {
            assert!(!seen.contains(&pid.0), "person anchors two households");
            seen.push(pid.0);
        }
    }
}

#[test]
fn test_two_singles_both_filled_and_untouched_later() {
    // Two persons of the same sex and ethnicity, ages 30 and 31; two
    // single-occupant households. Stage A fills both; no later stage
    // touches them.
    let p = vec![person(0, 0, 1, 30, 2), person(1, 0, 1, 31, 2)];
    let h = vec![household(0, 0, 1, 1), household(1, 0, 1, 1)];
    let mut a = engine(0, h, p, vec![geog(0, 0)]);
    let oas = vec![OA(0)];
    a.sample_hrp(MSOA(0), &oas).expect("stage A should match");
    assert_eq!(a.h_data[0].filled, Some(true));
    assert_eq!(a.h_data[1].filled, Some(true));
    let hrp0 = a.h_data[0].hrpid;
    let hrp1 = a.h_data[1].hrpid;
    let hid0 = a.p_data[0].hid;
    let hid1 = a.p_data[1].hid;
    assert!(hrp0.is_some() && hrp1.is_some());
    assert_ne!(hrp0, hrp1);
    // Run the rest of the pipeline's stages for this area.
    a.sample_partner(MSOA(0), &oas);
    a.sample_child(MSOA(0), &oas, 2, true, Parent::Single);
    a.sample_child(MSOA(0), &oas, 3, true, Parent::Single);
    a.sample_child(MSOA(0), &oas, 4, true, Parent::Single);
    a.sample_child(MSOA(0), &oas, 3, true, Parent::Couple);
    a.sample_child(MSOA(0), &oas, 4, true, Parent::Couple);
    a.fill_multi(MSOA(0), &oas, 2, true);
    a.fill_multi(MSOA(0), &oas, 3, true);
    a.fill_multi(MSOA(0), &oas, 4, false);
    a.fill_communal(MSOA(0), &oas);
    a.assign_surplus_adults(MSOA(0), &oas);
    a.assign_surplus_children(MSOA(0), &oas);
    assert_eq!(a.h_data[0].hrpid, hrp0);
    assert_eq!(a.h_data[1].hrpid, hrp1);
    assert_eq!(a.p_data[0].hid, hid0);
    assert_eq!(a.p_data[1].hid, hid1);
}

#[test]
fn test_single_parent_household_filled_with_both_pointing() {
    // A single class-4 household of size 2 in small-area 1 inside
    // middle-area 0; one adult and one child. After stage A and the first
    // child call, both persons point at it and it is filled.
    let p = vec![person(0, 0, 1, 30, 2), person(1, 0, 1, 5, 2)];
    let h = vec![household(0, 1, 4, 2)];
    let mut a = engine(0, h, p, vec![geog(1, 0)]);
    let oas = vec![OA(1)];
    a.sample_hrp(MSOA(0), &oas).expect("stage A should match");
    a.sample_child(MSOA(0), &oas, 2, true, Parent::Single);
    assert_eq!(a.h_data[0].filled, Some(true));
    assert_eq!(a.p_data[0].hid, Some(HID(0)));
    assert_eq!(a.p_data[1].hid, Some(HID(0)));
}

#[test]
fn test_communal_exhaustion_puts_drawn_persons_back() {
    // A communal household of type 10 wants 3 persons from the over-75
    // band, but only 2 are there: it is marked filled, nobody is taken,
    // and both persons stay available.
    let p = vec![person(0, 0, 1, 80, 2), person(1, 0, 1, 80, 2)];
    let mut h = household(0, 0, -1, 0);
    h.qs420_cell = 10;
    h.communal_size = 3;
    let mut a = engine(0, vec![h], p, vec![geog(0, 0)]);
    let oas = vec![OA(0)];
    a.fill_communal(MSOA(0), &oas);
    assert_eq!(a.h_data[0].filled, Some(true));
    assert!(a.p_data[0].hid.is_none());
    assert!(a.p_data[1].hid.is_none());
    assert!(a.queues.unmatched.contains(0));
    assert!(a.queues.unmatched.contains(1));
    // The put-back persons can still be drawn from their band queue.
    let p_snapshot = a.p_data.clone();
    assert!(a.queues.sample_person_over_75(MSOA(0), &p_snapshot).is_some());
    assert!(a.queues.sample_person_over_75(MSOA(0), &p_snapshot).is_some());
}

#[test]
fn test_surplus_adults_all_point_at_open_household() {
    // One unfilled class-5 household and three unassigned adults: stage F
    // assigns all three to it, sizes notwithstanding.
    let p = vec![
        person(0, 0, 1, 30, 2),
        person(1, 0, 1, 40, 2),
        person(2, 0, 2, 50, 2),
    ];
    let h = vec![household(0, 0, 5, 2)];
    let mut a = engine(0, h, p, vec![geog(0, 0)]);
    let oas = vec![OA(0)];
    a.assign_surplus_adults(MSOA(0), &oas);
    for i in 0..3 {
        assert_eq!(a.p_data[i].hid, Some(HID(0)));
        assert!(a.queues.matched.contains(i));
    }
}

#[test]
fn test_surplus_children_assigned_by_ethnicity() {
    // A child of ethnicity 3 and an unfilled class-4 household of the same
    // ethnicity: stage G assigns the child to it.
    let p = vec![person(0, 0, 1, 10, 3)];
    let mut h = household(0, 0, 4, 2);
    h.lc4202_c_ethhuk11 = Eth(3);
    let mut a = engine(0, vec![h], p, vec![geog(0, 0)]);
    let oas = vec![OA(0)];
    a.assign_surplus_children(MSOA(0), &oas);
    assert_eq!(a.p_data[0].hid, Some(HID(0)));
}

#[test]
fn test_full_pipeline_counts_are_consistent() {
    // Run the full pipeline on a small mixed population and hold the final
    // counts against the per-stage counters.
    let p = vec![
        person(0, 0, 1, 30, 2),
        person(1, 0, 2, 31, 2),
        person(2, 0, 1, 5, 2),
        person(3, 0, 2, 40, 2),
        person(4, 1, 1, 35, 2),
    ];
    let h = vec![
        household(0, 0, 1, 1),
        household(1, 0, 4, 2),
        household(2, 0, 5, 2),
        household(3, 2, 1, 1),
    ];
    let g = vec![geog(0, 0), geog(2, 1)];
    let mut a = engine(0, h, p, vec![g[0], g[1]]);
    let before = a.info_stats();
    assert_eq!(before.assigned_people, 0);
    a.run().expect("pipeline should succeed");
    let stats = a.info_stats();
    // Every person counted once.
    assert_eq!(stats.assigned_people + stats.remaining_people, stats.total_people);
    assert_eq!(stats.total_people, 5);
    // Count assignments by hand and against the report.
    let by_hand = a.p_data.iter().filter(|p| p.hid.is_some()).count();
    assert_eq!(stats.assigned_people, by_hand);
    let report = a.check();
    assert_eq!(report.adults_total + report.children_total, 5);
    assert_eq!(
        report.adults_unassigned + report.children_unassigned,
        stats.remaining_people
    );
    // Only categories allowed to remain unfilled may be unfilled: every
    // single-occupant household in a processed area must be filled.
    assert_eq!(a.h_data[0].filled, Some(true));
}

#[test]
fn test_same_seed_same_output() {
    // The pipeline is a function of its seed and inputs.
    let build = || {
        let p = vec![
            person(0, 0, 1, 30, 2),
            person(1, 0, 2, 31, 2),
            person(2, 0, 1, 5, 2),
            person(3, 0, 2, 40, 2),
            person(4, 0, 1, 35, 2),
            person(5, 0, 2, 8, 2),
        ];
        let h = vec![
            household(0, 0, 1, 1),
            household(1, 0, 2, 3),
            household(2, 0, 4, 2),
            household(3, 0, 5, 2),
        ];
        engine(7, h, p, vec![geog(0, 0)])
    };
    let mut a1 = build();
    let mut a2 = build();
    a1.run().expect("first run");
    a2.run().expect("second run");
    for i in 0..a1.p_data.len() {
        assert_eq!(a1.p_data[i].hid, a2.p_data[i].hid);
    }
    for j in 0..a1.h_data.len() {
        assert_eq!(a1.h_data[j].hrpid, a2.h_data[j].hrpid);
        assert_eq!(a1.h_data[j].filled, a2.h_data[j].filled);
    }
}

#[test]
fn test_weighted_rows_with_zero_weight_never_drawn() {
    // Two adults of different ages; the reference-person table gives all
    // weight to age 30, so the age-30 adult is matched exactly first.
    let p = vec![person(0, 0, 1, 30, 2), person(1, 0, 1, 60, 2)];
    let h = vec![household(0, 0, 1, 1)];
    let (mut sgl, cpl, sp, mix, partner, child) = tables();
    sgl = vec![hrp_row(30, Some(1), 2, 1), hrp_row(60, Some(1), 2, 0)];
    let mut a = Assignment::new(
        "E09000001",
        0,
        &config(),
        h,
        p,
        vec![geog(0, 0)],
        sgl,
        cpl,
        sp,
        mix,
        partner,
        child,
    )
    .expect("engine should load");
    let oas = vec![OA(0)];
    a.sample_hrp(MSOA(0), &oas).expect("stage A should match");
    // The zero-weight row must never be drawn, so the exact age-30 person
    // anchors the household.
    assert_eq!(a.h_data[0].hrpid, Some(spenser_rs::person::PID(0)));
}

#[test]
fn test_ethnicity_remap_to_unified_code() {
    // A non-Scottish person row with raw ethnicity 22 ends up with 8.
    let p = vec![person(0, 0, 1, 30, 22)];
    let a = engine(0, vec![], p, vec![]);
    assert_eq!(a.p_data[0].eth, Eth(8));
}

#[test]
fn test_ethnicity_remap_rejects_unknown_code() {
    // A raw value absent from the active mapping is a fatal input error.
    let p = vec![person(0, 0, 1, 30, 99)];
    let (sgl, cpl, sp, mix, partner, child) = tables();
    let r = Assignment::new(
        "E09000001", 0, &config(), vec![], p, vec![], sgl, cpl, sp, mix, partner, child,
    );
    assert_eq!(r.err(), Some(AssignmentError::InvalidMapping));
}

#[test]
fn test_scottish_remap_applies_both_passes() {
    // Scottish regions remap persons twice: raw 22 -> 6 -> 8.
    let p = vec![person(0, 0, 1, 30, 22)];
    let (sgl, cpl, sp, mix, partner, child) = tables();
    let a = Assignment::new(
        "S12000033", 0, &config(), vec![], p, vec![], sgl, cpl, sp, mix, partner, child,
    )
    .expect("engine should load");
    assert!(a.scotland);
    assert_eq!(a.p_data[0].eth, Eth(8));
}

#[test]
fn test_bad_identifier_rejected() {
    // A person row whose identifier does not match its position is fatal.
    let p = vec![person(5, 0, 1, 30, 2)];
    let (sgl, cpl, sp, mix, partner, child) = tables();
    let r = Assignment::new(
        "E09000001", 0, &config(), vec![], p, vec![], sgl, cpl, sp, mix, partner, child,
    );
    assert_eq!(r.err(), Some(AssignmentError::BadIdentifier));
}

#[test]
fn test_bad_sex_code_rejected() {
    let p = vec![person(0, 0, 3, 30, 2)];
    let (sgl, cpl, sp, mix, partner, child) = tables();
    let r = Assignment::new(
        "E09000001", 0, &config(), vec![], p, vec![], sgl, cpl, sp, mix, partner, child,
    );
    assert_eq!(r.err(), Some(AssignmentError::BadIdentifier));
}

#[test]
fn test_zero_weight_table_rejected() {
    let (mut sgl, cpl, sp, mix, partner, child) = tables();
    sgl = vec![hrp_row(30, Some(1), 2, 0)];
    let r = Assignment::new(
        "E09000001", 0, &config(), vec![], vec![], vec![], sgl, cpl, sp, mix, partner, child,
    );
    assert_eq!(r.err(), Some(AssignmentError::BadTable));
}

#[test]
fn test_missing_sex_in_drawn_row_is_fatal() {
    // The single-occupant table's only row has no sex: drawing it for a
    // household is a contract error.
    let p = vec![person(0, 0, 1, 30, 2)];
    let h = vec![household(0, 0, 1, 1)];
    let (mut sgl, cpl, sp, mix, partner, child) = tables();
    sgl = vec![hrp_row(30, None, 2, 1)];
    let mut a = Assignment::new(
        "E09000001", 0, &config(), h, p, vec![geog(0, 0)], sgl, cpl, sp, mix, partner, child,
    )
    .expect("engine should load");
    let r = a.run();
    assert_eq!(r.err(), Some(AssignmentError::MissingSex));
}

#[test]
fn test_unmatchable_reference_person_is_fatal() {
    // A household but only a child in the area: stage A cannot anchor it.
    let p = vec![person(0, 0, 1, 5, 2)];
    let h = vec![household(0, 0, 1, 1)];
    let mut a = engine(0, h, p, vec![geog(0, 0)]);
    let r = a.run();
    assert_eq!(r.err(), Some(AssignmentError::NoMatch));
}

#[test]
fn test_relaxed_matching_degrades_on_ethnicity_then_sex() {
    // The only adult differs from the drawn row in ethnicity and sex; the
    // four-level relaxation still finds them, never leaving the area.
    let p = vec![person(0, 0, 2, 60, 7)];  // raw 7 maps to 5
    let h = vec![household(0, 0, 1, 1)];
    let mut a = engine(0, h, p, vec![geog(0, 0)]);
    let oas = vec![OA(0)];
    a.sample_hrp(MSOA(0), &oas).expect("relaxation should match");
    assert_eq!(a.p_data[0].hid, Some(HID(0)));
}

#[test]
fn test_partner_assigned_and_size_two_couple_filled() {
    // A couple household of size 2: stage A anchors it, stage B adds the
    // partner of the opposite sex and fills it.
    let p = vec![person(0, 0, 1, 30, 2), person(1, 0, 2, 31, 2)];
    let h = vec![household(0, 0, 2, 2)];
    let mut a = engine(0, h, p, vec![geog(0, 0)]);
    let oas = vec![OA(0)];
    a.sample_hrp(MSOA(0), &oas).expect("stage A should match");
    assert!(a.h_data[0].filled.is_none());
    a.sample_partner(MSOA(0), &oas);
    assert_eq!(a.h_data[0].filled, Some(true));
    assert!(a.p_data[0].hid.is_some());
    assert!(a.p_data[1].hid.is_some());
    // The reference person is not overwritten by the partner.
    assert_eq!(a.h_data[0].hrpid, Some(spenser_rs::person::PID(0)));
}

#[test]
fn test_class_groupings_partition_the_range() {
    for c in 1..=5 {
        let hits = [HhType::Sgl, HhType::Cpl, HhType::Sp, HhType::Mix]
            .iter()
            .filter(|t| class_matches(**t, c))
            .count();
        assert_eq!(hits, 1, "class {c} must lie in exactly one grouping");
    }
    for c in [-1, 0, 6] {
        for t in [HhType::Sgl, HhType::Cpl, HhType::Sp, HhType::Mix] {
            assert!(!class_matches(t, c));
        }
    }
}

#[test]
fn test_parse_bool_literal_accepts_any_casing() {
    assert_eq!(parse_bool_literal(b"TRUE"), Some(true));
    assert_eq!(parse_bool_literal(b"true"), Some(true));
    assert_eq!(parse_bool_literal(b"True"), Some(true));
    assert_eq!(parse_bool_literal(b"FALSE"), Some(false));
    assert_eq!(parse_bool_literal(b"False"), Some(false));
    assert_eq!(parse_bool_literal(b"yes"), None);
    assert_eq!(parse_bool_literal(b""), None);
    assert_eq!(parse_bool_literal(b"truee"), None);
}

#[test]
fn test_sex_opposite() {
    assert_eq!(Sex(1).opposite(), Sex(2));
    assert_eq!(Sex(2).opposite(), Sex(1));
}

#[test]
fn test_eth_mapping_values() {
    assert_eq!(map_eth_value(EthMapping::EnglandWales, 22), Some(8));
    assert_eq!(map_eth_value(EthMapping::EnglandWales, -1), Some(1));
    assert_eq!(map_eth_value(EthMapping::EnglandWales, 11), None);
    assert_eq!(map_eth_value(EthMapping::ScotlandRaw, 22), Some(6));
    assert_eq!(map_eth_value(EthMapping::ScotlandUnified, 6), Some(8));
    let p = vec![person(0, 0, 1, 30, 5)];
    let mapped = map_eth(p, EthMapping::EnglandWales).expect("mappable");
    assert_eq!(mapped[0].eth, Eth(4));
}

#[test]
fn test_area_ids_follow_lexicographic_order() {
    let codes = vec![
        b"E02000002".to_vec(),
        b"E02000001".to_vec(),
        b"E02000002".to_vec(),
        b"E01".to_vec(),
    ];
    let (ids, dict) = assign_area_ids(&codes);
    assert_eq!(dict, vec![b"E01".to_vec(), b"E02000001".to_vec(), b"E02000002".to_vec()]);
    assert_eq!(ids, vec![2, 1, 2, 0]);
}

#[test]
fn test_lex_cmp_orders_prefixes_first() {
    assert_eq!(lex_cmp(&b"abc".to_vec(), &b"abd".to_vec()), -1);
    assert_eq!(lex_cmp(&b"abc".to_vec(), &b"abc".to_vec()), 0);
    assert_eq!(lex_cmp(&b"ab".to_vec(), &b"abc".to_vec()), -1);
    assert_eq!(lex_cmp(&b"b".to_vec(), &b"abc".to_vec()), 1);
}

#[test]
fn test_distinct_msoas_sorted_unique() {
    let p = vec![
        person(0, 3, 1, 30, 2),
        person(1, 1, 1, 30, 2),
        person(2, 3, 1, 30, 2),
        person(3, 2, 1, 30, 2),
    ];
    assert_eq!(distinct_msoas(&p), vec![1, 2, 3]);
}

#[test]
fn test_multi_fill_marks_matching_size() {
    // Two class-5 households of sizes 2 and 3; filling with size 2 marks
    // only the first.
    let p = vec![
        person(0, 0, 1, 30, 2),
        person(1, 0, 1, 40, 2),
        person(2, 0, 2, 50, 2),
    ];
    let h = vec![household(0, 0, 5, 2), household(1, 0, 5, 3)];
    let mut a = engine(0, h, p, vec![geog(0, 0)]);
    let oas = vec![OA(0)];
    a.sample_hrp(MSOA(0), &oas).expect("stage A should match");
    a.fill_multi(MSOA(0), &oas, 2, true);
    assert_eq!(a.h_data[0].filled, Some(true));
    assert!(a.h_data[1].filled.is_none());
}

#[test]
fn test_child_sampling_never_relaxes_sex() {
    // The child table asks for a sex-1 child; only a sex-2 child lives in
    // the area. Child matching relaxes ethnicity and age but never sex, so
    // the household gains no child and stays unfilled.
    let p = vec![person(0, 0, 1, 30, 2), person(1, 0, 2, 7, 2)];
    let h = vec![household(0, 0, 4, 2)];
    let mut a = engine(0, h, p, vec![geog(0, 0)]);
    let oas = vec![OA(0)];
    a.sample_hrp(MSOA(0), &oas).expect("stage A should match");
    a.sample_child(MSOA(0), &oas, 2, true, Parent::Single);
    assert!(a.p_data[1].hid.is_none());
    assert!(a.h_data[0].filled.is_none());
}

#[test]
fn test_partner_sex_follows_samesex_flag() {
    // The only partner row is opposite-sex for a reference person drawn
    // male; the exact level must pick the age-31 female, not the male.
    let p = vec![
        person(0, 0, 1, 30, 2),
        person(1, 0, 1, 31, 2),
        person(2, 0, 2, 31, 2),
    ];
    let h = vec![household(0, 0, 2, 2)];
    let mut a = engine(0, h, p, vec![geog(0, 0)]);
    let oas = vec![OA(0)];
    a.sample_hrp(MSOA(0), &oas).expect("stage A should match");
    assert_eq!(a.h_data[0].hrpid, Some(spenser_rs::person::PID(0)));
    a.sample_partner(MSOA(0), &oas);
    // The opposite-sex exact match is taken; the same-sex person stays.
    assert_eq!(a.p_data[2].hid, Some(HID(0)));
    assert!(a.p_data[1].hid.is_none());
}

#[test]
fn test_queue_take_skips_and_exhausts() {
    // Drawing the same demographic repeatedly hands out each person once
    // and then reports exhaustion.
    let p = vec![person(0, 0, 1, 30, 2), person(1, 0, 1, 30, 2)];
    let mut rng = spenser_rs::rng::seed_rng(0);
    let mut q = Queues::new(&p, &mut rng);
    let a = q.sample_person(MSOA(0), Age(30), Sex(1), Eth(2), AdultOrChild::Adult, &p);
    let b = q.sample_person(MSOA(0), Age(30), Sex(1), Eth(2), AdultOrChild::Adult, &p);
    let c = q.sample_person(MSOA(0), Age(30), Sex(1), Eth(2), AdultOrChild::Adult, &p);
    let mut got = vec![a.unwrap(), b.unwrap()];
    got.sort();
    assert_eq!(got, vec![0, 1]);
    assert_eq!(c, None);
}

#[test]
fn test_child_table_bad_sex_rejected() {
    // A child-table row with a sex code outside {1, 2} is an unusable
    // distribution row.
    let (sgl, cpl, sp, mix, partner, mut child) = tables();
    child = vec![child_row(5, 3, 30, 2, 2, 1)];
    let r = Assignment::new(
        "E09000001", 0, &config(), vec![], vec![], vec![], sgl, cpl, sp, mix, partner, child,
    );
    assert_eq!(r.err(), Some(AssignmentError::BadTable));
}

#[test]
fn test_check_mixed_categories_split_by_size() {
    // The unfilled mixed categories split at four occupants.
    let h = vec![household(0, 0, 5, 2), household(1, 0, 5, 4)];
    let a = engine(0, h, vec![], vec![geog(0, 0)]);
    let report = a.check();
    assert_eq!(report.mixed_small_not_filled, 1);
    assert_eq!(report.mixed_large_not_filled, 1);
}
