use polygon_nesting_core::portfolio::archive::{
    assignment_overlap, ArchivedBasin, Overlap, Placement, SearchArchive,
};
use polygon_nesting_core::portfolio::kinds::{
    ActionClass, ArchiveDisposition, BasinOperator, PhaseExitCause, PlanCalibrationSource,
    PortfolioBudget, ProbeArm, WorkCurrencyMode,
};
use polygon_nesting_core::portfolio::meter::{
    calibration_source, charged_extra_units, CalibrationLookup, settle_operator_charge, settled_self_units, work_units_from,
    BudgetMeter, ContractCertificateArming, OperatorCharge, WorkMeterArming,
};
use polygon_nesting_core::portfolio::queue::{
    budget_bound, crossover_cut_key, diversify_action, first_unattempted_crossover_pair,
    ALTERNATION_RUNG_MICRON, BARREN_ACTION_PATIENCE, BASIN_RACE_ARMS, BASIN_RACE_RUNGS,
    COMPRESSION_RUNG_MICRON, CROSSOVER_BANDS_SCANNED, CROSSOVER_CUTS_PER_PAIR,
    DIVERSIFY_AUDITION_BARREN, SCHEDULE_AUDITION_BARREN, SCHEDULE_RUNGS,
    SCHEDULE_STERILE_ACTIONS, SPARSE_ROTATION_AUDITION_BARREN, SPARSE_ROTATION_STERILE_SLICES,
};

fn placement(id: &str, x: f64, y: f64) -> Placement {
    Placement {
        piece_id: id.to_owned(),
        rotation_deg_bits: 0.0f64.to_bits(),
        mirrored: false,
        translate_short_axis_bits: x.to_bits(),
        translate_long_axis_bits: y.to_bits(),
    }
}

fn basin(fingerprint: &str, depth: f64, layout: Vec<Placement>) -> ArchivedBasin {
    ArchivedBasin {
        fingerprint: fingerprint.to_owned(),
        raw_depth_bits: depth.to_bits(),
        birth_seconds_bits: 0.0f64.to_bits(),
        birth_work_units: 0,
        operator: BasinOperator::Mode(20),
        parent_fingerprint: None,
        secondary_parent_fingerprint: None,
        exact_valid: true,
        descents: 0,
        placements: layout,
    }
}

fn half() -> u64 {
    0.5f64.to_bits()
}

#[test]
fn assignment_overlap_counts_identical_poses() {
    let left = vec![placement("a", 0.0, 0.0), placement("b", 1.0, 1.0)];
    let right = vec![placement("a", 0.0, 0.0), placement("b", 2.0, 2.0)];
    assert_eq!(assignment_overlap(&left, &right), Overlap { agreeing: 1, total: 2 });
    assert_eq!(assignment_overlap(&left, &left), Overlap { agreeing: 2, total: 2 });
}

#[test]
fn archive_retains_a_worse_but_different_basin() {
    let mut archive = SearchArchive::new(4, 2, half());
    let good = vec![placement("a", 0.0, 0.0), placement("b", 0.0, 0.0)];
    let worse_and_different = vec![placement("a", 9.0, 9.0), placement("b", 9.0, 9.0)];
    assert_eq!(archive.offer(basin("one", 170.0, good)), ArchiveDisposition::Admitted);
    assert_eq!(
        archive.offer(basin("two", 210.0, worse_and_different)),
        ArchiveDisposition::Admitted
    );
    assert_eq!(archive.basins().len(), 2);
}

#[test]
fn archive_refuses_a_duplicate_fingerprint() {
    let mut archive = SearchArchive::new(4, 2, half());
    let layout = vec![placement("a", 0.0, 0.0), placement("b", 0.0, 0.0)];
    let copy = vec![placement("a", 0.0, 0.0), placement("b", 0.0, 0.0)];
    archive.offer(basin("one", 170.0, layout));
    assert_eq!(archive.offer(basin("one", 160.0, copy)), ArchiveDisposition::Duplicate);
}

#[test]
fn archive_refuses_incomplete_layouts() {
    let mut archive = SearchArchive::new(4, 2, half());
    assert_eq!(
        archive.offer(basin("one", 170.0, vec![placement("a", 0.0, 0.0)])),
        ArchiveDisposition::IncompleteCardinality
    );
}

#[test]
fn full_archive_of_distinct_basins_refuses_rather_than_evicting() {
    let mut archive = SearchArchive::new(2, 2, half());
    archive.offer(basin("one", 170.0, vec![placement("a", 0.0, 0.0), placement("b", 0.0, 0.0)]));
    archive.offer(basin("two", 180.0, vec![placement("a", 5.0, 5.0), placement("b", 5.0, 5.0)]));
    assert_eq!(
        archive.offer(basin("three", 160.0, vec![placement("a", 9.0, 9.0), placement("b", 9.0, 9.0)])),
        ArchiveDisposition::RefusedArchiveFullAllDistinct
    );
    assert_eq!(archive.basins().len(), 2);
}

#[test]
fn full_archive_evicts_only_a_dominated_and_similar_member() {
    let mut archive = SearchArchive::new(2, 2, half());
    archive.offer(basin("one", 170.0, vec![placement("a", 0.0, 0.0), placement("b", 0.0, 0.0)]));
    archive.offer(basin("two", 180.0, vec![placement("a", 0.0, 0.0), placement("b", 4.0, 4.0)]));
    assert_eq!(
        archive.offer(basin("three", 175.0, vec![placement("a", 9.0, 9.0), placement("b", 9.0, 9.0)])),
        ArchiveDisposition::AdmittedAfterEviction
    );
    let kept = archive
        .basins()
        .iter()
        .map(|basin| basin.fingerprint.as_str())
        .collect::<Vec<_>>();
    assert_eq!(kept, vec!["one", "three"]);
}

#[test]
fn distinct_frontier_is_best_first_and_skips_similar() {
    let mut archive = SearchArchive::new(8, 2, half());
    archive.offer(basin("one", 170.0, vec![placement("a", 0.0, 0.0), placement("b", 0.0, 0.0)]));
    archive.offer(basin("near-one", 171.0, vec![placement("a", 0.0, 0.0), placement("b", 3.0, 3.0)]));
    archive.offer(basin("far", 190.0, vec![placement("a", 7.0, 7.0), placement("b", 7.0, 7.0)]));
    let names = archive
        .distinct_frontier(3)
        .iter()
        .map(|basin| basin.fingerprint.clone())
        .collect::<Vec<_>>();
    assert_eq!(names, vec!["one", "far"]);
    archive.charge_descent("one");
    assert_eq!(archive.distinct_frontier(1)[0].fingerprint, "one");
}

#[test]
fn distinct_frontier_breaks_depth_ties_toward_the_least_descended() {
    let mut archive = SearchArchive::new(8, 2, half());
    archive.offer(basin("left", 170.0, vec![placement("a", 0.0, 0.0), placement("b", 0.0, 0.0)]));
    archive.offer(basin("right", 170.0, vec![placement("a", 7.0, 7.0), placement("b", 7.0, 7.0)]));
    assert_eq!(archive.distinct_frontier(1)[0].fingerprint, "left");
    archive.charge_descent("left");
    assert_eq!(archive.distinct_frontier(1)[0].fingerprint, "right");
}

#[test]
fn a_retired_basin_leaves_the_archive() {
    let layout = |offset: f64| vec![placement("a", offset, 0.0)];
    let member = |offset: f64| basin(&format!("fp{offset}"), 100.0 + offset, layout(offset));
    let mut archive = SearchArchive::new(8, 1, 0.9f64.to_bits());
    archive.offer(member(1.0));
    archive.offer(member(2.0));
    assert_eq!(archive.basins().len(), 2);
    assert!(archive.retire("fp1"), "the member was there");
    assert_eq!(archive.basins().len(), 1);
    assert_eq!(archive.basins()[0].fingerprint, "fp2");
    assert!(
        !archive.retire("fp1"),
        "retiring what is not there is a `false`, not a second eviction"
    );
    assert_eq!(archive.basins().len(), 1);
}

#[test]
fn the_archive_report_counts_every_disposition() {
    let mut archive = SearchArchive::new(2, 2, half());
    archive.offer(basin("one", 170.0, vec![placement("a", 0.0, 0.0), placement("b", 0.0, 0.0)]));
    let mut constructed = basin("two", 180.0, vec![placement("a", 0.0, 0.0), placement("b", 4.0, 4.0)]);
    constructed.operator = BasinOperator::Constructor;
    archive.offer(constructed);
    archive.offer(basin("one", 160.0, vec![placement("a", 1.0, 0.0), placement("b", 0.0, 0.0)]));
    archive.offer(basin("short", 160.0, vec![placement("a", 1.0, 0.0)]));
    archive.offer(basin("three", 175.0, vec![placement("a", 9.0, 9.0), placement("b", 9.0, 9.0)]));
    let report = archive.report();
    assert_eq!(report.capacity, 2);
    assert_eq!(report.occupancy, 2);
    assert_eq!(report.admitted, 3);
    assert_eq!(report.duplicates, 1);
    assert_eq!(report.evicted, 1);
    assert_eq!(report.refused_incomplete, 1);
    assert_eq!(report.refused_full, 0);
    assert_eq!(report.by_operator.len(), 1);
    assert_eq!(report.by_operator[0].operator, "mode20");
    assert_eq!(report.by_operator[0].basins, 2);
    assert_eq!(report.occupancy_over_time.len(), 3);
    assert_eq!(report.members[1].fingerprint, "three");
}

#[test]
fn a_zero_threshold_makes_every_pair_similar() {
    let empty: Vec<Placement> = Vec::new();
    let overlap = assignment_overlap(&empty, &empty);
    assert_eq!(overlap, Overlap { agreeing: 0, total: 0 });
    assert!(overlap.reaches(0.0f64.to_bits()));
    assert!(!overlap.reaches(half()));
}

#[test]
fn only_a_budget_that_names_a_wall_reports_one() {
    let meter = BudgetMeter::new(PortfolioBudget::Work { units: 1_000 }, 0);
    assert!(!meter.is_wall());
    assert_eq!(meter.wall_target_millis(), None);
    assert!(meter.work_units(40) >= meter.work_units(30));
    let wall = BudgetMeter::new(PortfolioBudget::Wall { millis: 10_000 }, 0);
    assert!(wall.is_wall());
    assert_eq!(wall.wall_target_millis(), Some(10_000));
    let plan = BudgetMeter::new(PortfolioBudget::Plan { target_millis: 3_000 }, 0);
    assert_eq!(plan.wall_target_millis(), Some(3_000));
}

#[test]
fn the_certificate_arming_is_restored_on_the_way_out() {
    let mut armed = true;
    assert!(armed, "the default is armed");
    {
        let guard = ContractCertificateArming::install(&mut armed, false);
        assert!(!armed);
        {
            let nested = ContractCertificateArming::install(&mut armed, true);
            assert!(armed);
            nested.restore(&mut armed);
        }
        assert!(!armed, "the nested guard restored");
        guard.restore(&mut armed);
    }
    assert!(armed, "the outer guard restored");
}

#[test]
fn the_class_price_settles_as_the_third_arm_of_one_maximum() {
    let mut meter = BudgetMeter::new(PortfolioBudget::Work { units: 40_000_000 }, 0);
    let charge = settle_operator_charge(&mut meter, 307_767, Some(3_341_665));
    assert_eq!(charge.charged_units, 3_341_665);

    let before = meter.work_units(0);
    let draw = settle_operator_charge(&mut meter, 310, Some(8_173_539));
    assert_eq!(draw.charged_units, 8_173_539);
    assert_eq!(draw.debited_units, 8_173_229);
    assert_eq!(meter.work_units(0) - before, 8_173_229);

    let steady = meter.work_units(0);
    let quantum = settle_operator_charge(&mut meter, 2_013_198, Some(2_013_198));
    assert_eq!(quantum.charged_units, 2_013_198);
    assert_eq!(quantum.debited_units, 0);
    assert_eq!(meter.work_units(0), steady);
}

#[test]
fn an_unnamed_class_self_prices_at_exactly_the_shipped_meters_reading() {
    // The shipped meter's reading of the measured mode-22 call: one unit per
    // candidate query and five per exact pair test, the other counters
    // contributing nothing.
    for scale in [0u64, 1, 7, 1_000_003] {
        let queries = 2_007_788u64.saturating_mul(scale);
        let pairs = 1_082u64.saturating_mul(scale);
        assert_eq!(
            work_units_from(queries, pairs),
            queries.saturating_add(pairs.saturating_mul(5))
        );
    }
    assert_eq!(work_units_from(2_007_788, 1_082), 2_013_198);
}

#[test]
fn the_work_units_saturate_at_the_top() {
    assert_eq!(work_units_from(u64::MAX, 0), u64::MAX);
    assert_eq!(work_units_from(0, u64::MAX / 4), u64::MAX);
    assert_eq!(work_units_from(1, u64::MAX / 5), u64::MAX);
    assert_eq!(work_units_from(1, 2), 11);
}

#[test]
fn a_wall_budget_is_not_repriced_by_the_class_price_either() {
    let mut wall = BudgetMeter::new(PortfolioBudget::Wall { millis: 10_000 }, 0);
    let charge = settle_operator_charge(&mut wall, 310, Some(8_173_539));
    assert_eq!(charge.debited_units, 0);
    assert_eq!(charge.charged_units, 310);
    assert_eq!(wall.self_metered_debit(), 0);
}

#[test]
fn the_observing_mode_prices_without_charging() {
    assert_eq!(WorkCurrencyMode::default(), WorkCurrencyMode::Off);
    assert!(!WorkCurrencyMode::Off.armed());
    assert!(WorkCurrencyMode::Observe.armed());
    assert!(WorkCurrencyMode::Charge.armed());
    assert!(!WorkCurrencyMode::Observe.charges());
    assert!(WorkCurrencyMode::Charge.charges());
    assert!(!WorkCurrencyMode::Off.charges());
    assert_eq!(WorkCurrencyMode::Observe.label(), "observe");
}

#[test]
fn the_settled_self_reading_is_the_larger_of_the_two_meters() {
    assert_eq!(settled_self_units(Some(3_341_665), Some(2_013_198)), Some(3_341_665));
    assert_eq!(settled_self_units(Some(310), Some(8_173_539)), Some(8_173_539));
    assert_eq!(settled_self_units(None, Some(7)), Some(7));
    assert_eq!(settled_self_units(Some(7), None), Some(7));
    assert_eq!(settled_self_units(None, None), None);
}

#[test]
fn only_a_charging_currency_adds_units_and_only_above_both_meters() {
    assert_eq!(charged_extra_units(true, 8_173_539, 310, None), 8_173_229);
    assert_eq!(charged_extra_units(true, 8_173_539, 310, Some(9_000_000)), 0);
    assert_eq!(charged_extra_units(true, 2_013_198, 2_013_198, None), 0);
    assert_eq!(charged_extra_units(false, 8_173_539, 310, None), 0);
}

#[test]
fn a_self_meter_above_the_global_counter_is_what_gets_spent() {
    let mut meter = BudgetMeter::new(PortfolioBudget::Work { units: 1_000 }, 0);
    let extra = meter.debit_self_metered(30, 50);
    assert_eq!(extra, 20);
    assert_eq!(meter.self_metered_debit(), 20);
    assert_eq!(meter.work_units(0) + 30, 50);

    let mut fresh = BudgetMeter::new(PortfolioBudget::Work { units: 1_000 }, 0);
    let charge = settle_operator_charge(&mut fresh, 30, Some(50));
    assert_eq!(
        charge,
        OperatorCharge {
            global_units: 30,
            self_metered_units: Some(50),
            debited_units: 20,
            charged_units: 50,
        }
    );
}

#[test]
fn a_global_counter_at_or_above_the_self_meter_debits_nothing() {
    let mut meter = BudgetMeter::new(PortfolioBudget::Work { units: 1_000 }, 0);
    assert_eq!(meter.debit_self_metered(50, 50), 0);
    assert_eq!(meter.debit_self_metered(3_343_739, 3_341_665), 0);
    assert_eq!(meter.self_metered_debit(), 0);
    assert_eq!(meter.work_units(0), 0);

    let charge = settle_operator_charge(&mut meter, 3_343_739, Some(3_341_665));
    assert_eq!(charge.debited_units, 0);
    assert_eq!(charge.charged_units, 3_343_739);
    let plain = settle_operator_charge(&mut meter, 12_345, None);
    assert_eq!(plain.debited_units, 0);
    assert_eq!(plain.charged_units, 12_345);
    assert_eq!(plain.self_metered_units, None);
    assert_eq!(meter.self_metered_debit(), 0);
}

#[test]
fn two_consecutive_self_metered_actions_both_land_on_the_budget() {
    let mut meter = BudgetMeter::new(PortfolioBudget::Work { units: 40_000_000 }, 0);
    let first = settle_operator_charge(&mut meter, 307_767, Some(3_341_665));
    assert_eq!(first.debited_units, 3_033_898);
    let after_first = meter.work_units(0);
    let second = settle_operator_charge(&mut meter, 400_000, Some(3_356_020));
    assert_eq!(second.debited_units, 2_956_020);
    assert_eq!(meter.self_metered_debit(), 3_033_898 + 2_956_020);
    assert_eq!(meter.work_units(0), after_first + 2_956_020);
    assert_eq!(first.charged_units, 3_341_665);
    assert_eq!(second.charged_units, 3_356_020);
}

#[test]
fn the_debit_saturates_rather_than_wrapping() {
    let mut meter = BudgetMeter::new(PortfolioBudget::Work { units: 1_000 }, 0);
    assert_eq!(meter.debit_self_metered(0, u64::MAX), u64::MAX);
    assert_eq!(meter.self_metered_debit(), u64::MAX);
    assert_eq!(meter.debit_self_metered(0, 7), 7);
    assert_eq!(meter.self_metered_debit(), u64::MAX);
    assert_eq!(meter.work_units(0), u64::MAX);
    let mut second = BudgetMeter::new(PortfolioBudget::Work { units: 1_000 }, 0);
    assert_eq!(second.debit_self_metered(u64::MAX, 1), 0);
    assert_eq!(second.self_metered_debit(), 0);
}

#[test]
fn a_wall_budget_never_debits_a_self_meter() {
    let mut wall = BudgetMeter::new(PortfolioBudget::Wall { millis: 10_000 }, 0);
    assert_eq!(wall.debit_self_metered(30, 50), 0);
    assert_eq!(wall.self_metered_debit(), 0);
    let charge = settle_operator_charge(&mut wall, 30, Some(3_341_665));
    assert_eq!(charge.debited_units, 0);
    assert_eq!(charge.charged_units, 30);
    assert_eq!(charge.self_metered_units, Some(3_341_665));
    assert_eq!(wall.self_metered_debit(), 0);
    assert_eq!(wall.work_units(0), 0);
}

#[test]
fn the_meter_reads_the_global_delta_since_it_started() {
    let mut meter = BudgetMeter::new(PortfolioBudget::Work { units: 1_000 }, 100);
    assert_eq!(meter.work_units(100), 0);
    assert_eq!(meter.work_units(130), 30);
    assert_eq!(meter.work_units(50), 0);
    meter.debit_self_metered(30, 50);
    assert_eq!(meter.work_units(130), 50);
}

#[test]
fn the_work_meter_arms_one_flag_and_restores_both() {
    let plan = PortfolioBudget::Plan { target_millis: 10_000 };
    let (mut profiler, mut metering) = (false, false);

    let arming = WorkMeterArming::install(plan, false, WorkCurrencyMode::Off, &mut profiler, &mut metering);
    assert!(profiler);
    assert!(!metering);
    let report = arming.report();
    assert!(report.needed && report.profiler_armed);
    assert!(!report.metering_armed && !report.deferred_to_profiler);
    arming.restore(&mut profiler, &mut metering);
    assert_eq!((profiler, metering), (false, false));

    let arming = WorkMeterArming::install(plan, true, WorkCurrencyMode::Off, &mut profiler, &mut metering);
    assert!(!profiler);
    assert!(metering);
    let report = arming.report();
    assert!(report.metering_armed && !report.profiler_armed);
    assert!(!report.deferred_to_profiler);
    arming.restore(&mut profiler, &mut metering);
    assert_eq!((profiler, metering), (false, false));

    let arming = WorkMeterArming::install(plan, true, WorkCurrencyMode::Observe, &mut profiler, &mut metering);
    assert!(profiler);
    let report = arming.report();
    assert!(report.deferred_to_profiler && report.profiler_armed);
    arming.restore(&mut profiler, &mut metering);
    assert_eq!((profiler, metering), (false, false));

    for debit in [false, true] {
        let wall = PortfolioBudget::Wall { millis: 10_000 };
        let arming = WorkMeterArming::install(wall, debit, WorkCurrencyMode::Off, &mut profiler, &mut metering);
        assert!(!profiler);
        assert!(!metering);
        let report = arming.report();
        assert!(!report.needed);
        assert!(!report.metering_armed && !report.deferred_to_profiler);
        arming.restore(&mut profiler, &mut metering);
    }
    assert_eq!((profiler, metering), (false, false));
}

#[test]
fn crossover_pairs_are_best_first_and_each_is_offered_once() {
    let fingerprints = ["a".to_owned(), "b".to_owned(), "c".to_owned()];
    let mut attempted: Vec<String> = Vec::new();
    let mut order = Vec::new();
    while let Some((left, right, key)) = first_unattempted_crossover_pair(&fingerprints, &attempted) {
        order.push((left, right));
        attempted.push(key);
    }
    assert_eq!(order, vec![(0, 1), (0, 2), (1, 2)]);
    assert!(first_unattempted_crossover_pair(&fingerprints, &attempted).is_none());
    assert_eq!(attempted[0], "23:a:b");
}

#[test]
fn the_compression_target_is_below_the_parents_own_depth() {
    let compression_rung_mm = COMPRESSION_RUNG_MICRON as f64 / 1000.0;
    let alternation_rung_mm = ALTERNATION_RUNG_MICRON as f64 / 1000.0;
    assert!(compression_rung_mm > 0.0);
    let depth = 174.20812003998896;
    assert!(depth - compression_rung_mm < depth);
    assert!(depth - compression_rung_mm < depth + alternation_rung_mm);
}

#[test]
fn the_sterile_bit_is_one_action_and_its_audition_is_rare() {
    assert_eq!(SCHEDULE_STERILE_ACTIONS, 1);
    assert_eq!(SCHEDULE_AUDITION_BARREN, BARREN_ACTION_PATIENCE);
    assert!(SCHEDULE_AUDITION_BARREN > DIVERSIFY_AUDITION_BARREN);
}

#[test]
fn the_halving_shrinks_to_the_target_and_stops() {
    let halve = |arms: usize, target: usize| {
        let mut live = arms;
        let mut rounds = 0usize;
        let mut rungs = BASIN_RACE_RUNGS;
        let mut walked = 0usize;
        while live > target {
            rounds += 1;
            walked += live * rungs;
            live = live.div_ceil(2).max(target);
            rungs = (rungs * 2).min(SCHEDULE_RUNGS);
            assert!(rounds < 16, "the halving must terminate");
        }
        (rounds, live, walked)
    };
    assert_eq!(halve(3, 1), (2, 1, 3 * 3 + 2 * 6));
    assert_eq!(halve(3, 2), (1, 2, 3 * 3));
    assert_eq!(halve(4, 1), (2, 1, 4 * 3 + 2 * 6));
    assert_eq!(halve(2, 2), (0, 2, 0));
    let (_, _, walked) = halve(BASIN_RACE_ARMS, 1);
    assert_eq!(walked, 21);
    assert!(
        walked <= 3 * SCHEDULE_RUNGS,
        "an audition that costs more than three scheduled actions is not an audition, it is the run"
    );
    let mut rungs = BASIN_RACE_RUNGS;
    for _ in 0..8 {
        assert!(rungs <= SCHEDULE_RUNGS);
        rungs = (rungs * 2).min(SCHEDULE_RUNGS);
    }
}

#[test]
fn the_patience_constants_sit_inside_the_measured_interval() {
    const MEASURED_FLOOR: usize = 8;
    const MEASURED_CEILING: usize = 32;
    assert!((MEASURED_FLOOR..=MEASURED_CEILING).contains(&BARREN_ACTION_PATIENCE));
    assert!((MEASURED_FLOOR..=MEASURED_CEILING).contains(&DIVERSIFY_AUDITION_BARREN));
    assert_eq!(
        BARREN_ACTION_PATIENCE,
        ((MEASURED_FLOOR * MEASURED_CEILING) as f64).sqrt() as usize
    );
    assert_eq!(DIVERSIFY_AUDITION_BARREN, MEASURED_FLOOR);
    assert!(DIVERSIFY_AUDITION_BARREN < BARREN_ACTION_PATIENCE);
    assert_eq!(BARREN_ACTION_PATIENCE / DIVERSIFY_AUDITION_BARREN, 2);
}

#[test]
fn the_sparse_rotation_constants_match_the_schedule_bits() {
    assert_eq!(SPARSE_ROTATION_STERILE_SLICES, 1);
    assert_eq!(SPARSE_ROTATION_AUDITION_BARREN, BARREN_ACTION_PATIENCE);
}

#[test]
fn the_two_diversify_paths_name_one_action() {
    let ranked = diversify_action(3);
    assert_eq!(ranked.key, "m20:slot3");
    assert_eq!(ranked.rank, 3);
    assert_eq!(ranked.class, ActionClass::Diversify);
    assert_eq!(ranked.label, "m20 ticket slot3 + m22 quantum");
    assert_ne!(diversify_action(3).key, diversify_action(4).key);
    assert_eq!(diversify_action(0).key, "m20:slot0");
    assert_eq!(diversify_action(12).key, "m20:slot12");
}

#[test]
fn action_class_names_are_distinct() {
    let all = ActionClass::all();
    let names = all
        .iter()
        .map(|class| class.name())
        .collect::<std::collections::BTreeSet<_>>();
    assert_eq!(names.len(), all.len());
    assert_eq!(
        all.iter().copied().collect::<std::collections::BTreeSet<_>>().len(),
        all.len()
    );
    assert!(ActionClass::Compression < ActionClass::Descent);
    assert!(ActionClass::Descent < ActionClass::Crossover);
    assert!(ActionClass::Crossover < ActionClass::Ladder);
    assert!(ActionClass::Ladder < ActionClass::Diversify);
    assert!(ActionClass::Descent < ActionClass::Schedule);
    assert!(ActionClass::Schedule < ActionClass::Crossover);
}

#[test]
fn a_v3_crossover_key_is_parent_and_cut_ordered_never_rank_ordered() {
    let key = |left: &str, right: &str, cut: f64| crossover_cut_key(left, right, cut.to_bits());
    assert_ne!(key("a", "b", 0.5), key("b", "a", 0.5));
    assert_ne!(key("a", "b", 0.5), key("a", "b", 0.4957));
    assert_eq!(key("a", "b", 0.5), key("a", "b", 0.5));
    assert_eq!(key("a", "b", 0.5), format!("23:a:b:{:016x}", 0.5f64.to_bits()));
}

#[test]
fn the_enumeration_is_bounded_by_construction() {
    let states = 3usize;
    let quantum_states = 1usize;
    let ordered_pairs = states * (states - 1);
    let ceiling = 2 * quantum_states + 1 + ordered_pairs * (CROSSOVER_CUTS_PER_PAIR + 1);
    assert_eq!(ordered_pairs, 6);
    assert_eq!(ceiling, 21);
    let with_v4 = ceiling + quantum_states + 1;
    assert_eq!(with_v4, 23);
    assert!(with_v4 < 360);
    assert!(ceiling < 360);
    assert!(CROSSOVER_BANDS_SCANNED >= CROSSOVER_CUTS_PER_PAIR);
}

#[test]
fn exit_cause_names_are_distinct() {
    let all = [
        PhaseExitCause::SkippedDeadlinePassed,
        PhaseExitCause::Completed,
        PhaseExitCause::GeometricFixpoint,
        PhaseExitCause::KeysExhausted,
        PhaseExitCause::Affordability,
        PhaseExitCause::Deadline,
        PhaseExitCause::WallStop,
        PhaseExitCause::Patience,
        PhaseExitCause::TriggerRefused,
        PhaseExitCause::NoResidue,
        PhaseExitCause::NoCompleteLayout,
    ];
    let names = all
        .iter()
        .map(|cause| cause.name())
        .collect::<std::collections::BTreeSet<_>>();
    assert_eq!(names.len(), all.len());
}

#[test]
fn only_the_budget_causes_let_a_replan_buy_a_tranche() {
    assert!(budget_bound(Some(PhaseExitCause::Deadline)));
    assert!(budget_bound(Some(PhaseExitCause::Affordability)));
    assert!(budget_bound(Some(PhaseExitCause::SkippedDeadlinePassed)));
    assert!(!budget_bound(Some(PhaseExitCause::Patience)));
    assert!(!budget_bound(Some(PhaseExitCause::KeysExhausted)));
    assert!(!budget_bound(None));
}

#[test]
fn the_reporting_names_are_the_documents_own() {
    assert_eq!(BasinOperator::Mode(34).name(), "mode34");
    assert_eq!(BasinOperator::Constructor.name(), "constructor");
    assert_eq!(BasinOperator::RelaxedM0.name(), "m0");
    assert_eq!(BasinOperator::CoupledSeparator.name(), "coupled");
    assert_eq!(ProbeArm::Disarmed.name(), "none");
    assert_eq!(ProbeArm::LadderRung.name(), "C");
    assert_eq!(PhaseExitCause::WallStop.name(), "wallStop");
    assert_eq!(ActionClass::Schedule.name(), "schedule");
}

#[test]
fn the_requested_wall_outlives_the_plans_installation() {
    let mut plan = BudgetMeter::new(PortfolioBudget::Plan { target_millis: 10_000 }, 5);
    assert_eq!(plan.wall_target_millis(), Some(10_000));
    plan.debit_self_metered(0, 7);
    plan.install_work_budget(2_000_000);
    assert_eq!(plan.budget, PortfolioBudget::Work { units: 2_000_000 });
    assert!(!plan.is_wall());
    assert_eq!(plan.wall_target_millis(), Some(10_000));
    assert_eq!(plan.self_metered_debit(), 7);
    assert_eq!(plan.work_units(5), 7);
    let work = BudgetMeter::new(PortfolioBudget::Work { units: 40_000_000 }, 0);
    assert_eq!(work.wall_target_millis(), None);
}

#[test]
fn a_tranche_only_ever_raises_a_work_budget() {
    let mut meter = BudgetMeter::new(PortfolioBudget::Work { units: 4_000_000 }, 0);
    assert!(!meter.install_tranche(4_000_000), "a tranche that does not raise the budget is refused");
    assert!(!meter.install_tranche(3_000_000));
    assert_eq!(meter.budget, PortfolioBudget::Work { units: 4_000_000 });
    assert!(meter.install_tranche(4_600_000));
    assert_eq!(meter.budget, PortfolioBudget::Work { units: 4_600_000 });
    let mut wall = BudgetMeter::new(PortfolioBudget::Wall { millis: 10_000 }, 0);
    assert!(!wall.install_tranche(1), "only a work budget takes a tranche");

    assert_eq!(calibration_source(false, None), PlanCalibrationSource::Live);
    assert_eq!(calibration_source(true, None), PlanCalibrationSource::Probe);
    assert_eq!(calibration_source(true, Some(CalibrationLookup::InBand)), PlanCalibrationSource::File);
    assert_eq!(calibration_source(false, Some(CalibrationLookup::OutOfBand)), PlanCalibrationSource::FileOutOfBand);
    assert_eq!(calibration_source(true, Some(CalibrationLookup::Miss)), PlanCalibrationSource::FileMiss);
    assert_eq!(PlanCalibrationSource::FileOutOfBand.name(), "fileOutOfBand");
}

fn ten_pieces(moved: usize) -> Vec<Placement> {
    (0..10)
        .map(|i| placement(&format!("p{i}"), if i < moved { 50.0 } else { i as f64 }, 0.0))
        .collect()
}

#[test]
fn one_piece_in_ten_reaches_a_tenth() {
    let overlap = assignment_overlap(&ten_pieces(9), &ten_pieces(0));
    assert_eq!(overlap, Overlap { agreeing: 1, total: 10 });
    assert!(1.0f64 / 10.0 >= 0.1);
    assert!(overlap.reaches(0.1f64.to_bits()));
    assert!(!overlap.falls_below(0.1f64.to_bits()));
    assert!(!overlap.reaches(0.11f64.to_bits()));
    assert!(overlap.falls_below(0.11f64.to_bits()));
}

#[test]
fn thresholds_are_reached_as_divided_floats() {
    for agreeing in 0..=7usize {
        for total in 1..=7usize {
            for threshold in [0.0f64, -0.0, 0.1, 1.0 / 3.0, 0.5, 2.0 / 3.0, 0.7, 1.0, -1.0, 2.0, f64::INFINITY] {
                let overlap = Overlap { agreeing, total };
                let expected = agreeing as f64 / total as f64 >= threshold;
                assert_eq!(overlap.reaches(threshold.to_bits()), expected, "{agreeing}/{total} >= {threshold}");
                assert_eq!(overlap.falls_below(threshold.to_bits()), !expected);
            }
        }
    }
    let nothing = Overlap { agreeing: 0, total: 0 };
    assert!(nothing.reaches(0.0f64.to_bits()));
    assert!(!nothing.reaches(f64::MIN_POSITIVE.to_bits()));
}

#[test]
fn a_nan_threshold_makes_nothing_similar() {
    let overlap = Overlap { agreeing: 3, total: 3 };
    assert!(!overlap.reaches(f64::NAN.to_bits()));
    assert!(!overlap.falls_below(f64::NAN.to_bits()));

    let layout = vec![placement("a", 0.0, 0.0), placement("b", 0.0, 0.0)];
    let mut archive = SearchArchive::new(1, 2, f64::NAN.to_bits());
    assert!(f64::from_bits(archive.similarity_threshold()).is_nan());
    assert_eq!(archive.offer(basin("one", 170.0, layout.iter().map(|p| p.duplicate()).collect())), ArchiveDisposition::Admitted);
    assert_eq!(
        archive.offer(basin("two", 160.0, layout.iter().map(|p| p.duplicate()).collect())),
        ArchiveDisposition::RefusedArchiveFullAllDistinct
    );
}

#[test]
fn a_nan_threshold_frontier_takes_only_the_first() {
    let mut archive = SearchArchive::new(4, 1, f64::NAN.to_bits());
    archive.offer(basin("far", 150.0, vec![placement("a", 9.0, 9.0)]));
    archive.offer(basin("near", 140.0, vec![placement("a", 1.0, 1.0)]));
    archive.offer(basin("mid", 145.0, vec![placement("a", 5.0, 5.0)]));
    let frontier = archive.distinct_frontier(3);
    assert_eq!(frontier.len(), 1);
    assert_eq!(frontier[0].fingerprint, "near");
}

#[test]
fn the_threshold_is_clamped_into_the_unit_interval() {
    assert_eq!(SearchArchive::new(1, 1, 2.0f64.to_bits()).similarity_threshold(), 1.0f64.to_bits());
    assert_eq!(SearchArchive::new(1, 1, (-3.0f64).to_bits()).similarity_threshold(), 0.0f64.to_bits());
    assert_eq!(SearchArchive::new(1, 1, 0.25f64.to_bits()).similarity_threshold(), 0.25f64.to_bits());
    assert_eq!(SearchArchive::new(1, 1, (-0.0f64).to_bits()).similarity_threshold(), (-0.0f64).to_bits());
    assert_eq!(SearchArchive::new(0, 1, 0.5f64.to_bits()).report().capacity, 1);
}

#[test]
fn a_nan_depth_member_is_never_evicted() {
    let layout = || vec![placement("a", 0.0, 0.0), placement("b", 0.0, 0.0)];
    let mut archive = SearchArchive::new(1, 2, half());
    assert_eq!(archive.offer(basin("nan", f64::NAN, layout())), ArchiveDisposition::Admitted);
    assert_eq!(
        archive.offer(basin("better", 100.0, layout())),
        ArchiveDisposition::RefusedArchiveFullAllDistinct
    );
    assert_eq!(archive.basins()[0].fingerprint, "nan");
}

#[test]
fn a_nan_depth_candidate_dominates_nothing() {
    let layout = || vec![placement("a", 0.0, 0.0), placement("b", 0.0, 0.0)];
    let mut archive = SearchArchive::new(1, 2, half());
    assert_eq!(archive.offer(basin("member", 100.0, layout())), ArchiveDisposition::Admitted);
    assert_eq!(
        archive.offer(basin("nan", f64::NAN, layout())),
        ArchiveDisposition::RefusedArchiveFullAllDistinct
    );
}

#[test]
fn the_two_zeros_are_equally_deep() {
    let layout = || vec![placement("a", 0.0, 0.0), placement("b", 0.0, 0.0)];
    let mut archive = SearchArchive::new(1, 2, half());
    assert_eq!(archive.offer(basin("negative", -0.0, layout())), ArchiveDisposition::Admitted);
    assert_eq!(
        archive.offer(basin("positive", 0.0, layout())),
        ArchiveDisposition::AdmittedAfterEviction
    );
    assert_eq!(archive.basins()[0].fingerprint, "positive");

    let mut pair = SearchArchive::new(2, 2, half());
    pair.offer(basin("first", 0.0, layout()));
    pair.offer(basin("second", -0.0, layout()));
    assert_eq!(pair.offer(basin("third", -5.0, layout())), ArchiveDisposition::AdmittedAfterEviction);
    let kept: Vec<&str> = pair.basins().iter().map(|b| b.fingerprint.as_str()).collect();
    assert_eq!(kept, vec!["second", "third"]);
}

#[test]
fn the_deepest_dominated_member_goes_first() {
    let layout = || vec![placement("a", 0.0, 0.0), placement("b", 0.0, 0.0)];
    let mut archive = SearchArchive::new(3, 2, half());
    archive.offer(basin("shallow", 100.0, layout()));
    archive.offer(basin("deep", 300.0, layout()));
    archive.offer(basin("middle", 200.0, layout()));
    assert_eq!(archive.offer(basin("new", 150.0, layout())), ArchiveDisposition::AdmittedAfterEviction);
    let kept: Vec<&str> = archive.basins().iter().map(|b| b.fingerprint.as_str()).collect();
    assert_eq!(kept, vec!["shallow", "middle", "new"]);
}

#[test]
fn occupancy_is_admissions_less_evictions() {
    let layout = |x: f64| vec![placement("a", x, 0.0), placement("b", 0.0, 0.0)];
    let mut archive = SearchArchive::new(2, 2, 1.0f64.to_bits());
    archive.offer(basin("one", 100.0, layout(1.0)));
    archive.offer(basin("two", 90.0, layout(2.0)));
    archive.offer(basin("three", 80.0, layout(1.0)));
    archive.offer(basin("two", 70.0, layout(2.0)));
    archive.offer(basin("short", 70.0, vec![placement("a", 0.0, 0.0)]));
    archive.retire("two");
    archive.charge_descent("three");
    archive.offer(basin("four", 60.0, layout(4.0)));
    let report = archive.report();
    assert_eq!(report.occupancy, report.admitted - report.evicted);
    assert_eq!(report.occupancy_over_time.len(), report.admitted);
    assert_eq!(report.admitted, 4);
    assert_eq!(report.evicted, 2);
    assert_eq!(report.duplicates, 1);
    assert_eq!(report.refused_incomplete, 1);
    assert_eq!(report.similarity_threshold_bits, 1.0f64.to_bits());
}

#[test]
fn the_frontier_passes_over_only_for_a_reason() {
    let mut archive = SearchArchive::new(8, 1, half());
    archive.offer(basin("a", 100.0, vec![placement("a", 1.0, 0.0)]));
    archive.offer(basin("b", 110.0, vec![placement("a", 1.0, 0.0)]));
    archive.offer(basin("c", 120.0, vec![placement("a", 2.0, 0.0)]));
    archive.offer(basin("d", 130.0, vec![placement("a", 3.0, 0.0)]));
    archive.offer(basin("e", 140.0, vec![placement("a", 4.0, 0.0)]));
    let frontier = archive.distinct_frontier(3);
    let taken: Vec<&str> = frontier.iter().map(|b| b.fingerprint.as_str()).collect();
    assert_eq!(taken, vec!["a", "c", "d"]);
    let everything = archive.distinct_frontier(10);
    let taken: Vec<&str> = everything.iter().map(|b| b.fingerprint.as_str()).collect();
    assert_eq!(taken, vec!["a", "c", "d", "e"]);
}
