use polygon_nesting_core::portfolio::archive::{ArchivedBasin, Placement};
use polygon_nesting_core::portfolio::kinds::BasinOperator;
use polygon_nesting_core::portfolio::race::{
    close_race_round, eliminated_fingerprints, enter_archive_arms, incumbent_arm, judge_basin_race,
    next_race_rungs, race_report, race_shape, race_survivors, BasinRaceArm, BasinRaceReport,
};

fn arm(slot: usize, depth: f64, yield_mm: f64, stability: f64, infeasibility: f64) -> BasinRaceArm {
    BasinRaceArm {
        slot,
        kind: "test".to_owned(),
        placements: Vec::new(),
        fingerprint: format!("arm{slot}"),
        depth_bits: depth.to_bits(),
        archived: vec![format!("arm{slot}")],
        yield_bits: yield_mm.to_bits(),
        stability_bits: stability.to_bits(),
        infeasibility_bits: infeasibility.to_bits(),
        batch_steps: 0,
        batch_confirmations: 0,
        rank_sum: 0,
        eliminated_round: None,
    }
}

#[test]
fn the_race_judges_on_yield_stability_and_infeasibility_and_not_on_depth() {
    let mut rows = vec![
        arm(0, 150.0, 0.10, 0.20, 4.0),
        arm(1, 170.0, 0.50, 0.50, 2.0),
        arm(2, 190.0, 0.90, 0.80, 1.0),
    ];
    let mut live = vec![0usize, 1, 2];
    judge_basin_race(&mut live, &mut rows);
    assert_eq!(live, vec![2, 1, 0]);
    assert_eq!(rows[2].rank_sum, 0, "best on all three ranks zero");
    assert_eq!(rows[0].rank_sum, 6, "worst on all three ranks last thrice");

    let mut split = vec![
        arm(0, 170.0, 0.10, 0.90, 3.0),
        arm(1, 170.0, 0.90, 0.10, 3.0),
        arm(2, 170.0, 0.50, 0.50, 1.0),
    ];
    let mut live = vec![0usize, 1, 2];
    judge_basin_race(&mut live, &mut split);
    assert_eq!(live[0], 2);

    let mut tied = vec![
        arm(0, 200.0, 0.4, 0.5, 2.0),
        arm(1, 100.0, 0.4, 0.5, 2.0),
        arm(2, 100.0, 0.4, 0.5, 2.0),
    ];
    let mut live = vec![0usize, 1, 2];
    judge_basin_race(&mut live, &mut tied);
    assert_eq!(live, vec![0, 1, 2]);
}

#[test]
fn the_judge_ranks_only_the_live_arms() {
    let mut rows = vec![
        arm(0, 150.0, 0.10, 0.20, f64::INFINITY),
        arm(1, 170.0, 0.90, 0.90, 1.0),
        arm(2, 190.0, 0.50, 1.0, 2.0),
    ];
    rows[1].rank_sum = 42;
    let mut live = vec![2usize, 0];
    judge_basin_race(&mut live, &mut rows);
    assert_eq!(live, vec![2, 0]);
    assert_eq!(rows[2].rank_sum, 0);
    assert_eq!(rows[0].rank_sum, 3);
    assert_eq!(rows[1].rank_sum, 42, "an arm that is not live keeps its row");
}

#[test]
fn a_round_keeps_the_top_half_and_marks_the_rest() {
    let mut rows = vec![
        arm(0, 150.0, 0.10, 0.20, 4.0),
        arm(1, 170.0, 0.50, 0.50, 2.0),
        arm(2, 190.0, 0.90, 0.80, 1.0),
    ];
    let mut live = vec![0usize, 1, 2];
    close_race_round(&mut live, &mut rows, 1, 1);
    assert_eq!(live, vec![2, 1]);
    assert_eq!(rows[0].eliminated_round, Some(1));
    assert_eq!(rows[1].eliminated_round, None);
    close_race_round(&mut live, &mut rows, 1, 2);
    assert_eq!(live, vec![2]);
    assert_eq!(rows[1].eliminated_round, Some(2));
    assert_eq!(rows[2].eliminated_round, None);
    assert_eq!(eliminated_fingerprints(&rows), vec!["arm1".to_owned()]);
}

#[test]
fn the_incumbent_control_is_never_retired() {
    let mut rows = vec![
        arm(0, 150.0, 0.10, 0.20, 4.0),
        arm(1, 170.0, 0.50, 0.50, 2.0),
        arm(2, 190.0, 0.90, 0.80, 1.0),
    ];
    rows[1].archived.push("arm1-batch".to_owned());
    let mut live = vec![0usize, 1, 2];
    close_race_round(&mut live, &mut rows, 1, 1);
    close_race_round(&mut live, &mut rows, 1, 2);
    rows[0].eliminated_round = Some(1);
    assert_eq!(
        eliminated_fingerprints(&rows),
        vec!["arm1".to_owned(), "arm1-batch".to_owned()]
    );
}

#[test]
fn the_survivors_are_half_rounded_up_and_never_below_the_target() {
    assert_eq!(race_survivors(3, 1), 2);
    assert_eq!(race_survivors(2, 1), 1);
    assert_eq!(race_survivors(4, 1), 2);
    assert_eq!(race_survivors(4, 3), 3);
    assert_eq!(race_survivors(2, 2), 2);
}

#[test]
fn the_audition_doubles_and_is_capped_at_a_slice() {
    assert_eq!(next_race_rungs(3), 6);
    assert_eq!(next_race_rungs(6), 9);
    assert_eq!(next_race_rungs(4), 8);
    assert_eq!(next_race_rungs(5), 9);
    assert_eq!(next_race_rungs(usize::MAX), 9);
}

fn member(fingerprint: &str, depth: f64) -> ArchivedBasin {
    ArchivedBasin {
        fingerprint: fingerprint.to_owned(),
        raw_depth_bits: depth.to_bits(),
        birth_seconds_bits: 0.0f64.to_bits(),
        birth_work_units: 0,
        operator: BasinOperator::Mode(22),
        parent_fingerprint: None,
        secondary_parent_fingerprint: None,
        exact_valid: true,
        descents: 0,
        placements: vec![Placement {
            piece_id: "a".to_owned(),
            rotation_deg_bits: 0.0f64.to_bits(),
            mirrored: false,
            translate_short_axis_bits: depth.to_bits(),
            translate_long_axis_bits: 0.0f64.to_bits(),
        }],
    }
}

#[test]
fn the_race_shape_is_clamped_to_a_race() {
    assert_eq!(race_shape(3, 1, 3), (3, 1, 3));
    assert_eq!(race_shape(0, 0, 0), (2, 1, 1));
    assert_eq!(race_shape(9, 9, 5), (4, 3, 5));
    assert_eq!(race_shape(2, 5, 1), (2, 1, 1));
}

#[test]
fn the_archive_arms_join_behind_the_incumbent_and_skip_it() {
    let incumbent = incumbent_arm("fp-incumbent".to_owned(), Vec::new(), 170.0f64.to_bits());
    assert_eq!(incumbent.slot, 0);
    assert_eq!(incumbent.kind, "incumbent");
    assert_eq!(incumbent.archived, vec!["fp-incumbent".to_owned()]);
    assert_eq!(f64::from_bits(incumbent.stability_bits), 1.0);
    assert_eq!(f64::from_bits(incumbent.infeasibility_bits), f64::INFINITY);
    assert_eq!(f64::from_bits(incumbent.yield_bits), 0.0);
    let mut rows = vec![incumbent];
    let mut live = vec![0usize];
    let candidates = vec![
        member("fp-incumbent", 170.0),
        member("fp-a", 171.0),
        member("fp-b", 172.0),
        member("fp-c", 173.0),
    ];
    enter_archive_arms(&mut rows, &mut live, candidates, 3);
    let names = rows.iter().map(|arm| arm.fingerprint.clone()).collect::<Vec<_>>();
    assert_eq!(names, vec!["fp-incumbent", "fp-a", "fp-b"]);
    assert_eq!(live, vec![0, 1, 2]);
    assert_eq!(rows[2].slot, 2);
    assert_eq!(rows[2].kind, "archive-basin");
    assert_eq!(rows[2].archived, vec!["fp-b".to_owned()]);
    assert_eq!(f64::from_bits(rows[1].depth_bits), 171.0);
}

#[test]
fn an_unarmed_race_reports_nothing_spent() {
    let report = BasinRaceReport::unarmed();
    assert!(!report.armed);
    assert_eq!(report.arms_started, 0);
    assert_eq!(report.winner_slot, None);
    assert_eq!(report.exit_cause, "completed");
    assert!(report.arms.is_empty());
}

#[test]
fn the_race_report_names_the_winner_and_the_retired_arms() {
    let mut rows = vec![
        arm(0, 150.0, 0.10, 0.20, 4.0),
        arm(1, 170.0, 0.50, 0.50, 2.0),
        arm(2, 190.0, 0.90, 0.80, 1.0),
    ];
    let mut live = vec![0usize, 1, 2];
    close_race_round(&mut live, &mut rows, 1, 1);
    close_race_round(&mut live, &mut rows, 1, 2);
    let retired = eliminated_fingerprints(&rows);
    let report = race_report(&rows, &live, 2, &retired, 1_234, 2.5f64.to_bits(), "deadline".to_owned());
    assert!(report.armed);
    assert_eq!(report.arms_started, 3);
    assert_eq!(report.kept, 1);
    assert_eq!(report.retired, 1);
    assert_eq!(report.winner_slot, Some(2));
    assert_eq!(report.winner_fingerprint.as_deref(), Some("arm2"));
    assert_eq!(report.winner_depth_bits, Some(190.0f64.to_bits()));
    assert_eq!(report.incumbent_arm_depth_bits, Some(150.0f64.to_bits()));
    assert_eq!(report.exit_cause, "deadline");
    let retired_rows = report.arms.iter().map(|row| row.retired_from_archive).collect::<Vec<_>>();
    assert_eq!(retired_rows, vec![false, true, false]);
    assert_eq!(report.arms[0].eliminated_round, Some(1));
    assert_eq!(report.arms[1].eliminated_round, Some(2));
}
