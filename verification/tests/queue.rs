use polygon_nesting_core::portfolio::kinds::{ActionClass, BasinTrigger, PhaseExitCause};
use polygon_nesting_core::portfolio::queue::{
    affordability_verdict, already_attempted, diversify_action, diversify_audition_due,
    empty_queue_step, EmptyQueueStep, diversify_available, fallback_ticket, note_purchase,
    order_v3_candidates, record_action_outcome, resume_queue, schedule_gate, ActionPayload,
    ScheduledAction, SparseRotationBit, V3QueueState, BARREN_ACTION_PATIENCE,
    DIVERSIFY_AUDITION_BARREN, SCHEDULE_AUDITION_BARREN, SPARSE_ROTATION_AUDITION_BARREN,
};

fn action(class: ActionClass, key: &str, rank: usize) -> ScheduledAction {
    ScheduledAction {
        class,
        key: key.to_owned(),
        rank,
        label: key.to_owned(),
        payload: ActionPayload::Basin { fingerprint: key.to_owned() },
    }
}

fn keys(actions: &[ScheduledAction]) -> Vec<String> {
    actions.iter().map(|action| action.key.clone()).collect()
}

fn values(by_class: [f64; 6]) -> [u64; 6] {
    let mut bits = [0u64; 6];
    for (slot, value) in by_class.iter().enumerate() {
        bits[slot] = value.to_bits();
    }
    bits
}

#[test]
fn the_sparse_rotation_bit_is_one_sterile_slice_and_a_reversible_verdict() {
    let mut bit = SparseRotationBit::default();
    bit.observe_slice(12, 0);
    assert!(bit.disarmed, "one sterile slice is the evidence");

    let mut untried = SparseRotationBit::default();
    untried.observe_slice(0, 0);
    assert!(
        !untried.disarmed,
        "a slice with no stall says nothing about whether rotation pays"
    );

    bit.barren_calls = SPARSE_ROTATION_AUDITION_BARREN - 1;
    assert!(bit.barren_calls < SPARSE_ROTATION_AUDITION_BARREN);
    bit.barren_calls += 1;
    assert!(!bit.auditioned);
    bit.auditioned = true;

    bit.observe_slice(4, 3);
    assert!(!bit.disarmed);
    assert_eq!(bit.sterile_slices, 0);
}

#[test]
fn the_disarm_bit_cannot_be_fed_the_catalogues_accepted_moves() {
    const CONTROL_ARM_ROTATION_ACCEPTED_MOVES: usize = 11_523;
    const CONTROL_ARM_SPARSE_COMMITTED_MOVES: usize = 0;
    let mut correct = SparseRotationBit::default();
    correct.observe_slice(12, CONTROL_ARM_SPARSE_COMMITTED_MOVES);
    assert!(correct.disarmed);
    let mut misfed = SparseRotationBit::default();
    misfed.observe_slice(12, CONTROL_ARM_ROTATION_ACCEPTED_MOVES);
    assert!(!misfed.disarmed);
    assert_ne!(correct.disarmed, misfed.disarmed);
}

#[test]
fn the_sparse_audition_comes_once_after_the_barren_wait() {
    let mut bit = SparseRotationBit::default();
    let arming = bit.arm_call(true);
    assert!(!arming.off && !arming.audition, "an armed operator is on");
    bit.settle_call(5, 0, false, false);
    assert!(bit.disarmed);
    assert_eq!(bit.barren_calls, 1, "the sterile call itself published nothing");
    let mut calls = 0;
    loop {
        let arming = bit.arm_call(true);
        if arming.audition {
            assert!(!arming.off);
            bit.settle_call(0, 0, false, true);
            break;
        }
        assert!(arming.off);
        bit.settle_call(0, 0, false, false);
        calls += 1;
        assert!(calls <= SPARSE_ROTATION_AUDITION_BARREN);
    }
    assert_eq!(calls, SPARSE_ROTATION_AUDITION_BARREN - 1);
    assert_eq!(bit.barren_calls, SPARSE_ROTATION_AUDITION_BARREN, "the audition itself is not barren wait");
    let again = bit.arm_call(true);
    assert!(again.off && !again.audition, "the audition is spent once");
    let disabled = bit.arm_call(false);
    assert!(!disabled.off, "a run without the bit never turns the operator off");
}

#[test]
fn a_publication_clears_the_sparse_wait() {
    let mut bit = SparseRotationBit::default();
    bit.settle_call(3, 0, false, false);
    bit.settle_call(0, 0, false, false);
    bit.settle_call(0, 0, false, false);
    assert_eq!(bit.barren_calls, 3);
    bit.settle_call(0, 0, true, false);
    assert_eq!(bit.barren_calls, 0);
    assert!(bit.disarmed);
}

#[test]
fn the_queue_counts_barren_actions_and_ends_on_patience() {
    let mut state = V3QueueState::default();
    for step in 1..BARREN_ACTION_PATIENCE {
        let out = record_action_outcome(&mut state, ActionClass::Crossover, 0, false, 1, BARREN_ACTION_PATIENCE);
        assert!(!out);
        assert_eq!(state.barren, step);
    }
    assert_eq!(state.barren_since_diversify, BARREN_ACTION_PATIENCE - 1);
    assert!(record_action_outcome(&mut state, ActionClass::Crossover, 0, false, 1, BARREN_ACTION_PATIENCE));
    let mut published = state;
    assert!(!record_action_outcome(&mut published, ActionClass::Descent, 1, false, 1, BARREN_ACTION_PATIENCE));
    assert_eq!(published.barren, 0);
    assert_eq!(published.barren_since_schedule, 0);
    assert_eq!(published.barren_since_diversify, 0);
    let mut unbounded = state;
    assert!(!record_action_outcome(&mut unbounded, ActionClass::Descent, 0, false, 1, 0), "zero patience is off");
}

#[test]
fn a_barren_ticket_run_as_long_as_the_patience_ends_the_class() {
    let mut state = V3QueueState::default();
    record_action_outcome(&mut state, ActionClass::Diversify, 0, false, 2, 0);
    assert_eq!(state.diversify_barren, 1);
    assert!(!state.diversify_done);
    assert_eq!(state.barren_since_diversify, 0, "a ticket resets its own wait");
    record_action_outcome(&mut state, ActionClass::Diversify, 0, false, 2, 0);
    assert!(state.diversify_done);
    assert!(!diversify_available(true, &state, 8));
    let mut lucky = V3QueueState::default();
    record_action_outcome(&mut lucky, ActionClass::Diversify, 0, false, 2, 0);
    record_action_outcome(&mut lucky, ActionClass::Diversify, 2, false, 2, 0);
    assert_eq!(lucky.diversify_barren, 0);
    assert!(!lucky.diversify_done);
}

#[test]
fn the_schedule_audition_is_spent_once() {
    let mut state = V3QueueState::default();
    let fresh = schedule_gate(true, 0, 0, &state);
    assert!(!fresh.withheld && !fresh.audition_due, "an untried class is not sterile");
    let sterile = schedule_gate(true, 1, 0, &state);
    assert!(sterile.withheld && !sterile.audition_due);
    let productive = schedule_gate(true, 3, 1, &state);
    assert!(!productive.withheld);
    let off = schedule_gate(false, 1, 0, &state);
    assert!(!off.withheld);
    state.barren_since_schedule = SCHEDULE_AUDITION_BARREN;
    let due = schedule_gate(true, 1, 0, &state);
    assert!(due.audition_due && !due.withheld);
    record_action_outcome(&mut state, ActionClass::Schedule, 0, due.audition_due, 1, 0);
    assert!(state.schedule_auditioned);
    assert_eq!(state.barren_since_schedule, 0);
    state.barren_since_schedule = 100;
    let later = schedule_gate(true, 2, 0, &state);
    assert!(later.withheld && !later.audition_due);
}

#[test]
fn a_ticket_slot_is_spent_on_purchase_not_on_offer() {
    let mut state = resume_queue(V3QueueState::default(), BasinTrigger::Always);
    assert!(diversify_available(true, &state, 2));
    assert!(!diversify_available(false, &state, 2));
    note_purchase(&mut state, ActionClass::Crossover, true);
    assert_eq!(state.diversify_slot, 0);
    note_purchase(&mut state, ActionClass::Diversify, true);
    assert_eq!(state.diversify_slot, 1);
    note_purchase(&mut state, ActionClass::Diversify, false);
    assert_eq!(state.diversify_slot, 1);
    let ticket = fallback_ticket(&mut state);
    assert_eq!(ticket.key, diversify_action(1).key);
    assert_eq!(state.diversify_slot, 2);
    assert!(!diversify_available(true, &state, 2));
    let never = resume_queue(V3QueueState::default(), BasinTrigger::Never);
    assert!(never.diversify_done);
}

#[test]
fn a_ticket_is_promoted_only_after_the_barren_wait() {
    let mut state = V3QueueState::default();
    assert!(!diversify_audition_due(true, &state));
    state.barren_since_diversify = DIVERSIFY_AUDITION_BARREN;
    assert!(diversify_audition_due(true, &state));
    assert!(!diversify_audition_due(false, &state));
}

#[test]
fn the_queue_ranks_by_value_then_class_then_rank_then_key() {
    let candidates = vec![
        action(ActionClass::Crossover, "23:b:a", 1),
        action(ActionClass::Ladder, "26:a", 0),
        action(ActionClass::Crossover, "23:a:b", 1),
        action(ActionClass::Descent, "22:a", 0),
        action(ActionClass::Crossover, "23:a:c", 0),
        diversify_action(0),
    ];
    let by_class = values([0.5, 0.4, 0.3, 1.0, 0.4, 0.01]);
    let ordered = order_v3_candidates(candidates, &by_class, false, false);
    assert_eq!(keys(&ordered), vec!["23:a:c", "23:a:b", "23:b:a", "22:a", "26:a", "m20:slot0"]);
}

#[test]
fn the_sterile_schedule_is_withheld_and_the_ticket_promoted() {
    let candidates = vec![
        action(ActionClass::Schedule, "34:a", 0),
        action(ActionClass::Compression, "22c:a", 0),
        diversify_action(2),
        action(ActionClass::Descent, "22:a", 0),
    ];
    let by_class = values([0.5, 0.4, 0.9, 1.0, 0.4, 0.01]);
    let kept = order_v3_candidates(candidates, &by_class, true, true);
    assert_eq!(keys(&kept), vec!["m20:slot2", "22c:a", "22:a"]);
    let unpromoted = order_v3_candidates(vec![action(ActionClass::Schedule, "34:a", 0)], &by_class, false, true);
    assert_eq!(keys(&unpromoted), vec!["34:a"], "no ticket, nothing to promote");
}

#[test]
fn an_attempted_key_is_remembered_once() {
    let mut attempted: Vec<String> = Vec::new();
    assert!(!already_attempted(&mut attempted, "22:a".to_owned()));
    assert!(already_attempted(&mut attempted, "22:a".to_owned()));
    assert!(!already_attempted(&mut attempted, "22:b".to_owned()));
    assert_eq!(attempted, vec!["22:a".to_owned(), "22:b".to_owned()]);
}

#[test]
fn the_affordability_verdict_names_the_clause_that_refused() {
    assert_eq!(affordability_verdict(true, false, Some(false)), Some(PhaseExitCause::WallStop));
    assert_eq!(affordability_verdict(false, false, Some(true)), Some(PhaseExitCause::Deadline));
    assert_eq!(affordability_verdict(false, true, Some(false)), Some(PhaseExitCause::Affordability));
    assert_eq!(affordability_verdict(false, true, Some(true)), None);
    assert_eq!(affordability_verdict(false, true, None), None, "an unpriced operator is admitted");
}

#[test]
fn an_empty_queue_buys_a_ticket_only_when_it_can() {
    let state = V3QueueState::default();
    assert_eq!(
        empty_queue_step(3, &state, 4, false, Some(true)),
        EmptyQueueStep::Exit(PhaseExitCause::Affordability)
    );
    assert_eq!(empty_queue_step(0, &state, 4, false, Some(true)), EmptyQueueStep::BuyTicket);
    assert_eq!(
        empty_queue_step(0, &state, 0, false, Some(true)),
        EmptyQueueStep::Exit(PhaseExitCause::KeysExhausted)
    );
    assert_eq!(
        empty_queue_step(0, &state, 4, true, Some(true)),
        EmptyQueueStep::Exit(PhaseExitCause::WallStop)
    );
    assert_eq!(
        empty_queue_step(0, &state, 4, false, None),
        EmptyQueueStep::Exit(PhaseExitCause::Affordability)
    );
    assert_eq!(
        empty_queue_step(0, &state, 4, false, Some(false)),
        EmptyQueueStep::Exit(PhaseExitCause::Affordability)
    );
}
