//! The ranked action queue's bookkeeping: the schedule's constants, the keys
//! an action is remembered by, which crossover pair is next, how candidates
//! are ranked, when the compression schedule is withheld and a constructor
//! ticket promoted, the barren counters after each action, the verdicts that
//! end a phase, and the sparse rotation operator's disarm bit.
use vstd::prelude::*;
use crate::bits::{total_key, total_order_key};
use crate::portfolio::kinds::{ActionClass, BasinTrigger, PhaseExitCause};
use crate::order::{lemma_insert_by_at, lemma_stable_sort_sorted, lemma_stable_sort_step, sorted_by, stable_sort};
use crate::text::{decimal, decimal_string, hex_fixed, hex_span, hex_string, lemma_decimal_injective, lemma_hex_fixed_injective, lemma_lex_irreflexive, lemma_lex_transitive, lex_less, str_equal, str_less};

verus! {

/// How many consecutive actions that published nothing end the ranked loop.
pub const BARREN_ACTION_PATIENCE: usize = 16;

/// After how many barren actions a constructor ticket is promoted to the
/// front of the queue.
pub const DIVERSIFY_AUDITION_BARREN: usize = 8;

/// How many compression-schedule actions that published nothing make the
/// class sterile on this request.
pub const SCHEDULE_STERILE_ACTIONS: usize = 1;

/// After how many barren actions a sterile schedule class gets its one
/// audition.
pub const SCHEDULE_AUDITION_BARREN: usize = BARREN_ACTION_PATIENCE;

/// The compression-schedule slice's probe denominator; zero is off.
pub const SCHEDULE_PROBE_DENOMINATOR: usize = 0;

/// How many derived cut bands one ordered pair may scan per enumeration.
pub const CROSSOVER_BANDS_SCANNED: usize = 6;

/// How many derived cuts one ordered pair may contribute per enumeration.
pub const CROSSOVER_CUTS_PER_PAIR: usize = 2;

/// Rungs of the separator's quantum a scheduled ladder drops.
pub const LADDER_RUNGS: usize = 2;

/// Rungs of the separator's quantum a scheduled compression slice drops.
pub const SCHEDULE_RUNGS: usize = 9;

/// Batches a past-bound slice's budget is cut into.
pub const SCHEDULE_PAST_BOUND_BATCHES: usize = 8;

/// Consecutive batches without deepening after which a past-bound slice stops.
pub const SCHEDULE_PAST_BOUND_BARREN: usize = 2;

/// Arms an armed basin race starts with.
pub const BASIN_RACE_ARMS: usize = 3;

/// Rungs each arm walks in the race's first round.
pub const BASIN_RACE_RUNGS: usize = 3;

/// Sterile sparse-rotation slices that disarm the operator.
pub const SPARSE_ROTATION_STERILE_SLICES: usize = 1;

/// Barren calls after which a disarmed sparse rotation gets one audition.
pub const SPARSE_ROTATION_AUDITION_BARREN: usize = BARREN_ACTION_PATIENCE;

/// How many equal-work buckets the plan probe's wall is cut into.
pub const PLAN_PROBE_BUCKETS: usize = 8;

/// How often the plan probe samples the counters, in milliseconds.
pub const PLAN_PROBE_SAMPLE_MILLIS: u64 = 20;

/// How many re-plans one run may take.
pub const PLAN_MAX_TRANCHES: usize = 12;

/// The alternation rung above a parent's depth a descent quantum asks for,
/// in micrometres.
pub const ALTERNATION_RUNG_MICRON: u64 = 800;

/// The rung below a parent's depth a compression asks for, in micrometres.
pub const COMPRESSION_RUNG_MICRON: u64 = 400;

/// The drop a ladder probe asks for below the incumbent, in micrometres.
pub const LADDER_PROBE_DROP_MICRON: u64 = 300;

/// Whether the phase that just ended stopped on its budget rather than on its
/// action space: only then may a re-plan buy another tranche.
pub fn budget_bound(cause: Option<PhaseExitCause>) -> (res: bool)
    ensures
        res == match cause {
            Some(cause) => cause.is_budget_bound(),
            None => false,
        },
{
    matches!(
        cause,
        Some(PhaseExitCause::Deadline) | Some(PhaseExitCause::Affordability) | Some(PhaseExitCause::SkippedDeadlinePassed)
    )
}

/// Whether `attempted` already holds `key`.
pub open spec fn attempted_holds(attempted: Seq<String>, key: Seq<char>) -> bool {
    exists|i: int| 0 <= i < attempted.len() && (#[trigger] attempted[i])@ == key
}

fn attempted_contains(attempted: &[String], key: &String) -> (res: bool)
    ensures
        res == attempted_holds(attempted@, key@),
{
    let mut i: usize = 0;
    while i < attempted.len()
        invariant
            i <= attempted@.len(),
            forall|k: int| 0 <= k < i ==> (#[trigger] attempted@[k])@ != key@,
        decreases attempted.len() - i,
    {
        if str_equal(attempted[i].as_str(), key.as_str()) {
            return true;
        }
        i = i + 1;
    }
    false
}

/// The key a midpoint crossover of `left` onto `right` is remembered by.
pub open spec fn pair_key(left: Seq<char>, right: Seq<char>) -> Seq<char> {
    "23:"@ + left + ":"@ + right
}

/// Whether the pair `(left, right)` comes before `(l, r)` in the crossover
/// phase's order: by the right parent's rank, then the left's.
pub open spec fn pair_precedes(left: int, right: int, l: int, r: int) -> bool {
    right < r || (right == r && left < l)
}

fn crossover_pair_key(left: &String, right: &String) -> (res: String)
    ensures
        res@ == pair_key(left@, right@),
{
    let mut key = String::from_str("23:");
    key.append(left.as_str());
    key.append(":");
    key.append(right.as_str());
    proof {
        reveal_strlit("23:");
        reveal_strlit(":");
    }
    key
}

/// The first pair of distinct frontier ranks, in `(0,1), (0,2), (1,2), ...`
/// order, whose midpoint crossover has not been attempted, with its key.
/// `None` when every pair has been.
pub fn first_unattempted_crossover_pair(fingerprints: &[String], attempted: &[String]) -> (res: Option<(usize, usize, String)>)
    ensures
        match res {
            Some((left, right, key)) => {
                &&& left < right < fingerprints@.len()
                &&& key@ == pair_key(fingerprints@[left as int]@, fingerprints@[right as int]@)
                &&& !attempted_holds(attempted@, key@)
                &&& forall|l: int, r: int| 0 <= l < r < fingerprints@.len()
                    && pair_precedes(l, r, left as int, right as int)
                    ==> attempted_holds(attempted@, #[trigger] pair_key(fingerprints@[l]@, fingerprints@[r]@))
            },
            None => forall|l: int, r: int| 0 <= l < r < fingerprints@.len()
                ==> attempted_holds(attempted@, #[trigger] pair_key(fingerprints@[l]@, fingerprints@[r]@)),
        },
{
    let n = fingerprints.len();
    let mut right: usize = 1;
    while right < n
        invariant
            n == fingerprints@.len(),
            1 <= right,
            forall|l: int, r: int| 0 <= l < r < fingerprints@.len() && r < right
                ==> attempted_holds(attempted@, #[trigger] pair_key(fingerprints@[l]@, fingerprints@[r]@)),
        decreases n - right,
    {
        let mut left: usize = 0;
        while left < right
            invariant
                n == fingerprints@.len(),
                1 <= right < n,
                left <= right,
                forall|l: int, r: int| 0 <= l < r < fingerprints@.len() && r < right
                    ==> attempted_holds(attempted@, #[trigger] pair_key(fingerprints@[l]@, fingerprints@[r]@)),
                forall|l: int| 0 <= l < left
                    ==> attempted_holds(attempted@, #[trigger] pair_key(fingerprints@[l]@, fingerprints@[right as int]@)),
            decreases right - left,
        {
            let key = crossover_pair_key(&fingerprints[left], &fingerprints[right]);
            if !attempted_contains(attempted, &key) {
                return Some((left, right, key));
            }
            left = left + 1;
        }
        right = right + 1;
    }
    None
}

/// The key a cut-derived crossover is remembered by: the two parents in the
/// order they are handed to the operator, and the cut's `f64` bits as
/// sixteen lower-case hexadecimal digits.
pub open spec fn cut_key(left: Seq<char>, right: Seq<char>, cut_bits: u64) -> Seq<char> {
    "23:"@ + left + ":"@ + right + ":"@ + hex_fixed(cut_bits as nat, 16)
}

/// The key a cut-derived crossover of `left` onto `right` at the cut whose
/// `f64` bits are `cut_bits` is remembered by.
pub fn crossover_cut_key(left: &str, right: &str, cut_bits: u64) -> (res: String)
    ensures
        res@ == cut_key(left@, right@, cut_bits),
{
    let mut key = String::from_str("23:");
    key.append(left);
    key.append(":");
    key.append(right);
    key.append(":");
    let digits = hex_string(cut_bits, 16);
    key.append(digits.as_str());
    proof {
        reveal_strlit("23:");
        reveal_strlit(":");
    }
    key
}

/// Two cuts of the same ordered pair are two actions: their keys differ
/// whenever the cuts' bits do.
pub proof fn lemma_cut_keys_tell_cuts_apart(left: Seq<char>, right: Seq<char>, first: u64, second: u64)
    requires
        first != second,
    ensures
        cut_key(left, right, first) != cut_key(left, right, second),
{
    let prefix = "23:"@ + left + ":"@ + right + ":"@;
    let a = cut_key(left, right, first);
    let b = cut_key(left, right, second);
    assert(a == prefix + hex_fixed(first as nat, 16));
    assert(b == prefix + hex_fixed(second as nat, 16));
    if a == b {
        assert(a.skip(prefix.len() as int) =~= hex_fixed(first as nat, 16));
        assert(b.skip(prefix.len() as int) =~= hex_fixed(second as nat, 16));
        lemma_hex_fixed_injective(first as nat, second as nat, 16);
        assert(hex_span(16) == 0x1_0000_0000_0000_0000) by {
            reveal_with_fuel(hex_span, 17);
        }
    }
}

/// Whether `text` holds no `:`, the separator keys are built with.
pub open spec fn colon_free(text: Seq<char>) -> bool {
    forall|i: int| 0 <= i < text.len() ==> text[i] != ':'
}

proof fn lemma_split_at_colon(a: Seq<char>, x: Seq<char>, b: Seq<char>, y: Seq<char>)
    requires
        colon_free(a),
        colon_free(b),
        a + ":"@ + x == b + ":"@ + y,
    ensures
        a == b,
        x == y,
{
    reveal_strlit(":");
    let whole = a + ":"@ + x;
    let other = b + ":"@ + y;
    if a.len() < b.len() {
        assert(whole[a.len() as int] == ':');
        assert(other[a.len() as int] == b[a.len() as int]);
    } else if b.len() < a.len() {
        assert(other[b.len() as int] == ':');
        assert(whole[b.len() as int] == a[b.len() as int]);
    }
    assert(a =~= whole.take(a.len() as int));
    assert(b =~= other.take(b.len() as int));
    assert(x =~= whole.skip(a.len() as int + 1));
    assert(y =~= other.skip(b.len() as int + 1));
}

/// A midpoint crossover key names one ordered pair: over fingerprints
/// without a `:`, equal keys have the same parents in the same order.
pub proof fn lemma_pair_key_names_one_pair(left: Seq<char>, right: Seq<char>, other_left: Seq<char>, other_right: Seq<char>)
    requires
        colon_free(left),
        colon_free(right),
        colon_free(other_left),
        colon_free(other_right),
        pair_key(left, right) == pair_key(other_left, other_right),
    ensures
        left == other_left,
        right == other_right,
{
    reveal_strlit("23:");
    let head = "23:"@;
    let tail = left + ":"@ + right;
    let other_tail = other_left + ":"@ + other_right;
    assert(pair_key(left, right) =~= head + tail);
    assert(pair_key(other_left, other_right) =~= head + other_tail);
    assert(tail =~= (head + tail).skip(3));
    assert(other_tail =~= (head + other_tail).skip(3));
    lemma_split_at_colon(left, right, other_left, other_right);
}

/// A cut key names one action: over fingerprints without a `:`, equal keys
/// have the same parents in the same order and the same cut.
pub proof fn lemma_cut_key_names_one_action(
    left: Seq<char>,
    right: Seq<char>,
    cut: u64,
    other_left: Seq<char>,
    other_right: Seq<char>,
    other_cut: u64,
)
    requires
        colon_free(left),
        colon_free(right),
        colon_free(other_left),
        colon_free(other_right),
        cut_key(left, right, cut) == cut_key(other_left, other_right, other_cut),
    ensures
        left == other_left,
        right == other_right,
        cut == other_cut,
{
    reveal_strlit("23:");
    let head = "23:"@;
    let tail = left + ":"@ + (right + ":"@ + hex_fixed(cut as nat, 16));
    let other_tail = other_left + ":"@ + (other_right + ":"@ + hex_fixed(other_cut as nat, 16));
    assert(cut_key(left, right, cut) =~= head + tail);
    assert(cut_key(other_left, other_right, other_cut) =~= head + other_tail);
    assert(tail =~= (head + tail).skip(3));
    assert(other_tail =~= (head + other_tail).skip(3));
    lemma_split_at_colon(left, right + ":"@ + hex_fixed(cut as nat, 16), other_left, other_right + ":"@ + hex_fixed(other_cut as nat, 16));
    lemma_split_at_colon(right, hex_fixed(cut as nat, 16), other_right, hex_fixed(other_cut as nat, 16));
    if cut != other_cut {
        lemma_cut_keys_tell_cuts_apart(left, right, cut, other_cut);
    }
}

/// What an action of the queue operates on.
#[derive(Debug)]
pub enum ActionPayload {
    /// One archive state, by fingerprint.
    Basin { fingerprint: String },
    /// An ordered pair of archive states and a cut, as the bits of its `f64`.
    Crossover { left_fingerprint: String, right_fingerprint: String, cut_fraction_bits: u64 },
    /// A salted constructor ticket, by slot.
    Diversify { slot: usize },
}

/// One action the ranked queue may offer.
#[derive(Debug)]
pub struct ScheduledAction {
    pub class: ActionClass,
    pub key: String,
    pub rank: usize,
    pub label: String,
    pub payload: ActionPayload,
}

/// The constructor ticket for `slot`, named the same whichever path offers
/// it: keyed `m20:slot<slot>`, ranked by its slot.
pub fn diversify_action(slot: usize) -> (res: ScheduledAction)
    ensures
        res.class == ActionClass::Diversify,
        res.key@ == "m20:slot"@ + decimal(slot as nat),
        res.rank == slot,
        res.label@ == "m20 ticket slot"@ + decimal(slot as nat) + " + m22 quantum"@,
        res.payload == (ActionPayload::Diversify { slot }),
{
    let digits = decimal_string(slot as u64);
    let mut key = String::from_str("m20:slot");
    key.append(digits.as_str());
    let mut label = String::from_str("m20 ticket slot");
    label.append(digits.as_str());
    label.append(" + m22 quantum");
    ScheduledAction {
        class: ActionClass::Diversify,
        key,
        rank: slot,
        label,
        payload: ActionPayload::Diversify { slot },
    }
}

/// Distinct slots name distinct tickets.
pub proof fn lemma_diversify_keys_distinct(first: nat, second: nat)
    requires
        first != second,
    ensures
        "m20:slot"@ + decimal(first) != "m20:slot"@ + decimal(second),
{
    lemma_decimal_injective(first, second);
    let prefix = "m20:slot"@;
    if prefix + decimal(first) == prefix + decimal(second) {
        assert((prefix + decimal(first)).skip(prefix.len() as int) =~= decimal(first));
        assert((prefix + decimal(second)).skip(prefix.len() as int) =~= decimal(second));
    }
}


/// Records `key` as attempted and says whether it already was.
pub fn already_attempted(attempted: &mut Vec<String>, key: String) -> (res: bool)
    ensures
        res == attempted_holds(old(attempted)@, key@),
        final(attempted)@ == if res { old(attempted)@ } else { old(attempted)@.push(key) },
{
    if attempted_contains(attempted, &key) {
        true
    } else {
        attempted.push(key);
        false
    }
}

/// Whether an operator call may be started and finished before the phase's
/// deadline, as the cause that refuses it or `None` to go ahead. The wall
/// stop is asked first, then the deadline, then the price: an operator this
/// run has not priced (`affordable` is `None`) is admitted, so that it can be
/// priced at all.
pub fn affordability_verdict(wall_stop: bool, has_room: bool, affordable: Option<bool>) -> (res: Option<PhaseExitCause>)
    ensures
        res == if wall_stop {
            Some(PhaseExitCause::WallStop)
        } else if !has_room {
            Some(PhaseExitCause::Deadline)
        } else if affordable == Some(false) {
            Some(PhaseExitCause::Affordability)
        } else {
            None::<PhaseExitCause>
        },
{
    if wall_stop {
        return Some(PhaseExitCause::WallStop);
    }
    if !has_room {
        return Some(PhaseExitCause::Deadline);
    }
    match affordable {
        Some(false) => Some(PhaseExitCause::Affordability),
        _ => None,
    }
}

/// What the ranked queue does when no candidate was affordable.
#[derive(Clone, Copy, Debug, PartialEq, Eq, Structural)]
pub enum EmptyQueueStep {
    /// The loop ends, for this reason.
    Exit(PhaseExitCause),
    /// The loop buys the next constructor ticket off the list.
    BuyTicket,
}

/// The decision when the affordable search came back empty: candidates that
/// were all too expensive end the loop on affordability; an empty list buys
/// the next constructor ticket unless the class is spent, the wall refuses
/// it, or it cannot be paid for (`ticket_affordable` is `None` when its
/// quantum has never been priced).
pub fn empty_queue_step(
    candidate_count: usize,
    state: &V3QueueState,
    slots: usize,
    wall_refuses_ticket: bool,
    ticket_affordable: Option<bool>,
) -> (res: EmptyQueueStep)
    ensures
        res == if candidate_count > 0 {
            EmptyQueueStep::Exit(PhaseExitCause::Affordability)
        } else if state.diversify_done || state.diversify_slot >= slots {
            EmptyQueueStep::Exit(PhaseExitCause::KeysExhausted)
        } else if wall_refuses_ticket {
            EmptyQueueStep::Exit(PhaseExitCause::WallStop)
        } else if ticket_affordable != Some(true) {
            EmptyQueueStep::Exit(PhaseExitCause::Affordability)
        } else {
            EmptyQueueStep::BuyTicket
        },
{
    if candidate_count > 0 {
        return EmptyQueueStep::Exit(PhaseExitCause::Affordability);
    }
    if state.diversify_done || state.diversify_slot >= slots {
        return EmptyQueueStep::Exit(PhaseExitCause::KeysExhausted);
    }
    if wall_refuses_ticket {
        return EmptyQueueStep::Exit(PhaseExitCause::WallStop);
    }
    match ticket_affordable {
        Some(true) => EmptyQueueStep::BuyTicket,
        _ => EmptyQueueStep::Exit(PhaseExitCause::Affordability),
    }
}

/// The ranked queue's history, kept across tranches.
#[derive(Clone, Copy, Debug, PartialEq, Eq, Structural)]
pub struct V3QueueState {
    pub diversify_slot: usize,
    pub diversify_barren: usize,
    pub diversify_done: bool,
    /// Whether the sterile schedule class has had its one audition.
    pub schedule_auditioned: bool,
    pub barren_since_schedule: usize,
    /// Consecutive actions of any class that published nothing.
    pub barren: usize,
    /// The same count, also reset by a diversify action.
    pub barren_since_diversify: usize,
}

impl Default for V3QueueState {
    fn default() -> (res: Self)
        ensures
            res == (V3QueueState {
                diversify_slot: 0,
                diversify_barren: 0,
                diversify_done: false,
                schedule_auditioned: false,
                barren_since_schedule: 0,
                barren: 0,
                barren_since_diversify: 0,
            }),
    {
        V3QueueState {
            diversify_slot: 0,
            diversify_barren: 0,
            diversify_done: false,
            schedule_auditioned: false,
            barren_since_schedule: 0,
            barren: 0,
            barren_since_diversify: 0,
        }
    }
}

/// The state a tranche of the queue starts from: a run that never draws
/// constructor basins has no diversify slots to spend.
pub fn resume_queue(state: V3QueueState, trigger: BasinTrigger) -> (res: V3QueueState)
    ensures
        res == (V3QueueState { diversify_done: state.diversify_done || trigger == BasinTrigger::Never, ..state }),
{
    V3QueueState { diversify_done: state.diversify_done || trigger == BasinTrigger::Never, ..state }
}

/// Whether a ranked constructor ticket may be offered.
pub open spec fn diversify_open(ranked_diversify: bool, state: V3QueueState, slots: usize) -> bool {
    ranked_diversify && !state.diversify_done && state.diversify_slot < slots
}

/// Whether a ranked constructor ticket may be offered: the class is ranked,
/// not exhausted by its patience, and has a slot left.
pub fn diversify_available(ranked_diversify: bool, state: &V3QueueState, slots: usize) -> (res: bool)
    ensures
        res == diversify_open(ranked_diversify, *state, slots),
{
    ranked_diversify && !state.diversify_done && state.diversify_slot < slots
}

/// Whether an offered ticket is promoted to the front of the queue: after
/// `DIVERSIFY_AUDITION_BARREN` barren actions since the last ticket.
pub fn diversify_audition_due(available: bool, state: &V3QueueState) -> (res: bool)
    ensures
        res == (available && state.barren_since_diversify >= DIVERSIFY_AUDITION_BARREN),
{
    available && state.barren_since_diversify >= DIVERSIFY_AUDITION_BARREN
}

/// What the sterile bit decides about the compression-schedule class.
#[derive(Clone, Copy, Debug, PartialEq, Eq, Structural)]
pub struct ScheduleGate {
    /// The class's candidates are left out of this iteration.
    pub withheld: bool,
    /// The class is offered once more: its one audition.
    pub audition_due: bool,
}

/// Whether the schedule class is sterile on this request: the bit is on, and
/// the class has run `SCHEDULE_STERILE_ACTIONS` actions that published
/// nothing.
pub open spec fn schedule_sterile(sterile_bit: bool, schedule_actions: usize, schedule_publications: usize) -> bool {
    sterile_bit && schedule_actions >= SCHEDULE_STERILE_ACTIONS && schedule_publications == 0
}

/// Whether a sterile schedule class is due its one audition.
pub open spec fn schedule_audition_open(sterile: bool, state: V3QueueState) -> bool {
    sterile && !state.schedule_auditioned && state.barren_since_schedule >= SCHEDULE_AUDITION_BARREN
}

/// The sterile bit, applied: a sterile class is withheld from the candidate
/// list unless its one audition is due.
pub fn schedule_gate(sterile_bit: bool, schedule_actions: usize, schedule_publications: usize, state: &V3QueueState) -> (res: ScheduleGate)
    ensures
        res.audition_due == schedule_audition_open(schedule_sterile(sterile_bit, schedule_actions, schedule_publications), *state),
        res.withheld == (schedule_sterile(sterile_bit, schedule_actions, schedule_publications) && !res.audition_due),
{
    let sterile = sterile_bit && schedule_actions >= SCHEDULE_STERILE_ACTIONS && schedule_publications == 0;
    let audition_due = sterile && !state.schedule_auditioned && state.barren_since_schedule >= SCHEDULE_AUDITION_BARREN;
    ScheduleGate { withheld: sterile && !audition_due, audition_due }
}

/// Spends the ranked ticket slot when a ranked constructor ticket is bought:
/// the slot advances on purchase, not on offer.
pub fn note_purchase(state: &mut V3QueueState, class: ActionClass, ranked_diversify: bool)
    requires
        class == ActionClass::Diversify && ranked_diversify ==> old(state).diversify_slot < usize::MAX,
    ensures
        *final(state) == if class == ActionClass::Diversify && ranked_diversify {
            V3QueueState { diversify_slot: (old(state).diversify_slot + 1) as usize, ..*old(state) }
        } else {
            *old(state)
        },
{
    if class == ActionClass::Diversify && ranked_diversify {
        state.diversify_slot = state.diversify_slot + 1;
    }
}

/// The constructor ticket bought when no ranked candidate remains: the next
/// slot's, which it spends.
pub fn fallback_ticket(state: &mut V3QueueState) -> (res: ScheduledAction)
    requires
        old(state).diversify_slot < usize::MAX,
    ensures
        *final(state) == (V3QueueState { diversify_slot: (old(state).diversify_slot + 1) as usize, ..*old(state) }),
        res.class == ActionClass::Diversify,
        res.key@ == "m20:slot"@ + decimal(old(state).diversify_slot as nat),
        res.rank == old(state).diversify_slot,
        res.label@ == "m20 ticket slot"@ + decimal(old(state).diversify_slot as nat) + " + m22 quantum"@,
        res.payload == (ActionPayload::Diversify { slot: old(state).diversify_slot }),
{
    let slot = state.diversify_slot;
    state.diversify_slot = slot + 1;
    diversify_action(slot)
}

/// The queue's history after an action of `class` published `publications`
/// layouts.
pub open spec fn after_action(state: V3QueueState, class: ActionClass, publications: usize, audition_due: bool, patience: usize) -> V3QueueState {
    let published = publications > 0;
    let is_diversify = class == ActionClass::Diversify;
    let is_schedule = class == ActionClass::Schedule;
    let diversify_barren = if !is_diversify {
        state.diversify_barren
    } else if published {
        0
    } else {
        (state.diversify_barren + 1) as usize
    };
    V3QueueState {
        diversify_slot: state.diversify_slot,
        diversify_barren,
        diversify_done: state.diversify_done || (is_diversify && !published && diversify_barren >= patience),
        schedule_auditioned: state.schedule_auditioned || (is_schedule && audition_due),
        barren_since_schedule: if is_schedule || published { 0 } else { (state.barren_since_schedule + 1) as usize },
        barren: if published { 0 } else { (state.barren + 1) as usize },
        barren_since_diversify: if is_diversify || published { 0 } else { (state.barren_since_diversify + 1) as usize },
    }
}

/// Whether every count a barren action of `class` advances has room.
pub open spec fn queue_counts_have_room(state: V3QueueState, class: ActionClass, publications: usize) -> bool {
    publications == 0 ==> {
        &&& class == ActionClass::Diversify ==> state.diversify_barren < usize::MAX
        &&& state.barren < usize::MAX
        &&& state.barren_since_schedule < usize::MAX
        &&& state.barren_since_diversify < usize::MAX
    }
}

/// Records an action's outcome. A publication resets every barren count; a
/// barren action advances them; a diversify action resets its own count and
/// a schedule action its own; a barren diversify run as long as `patience`
/// ends the class; a schedule action spends a due audition whether or not it
/// published. Says whether the queue's patience ran out: `barren_patience`
/// consecutive barren actions, zero being off.
pub fn record_action_outcome(
    state: &mut V3QueueState,
    class: ActionClass,
    publications: usize,
    audition_due: bool,
    patience: usize,
    barren_patience: usize,
) -> (res: bool)
    requires
        queue_counts_have_room(*old(state), class, publications),
    ensures
        *final(state) == after_action(*old(state), class, publications, audition_due, patience),
        res == (barren_patience > 0 && final(state).barren >= barren_patience),
{
    if class == ActionClass::Diversify {
        if publications > 0 {
            state.diversify_barren = 0;
        } else {
            state.diversify_barren = state.diversify_barren + 1;
            if state.diversify_barren >= patience {
                state.diversify_done = true;
            }
        }
    }
    if publications > 0 {
        state.barren = 0;
        state.barren_since_diversify = 0;
        state.barren_since_schedule = 0;
    } else {
        state.barren = state.barren + 1;
        state.barren_since_diversify = state.barren_since_diversify + 1;
        state.barren_since_schedule = state.barren_since_schedule + 1;
    }
    if class == ActionClass::Diversify {
        state.barren_since_diversify = 0;
    }
    if class == ActionClass::Schedule {
        state.barren_since_schedule = 0;
        state.schedule_auditioned = state.schedule_auditioned || audition_due;
    }
    barren_patience > 0 && state.barren >= barren_patience
}

/// The schedule class's audition is spent at most once per run: once spent,
/// no later gate finds it due, and no action gives it back.
pub proof fn lemma_schedule_audition_spent_once(
    state: V3QueueState,
    sterile: bool,
    class: ActionClass,
    publications: usize,
    audition_due: bool,
    patience: usize,
)
    requires
        state.schedule_auditioned,
    ensures
        !schedule_audition_open(sterile, state),
        after_action(state, class, publications, audition_due, patience).schedule_auditioned,
{
}

/// Only a publication resets the queue's barren count, and a barren action
/// always advances it: the patience exit measures consecutive barren actions
/// of any class.
pub proof fn lemma_barren_counts_consecutive_actions(
    state: V3QueueState,
    class: ActionClass,
    publications: usize,
    audition_due: bool,
    patience: usize,
)
    requires
        queue_counts_have_room(state, class, publications),
    ensures
        publications > 0 ==> after_action(state, class, publications, audition_due, patience).barren == 0,
        publications == 0 ==> after_action(state, class, publications, audition_due, patience).barren == state.barren + 1,
        after_action(state, class, publications, audition_due, patience).diversify_slot == state.diversify_slot,
        state.diversify_done ==> after_action(state, class, publications, audition_due, patience).diversify_done,
{
}

/// Each class's barren wait counts the barren actions of every other class:
/// a barren action that is not a schedule action lengthens the schedule
/// class's wait by one, and only a publication or a schedule action ends
/// it; the same holds of the diversify class's wait and diversify actions.
pub proof fn lemma_class_waits_count_other_classes(
    state: V3QueueState,
    class: ActionClass,
    publications: usize,
    audition_due: bool,
    patience: usize,
)
    requires
        queue_counts_have_room(state, class, publications),
    ensures
        publications == 0 && class != ActionClass::Schedule
            ==> after_action(state, class, publications, audition_due, patience).barren_since_schedule
                == state.barren_since_schedule + 1,
        (publications > 0 || class == ActionClass::Schedule)
            <==> after_action(state, class, publications, audition_due, patience).barren_since_schedule == 0,
        publications == 0 && class != ActionClass::Diversify
            ==> after_action(state, class, publications, audition_due, patience).barren_since_diversify
                == state.barren_since_diversify + 1,
        (publications > 0 || class == ActionClass::Diversify)
            <==> after_action(state, class, publications, audition_due, patience).barren_since_diversify == 0,
        class != ActionClass::Diversify
            ==> after_action(state, class, publications, audition_due, patience).diversify_barren == state.diversify_barren,
        class != ActionClass::Schedule
            ==> after_action(state, class, publications, audition_due, patience).schedule_auditioned == state.schedule_auditioned,
{
}

/// The sparse rotation operator's request-adaptive disarm: one sterile
/// slice turns the operator off for this request, one audition after a long
/// barren wait can hand it back, and a productive slice re-arms it for good.
#[derive(Clone, Copy, Debug, PartialEq, Eq, Structural)]
pub struct SparseRotationBit {
    /// Slices that opened an episode and committed no rotation move.
    pub sterile_slices: usize,
    /// Whether the operator is currently off.
    pub disarmed: bool,
    /// Whether the one audition has been spent.
    pub auditioned: bool,
    /// Operator calls that published nothing since the bit fired.
    pub barren_calls: usize,
}

impl Default for SparseRotationBit {
    fn default() -> (res: Self)
        ensures
            res == (SparseRotationBit { sterile_slices: 0, disarmed: false, auditioned: false, barren_calls: 0 }),
    {
        SparseRotationBit { sterile_slices: 0, disarmed: false, auditioned: false, barren_calls: 0 }
    }
}

/// The bit after a slice that opened `episodes` episodes and committed
/// `committed` of the operator's own moves.
pub open spec fn observed(bit: SparseRotationBit, episodes: usize, committed: usize) -> SparseRotationBit {
    if episodes == 0 {
        bit
    } else if committed == 0 {
        let sterile = (bit.sterile_slices + 1) as usize;
        if sterile >= SPARSE_ROTATION_STERILE_SLICES {
            SparseRotationBit { sterile_slices: sterile, disarmed: true, barren_calls: 0, ..bit }
        } else {
            SparseRotationBit { sterile_slices: sterile, ..bit }
        }
    } else {
        SparseRotationBit { disarmed: false, sterile_slices: 0, ..bit }
    }
}

/// How the bit arms one operator call.
#[derive(Clone, Copy, Debug, PartialEq, Eq, Structural)]
pub struct SparseArming {
    /// This call is the one audition.
    pub audition: bool,
    /// The operator is off for this call.
    pub off: bool,
}

impl SparseRotationBit {
    /// The verdict from one slice's own two numbers: a slice that opened no
    /// episode says nothing; one that opened episodes and committed nothing
    /// is sterile, and enough sterile slices disarm the operator; one that
    /// committed a move re-arms it and clears the evidence.
    pub fn observe_slice(&mut self, episodes: usize, committed: usize)
        requires
            episodes > 0 && committed == 0 ==> old(self).sterile_slices < usize::MAX,
        ensures
            *final(self) == observed(*old(self), episodes, committed),
    {
        if episodes == 0 {
            return;
        }
        if committed == 0 {
            self.sterile_slices = self.sterile_slices + 1;
            if self.sterile_slices >= SPARSE_ROTATION_STERILE_SLICES {
                self.disarmed = true;
                self.barren_calls = 0;
            }
        } else {
            self.disarmed = false;
            self.sterile_slices = 0;
        }
    }

    /// How the next operator call is armed: a disarmed operator stays off
    /// unless its one audition is due, after `SPARSE_ROTATION_AUDITION_BARREN`
    /// barren calls; taking the audition spends it.
    pub fn arm_call(&mut self, bit_enabled: bool) -> (res: SparseArming)
        ensures
            res.audition == (bit_enabled && old(self).disarmed && !old(self).auditioned
                && old(self).barren_calls >= SPARSE_ROTATION_AUDITION_BARREN),
            res.off == (bit_enabled && old(self).disarmed && !res.audition),
            *final(self) == (SparseRotationBit { auditioned: old(self).auditioned || res.audition, ..*old(self) }),
    {
        let audition = bit_enabled && self.disarmed && !self.auditioned
            && self.barren_calls >= SPARSE_ROTATION_AUDITION_BARREN;
        let off = bit_enabled && self.disarmed && !audition;
        if audition {
            self.auditioned = true;
        }
        SparseArming { audition, off }
    }

    /// The bit after a call's slice: the verdict, then, while the operator is
    /// off, a publication clears the barren wait and any other call but the
    /// audition lengthens it.
    pub fn settle_call(&mut self, episodes: usize, committed: usize, published: bool, audition: bool)
        requires
            episodes > 0 && committed == 0 ==> old(self).sterile_slices < usize::MAX,
            observed(*old(self), episodes, committed).disarmed && !published && !audition
                ==> observed(*old(self), episodes, committed).barren_calls < usize::MAX,
        ensures
            ({
                let seen = observed(*old(self), episodes, committed);
                *final(self) == if !seen.disarmed {
                    seen
                } else if published {
                    SparseRotationBit { barren_calls: 0, ..seen }
                } else if !audition {
                    SparseRotationBit { barren_calls: (seen.barren_calls + 1) as usize, ..seen }
                } else {
                    seen
                }
            }),
    {
        self.observe_slice(episodes, committed);
        if self.disarmed {
            if published {
                self.barren_calls = 0;
            } else if !audition {
                self.barren_calls = self.barren_calls + 1;
            }
        }
    }
}

/// The sparse bit's verdict is reversible: a productive slice always re-arms
/// the operator and clears its evidence, and a slice with no episode changes
/// nothing.
pub proof fn lemma_sparse_verdict_is_reversible(bit: SparseRotationBit, episodes: usize, committed: usize)
    ensures
        episodes > 0 && committed > 0 ==> !observed(bit, episodes, committed).disarmed
            && observed(bit, episodes, committed).sterile_slices == 0,
        episodes == 0 ==> observed(bit, episodes, committed) == bit,
        episodes > 0 && committed == 0 && bit.sterile_slices < usize::MAX ==> observed(bit, episodes, committed).disarmed,
{
}

/// The class position an action class ranks by.
fn class_ordinal(class: ActionClass) -> (res: usize)
    ensures
        res as int == class.ordinal(),
{
    match class {
        ActionClass::Compression => 0,
        ActionClass::Descent => 1,
        ActionClass::Schedule => 2,
        ActionClass::Crossover => 3,
        ActionClass::Ladder => 4,
        ActionClass::Diversify => 5,
    }
}

/// The value a class is ranked by, as the total-order key of its `f64`.
pub open spec fn class_value_key(values: Seq<u64>, class: ActionClass) -> int {
    total_key(values[class.ordinal()])
}

/// The queue's ranking: higher class value first, then the classes'
/// declaration order, then the action's own rank, then its key.
pub open spec fn candidate_order(values: Seq<u64>) -> spec_fn(ScheduledAction, ScheduledAction) -> bool {
    |x: ScheduledAction, y: ScheduledAction| {
        let vx = class_value_key(values, x.class);
        let vy = class_value_key(values, y.class);
        ||| vx > vy
        ||| vx == vy && x.class.ordinal() < y.class.ordinal()
        ||| vx == vy && x.class.ordinal() == y.class.ordinal() && x.rank < y.rank
        ||| vx == vy && x.class.ordinal() == y.class.ordinal() && x.rank == y.rank && lex_less(x.key@, y.key@)
    }
}

/// The ranking is a strict order, so the ranked candidates come out in it:
/// no candidate ranks before one tried earlier.
pub proof fn lemma_ranked_candidates_in_order(candidates: Seq<ScheduledAction>, values: Seq<u64>)
    ensures
        sorted_by(stable_sort(candidates, candidate_order(values)), candidate_order(values)),
{
    let order = candidate_order(values);
    assert forall|a: ScheduledAction| !#[trigger] order(a, a) by {
        lemma_lex_irreflexive(a.key@);
    }
    assert forall|a: ScheduledAction, b: ScheduledAction, c: ScheduledAction|
        #[trigger] order(a, b) && #[trigger] order(b, c) implies order(a, c) by {
        if lex_less(a.key@, b.key@) && lex_less(b.key@, c.key@) {
            lemma_lex_transitive(a.key@, b.key@, c.key@);
        }
    }
    lemma_stable_sort_sorted(candidates, order);
}

/// Whether a candidate survives the sterile bit.
pub open spec fn offered(withhold_schedule: bool) -> spec_fn(ScheduledAction) -> bool {
    |action: ScheduledAction| !(withhold_schedule && action.class == ActionClass::Schedule)
}

/// The position of the first action of `class`, or the length when none is.
pub open spec fn first_of_class(actions: Seq<ScheduledAction>, class: ActionClass) -> int
    decreases actions.len(),
{
    if actions.len() == 0 {
        0
    } else if actions[0].class == class {
        0
    } else {
        1 + first_of_class(actions.drop_first(), class)
    }
}

/// `actions` with its first constructor ticket moved to the front, when
/// `promote` asks for it and there is one.
pub open spec fn promoted(actions: Seq<ScheduledAction>, promote: bool) -> Seq<ScheduledAction> {
    let at = first_of_class(actions, ActionClass::Diversify);
    if promote && at < actions.len() {
        actions.remove(at).insert(0, actions[at])
    } else {
        actions
    }
}

proof fn lemma_first_of_class_at(actions: Seq<ScheduledAction>, class: ActionClass, i: int)
    requires
        0 <= i <= actions.len(),
        forall|k: int| 0 <= k < i ==> (#[trigger] actions[k]).class != class,
        i < actions.len() ==> actions[i].class == class,
    ensures
        first_of_class(actions, class) == i,
    decreases i,
{
    if i > 0 {
        let rest = actions.drop_first();
        assert forall|k: int| 0 <= k < i - 1 implies (#[trigger] rest[k]).class != class by {
            assert(rest[k] == actions[k + 1]);
        }
        assert(actions[0].class != class);
        lemma_first_of_class_at(rest, class, i - 1);
    }
}

fn candidate_before(values: &[u64; 6], x: &ScheduledAction, y: &ScheduledAction) -> (res: bool)
    ensures
        res == candidate_order(values@)(*x, *y),
{
    let vx = total_order_key(values[class_ordinal(x.class)]);
    let vy = total_order_key(values[class_ordinal(y.class)]);
    if vx != vy {
        return vx > vy;
    }
    let cx = class_ordinal(x.class);
    let cy = class_ordinal(y.class);
    if cx != cy {
        return cx < cy;
    }
    if x.rank != y.rank {
        return x.rank < y.rank;
    }
    str_less(x.key.as_str(), y.key.as_str())
}

/// The candidates in the order the queue tries them: the schedule class's
/// left out when the sterile bit withholds it, the rest ranked by class
/// value, class, rank and key (equal candidates keeping their order), and the
/// first constructor ticket moved to the front when its audition is due.
pub fn order_v3_candidates(
    candidates: Vec<ScheduledAction>,
    values: &[u64; 6],
    withhold_schedule: bool,
    promote_diversify: bool,
) -> (res: Vec<ScheduledAction>)
    ensures
        res@ == promoted(
            stable_sort(candidates@.filter(offered(withhold_schedule)), candidate_order(values@)),
            promote_diversify,
        ),
{
    let ghost original = candidates@;
    let ghost keep = offered(withhold_schedule);
    let mut input = candidates;
    assert(original.len() == input.len());
    let mut kept: Vec<ScheduledAction> = Vec::new();
    let mut k: usize = 0;
    assert(original.skip(0) =~= original);
    proof {
        reveal(Seq::filter);
        assert(original.take(0).filter(keep) =~= Seq::<ScheduledAction>::empty());
    }
    while input.len() > 0
        invariant
            k <= original.len(),
            original.len() <= usize::MAX,
            input@.len() + k == original.len(),
            input@ == original.skip(k as int),
            keep == offered(withhold_schedule),
            kept@ == original.take(k as int).filter(keep),
        decreases input.len(),
    {
        let item = input.remove(0);
        assert(item == original[k as int]);
        assert(input@ =~= original.skip(k as int + 1));
        proof {
            reveal(Seq::filter);
            assert(original.take(k as int + 1).drop_last() =~= original.take(k as int));
            assert(original.take(k as int + 1).last() == item);
        }
        if !(withhold_schedule && item.class == ActionClass::Schedule) {
            kept.push(item);
        }
        k = k + 1;
    }
    assert(original.take(original.len() as int) =~= original);
    let ghost filtered = kept@;
    let ghost order = candidate_order(values@);
    let mut input = kept;
    let mut out: Vec<ScheduledAction> = Vec::new();
    let mut k: usize = 0;
    assert(filtered.skip(0) =~= filtered);
    assert(filtered.take(0) =~= Seq::<ScheduledAction>::empty());
    while input.len() > 0
        invariant
            k <= filtered.len(),
            filtered.len() <= usize::MAX,
            input@.len() + k == filtered.len(),
            input@ == filtered.skip(k as int),
            order == candidate_order(values@),
            out@ == stable_sort(filtered.take(k as int), order),
        decreases input.len(),
    {
        let item = input.remove(0);
        assert(item == filtered[k as int]);
        assert(input@ =~= filtered.skip(k as int + 1));
        let mut pos: usize = 0;
        let mut found = false;
        while pos < out.len() && !found
            invariant
                pos <= out.len(),
                order == candidate_order(values@),
                forall|j: int| 0 <= j < pos ==> !order(item, #[trigger] out@[j]),
                found ==> pos < out.len() && order(item, out@[pos as int]),
            decreases out.len() - pos + if found { 0int } else { 1int },
        {
            if candidate_before(values, &item, &out[pos]) {
                found = true;
            } else {
                pos = pos + 1;
            }
        }
        proof {
            lemma_insert_by_at(out@, item, order, pos as int);
            lemma_stable_sort_step(filtered, k as int, order);
        }
        out.insert(pos, item);
        k = k + 1;
    }
    assert(filtered.take(filtered.len() as int) =~= filtered);
    if promote_diversify {
        let mut at: usize = 0;
        while at < out.len() && out[at].class != ActionClass::Diversify
            invariant
                at <= out.len(),
                forall|j: int| 0 <= j < at ==> (#[trigger] out@[j]).class != ActionClass::Diversify,
            decreases out.len() - at,
        {
            at = at + 1;
        }
        proof {
            lemma_first_of_class_at(out@, ActionClass::Diversify, at as int);
        }
        if at < out.len() {
            let ghost sorted = out@;
            let ticket = out.remove(at);
            out.insert(0, ticket);
            assert(out@ =~= sorted.remove(at as int).insert(0, sorted[at as int]));
        }
    }
    out
}

} // verus!
