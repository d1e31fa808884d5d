//! The shadow-rescore audit's tallies: how many accepted moves were audited,
//! how they disagreed, and the widest gaps seen.
//!
//! The tallies are a value the caller owns and threads through every record;
//! a process-wide instance is the caller's to keep.
use vstd::prelude::*;
use crate::bits::{float_equal_bits, is_finite_bits, sign_negative};

verus! {

/// What the audit saw over the stream so far.
#[derive(Clone, Debug, Default, PartialEq, Eq)]
pub struct ShadowRescoreSnapshot {
    /// Accepted moves audited.
    pub checks: u64,
    /// Audits where the two trackers described different layouts.
    pub structural_disagreements: u64,
    /// Audits where the structure matched but a row magnitude did not.
    pub magnitude_only_audits: u64,
    /// The widest row-magnitude gap seen, in `f64` ulps.
    pub max_magnitude_ulps: u64,
    /// Audits where every row matched but a running sum did not.
    pub derived_gap_audits: u64,
    /// The widest running-sum gap seen, in `f64` ulps.
    pub max_derived_ulps: u64,
    /// The first structural disagreement, rendered.
    pub first_structural_disagreement: Option<String>,
    /// The first magnitude-only disagreement, rendered.
    pub first_magnitude_disagreement: Option<String>,
}

/// A counter after one more event: it wraps from `u64::MAX` to zero, as an
/// atomic `fetch_add` does.
pub open spec fn next_count(count: u64) -> u64 {
    if count == u64::MAX { 0 } else { (count + 1) as u64 }
}

pub open spec fn larger(a: u64, b: u64) -> u64 {
    if a >= b { a } else { b }
}

fn bump(count: u64) -> (res: u64)
    ensures
        res == next_count(count),
{
    if count == u64::MAX { 0 } else { count + 1 }
}

/// `after` is `before` with one agreeing audit recorded: counted, and when
/// a running sum still differed by `derived_ulps`, counted as a derived gap
/// and folded into the widest such gap; nothing else moves.
pub open spec fn after_agreement(before: ShadowRescoreSnapshot, after: ShadowRescoreSnapshot, derived_ulps: u64) -> bool {
    &&& after.checks == next_count(before.checks)
    &&& after.derived_gap_audits == if derived_ulps > 0 {
        next_count(before.derived_gap_audits)
    } else {
        before.derived_gap_audits
    }
    &&& after.max_derived_ulps == larger(before.max_derived_ulps, derived_ulps)
    &&& after.structural_disagreements == before.structural_disagreements
    &&& after.magnitude_only_audits == before.magnitude_only_audits
    &&& after.max_magnitude_ulps == before.max_magnitude_ulps
    &&& after.first_structural_disagreement == before.first_structural_disagreement
    &&& after.first_magnitude_disagreement == before.first_magnitude_disagreement
}

/// `after` is `before` with one magnitude-only audit recorded: counted,
/// folded into the widest magnitude gap, and rendered as the first such
/// disagreement unless one was already kept; nothing else moves.
pub open spec fn after_magnitude_only(before: ShadowRescoreSnapshot, after: ShadowRescoreSnapshot, rendered: String, worst_ulps: u64) -> bool {
    &&& after.checks == next_count(before.checks)
    &&& after.magnitude_only_audits == next_count(before.magnitude_only_audits)
    &&& after.max_magnitude_ulps == larger(before.max_magnitude_ulps, worst_ulps)
    &&& after.first_magnitude_disagreement == match before.first_magnitude_disagreement {
        Some(first) => Some(first),
        None => Some(rendered),
    }
    &&& after.structural_disagreements == before.structural_disagreements
    &&& after.derived_gap_audits == before.derived_gap_audits
    &&& after.max_derived_ulps == before.max_derived_ulps
    &&& after.first_structural_disagreement == before.first_structural_disagreement
}

/// `after` is `before` with one structural disagreement recorded: counted,
/// and rendered as the first such disagreement unless one was already kept;
/// nothing else moves.
pub open spec fn after_disagreement(before: ShadowRescoreSnapshot, after: ShadowRescoreSnapshot, rendered: String) -> bool {
    &&& after.checks == next_count(before.checks)
    &&& after.structural_disagreements == next_count(before.structural_disagreements)
    &&& after.first_structural_disagreement == match before.first_structural_disagreement {
        Some(first) => Some(first),
        None => Some(rendered),
    }
    &&& after.magnitude_only_audits == before.magnitude_only_audits
    &&& after.max_magnitude_ulps == before.max_magnitude_ulps
    &&& after.derived_gap_audits == before.derived_gap_audits
    &&& after.max_derived_ulps == before.max_derived_ulps
    &&& after.first_magnitude_disagreement == before.first_magnitude_disagreement
}

/// A count as a wrapping `u64` counter holds it: modulo `2^64`.
pub open spec fn wrapped(count: nat) -> u64 {
    (count % 0x1_0000_0000_0000_0000) as u64
}

/// Whether `tally` accounts for a stream of audits recorded since it was
/// cleared: `agreements` agreeing audits, `derived_gaps` of them with a
/// running-sum gap, `magnitude_only` magnitude-only audits and `structural`
/// structural disagreements. Every audit is one check, each counter wraps
/// at `u64::MAX`, a widest gap is nonzero only when some audit of its kind
/// saw one, and a first rendering is kept exactly when some disagreement of
/// its kind was recorded.
pub open spec fn accounts_for(tally: ShadowRescoreSnapshot, agreements: nat, derived_gaps: nat, magnitude_only: nat, structural: nat) -> bool {
    &&& derived_gaps <= agreements
    &&& tally.checks == wrapped(agreements + magnitude_only + structural)
    &&& tally.derived_gap_audits == wrapped(derived_gaps)
    &&& tally.magnitude_only_audits == wrapped(magnitude_only)
    &&& tally.structural_disagreements == wrapped(structural)
    &&& (tally.max_derived_ulps > 0) == (derived_gaps > 0)
    &&& tally.max_magnitude_ulps > 0 ==> magnitude_only > 0
    &&& (tally.first_magnitude_disagreement is Some) == (magnitude_only > 0)
    &&& (tally.first_structural_disagreement is Some) == (structural > 0)
}

proof fn lemma_next_count_wraps(count: nat)
    ensures
        next_count(wrapped(count)) == wrapped(count + 1),
{
    let m: int = 0x1_0000_0000_0000_0000;
    let c: int = count as int;
    let q: int = c / m;
    let r: int = c % m;
    assert(c == q * m + r && 0 <= r < m) by (nonlinear_arith)
        requires
            m > 0,
            q == c / m,
            r == c % m;
    if r + 1 < m {
        assert((c + 1) % m == r + 1) by (nonlinear_arith)
            requires
                c + 1 == q * m + (r + 1),
                0 <= r + 1 < m;
    } else {
        assert((c + 1) % m == 0) by (nonlinear_arith)
            requires
                c + 1 == (q + 1) * m,
                m > 0;
    }
}

/// The widest running-sum gap is a running maximum: recording an agreement
/// never narrows it, covers the gap just recorded, and is one of the two.
pub proof fn lemma_agreement_keeps_the_widest_gap(before: ShadowRescoreSnapshot, after: ShadowRescoreSnapshot, derived_ulps: u64)
    requires
        after_agreement(before, after, derived_ulps),
    ensures
        after.max_derived_ulps >= before.max_derived_ulps,
        after.max_derived_ulps >= derived_ulps,
        after.max_derived_ulps == before.max_derived_ulps || after.max_derived_ulps == derived_ulps,
        after.max_magnitude_ulps == before.max_magnitude_ulps,
{
}

/// The widest row-magnitude gap is a running maximum: recording a
/// magnitude-only audit never narrows it, covers the gap just recorded, and
/// is one of the two.
pub proof fn lemma_magnitude_only_keeps_the_widest_gap(
    before: ShadowRescoreSnapshot,
    after: ShadowRescoreSnapshot,
    rendered: String,
    worst_ulps: u64,
)
    requires
        after_magnitude_only(before, after, rendered, worst_ulps),
    ensures
        after.max_magnitude_ulps >= before.max_magnitude_ulps,
        after.max_magnitude_ulps >= worst_ulps,
        after.max_magnitude_ulps == before.max_magnitude_ulps || after.max_magnitude_ulps == worst_ulps,
        after.max_derived_ulps == before.max_derived_ulps,
{
}

/// A structural disagreement leaves both widest gaps as they were.
pub proof fn lemma_disagreement_keeps_the_widest_gaps(before: ShadowRescoreSnapshot, after: ShadowRescoreSnapshot, rendered: String)
    requires
        after_disagreement(before, after, rendered),
    ensures
        after.max_derived_ulps == before.max_derived_ulps,
        after.max_magnitude_ulps == before.max_magnitude_ulps,
{
}

/// A cleared tally accounts for no audits.
pub proof fn lemma_cleared_accounts_for_nothing(tally: ShadowRescoreSnapshot)
    requires
        is_cleared(tally),
    ensures
        accounts_for(tally, 0, 0, 0, 0),
{
}

/// Recording an agreeing audit accounts for one more agreement, and for one
/// more derived gap when a running sum differed.
pub proof fn lemma_agreement_accounted(
    before: ShadowRescoreSnapshot,
    after: ShadowRescoreSnapshot,
    derived_ulps: u64,
    agreements: nat,
    derived_gaps: nat,
    magnitude_only: nat,
    structural: nat,
)
    requires
        accounts_for(before, agreements, derived_gaps, magnitude_only, structural),
        after_agreement(before, after, derived_ulps),
    ensures
        accounts_for(
            after,
            agreements + 1,
            if derived_ulps > 0 { derived_gaps + 1 } else { derived_gaps },
            magnitude_only,
            structural,
        ),
{
    lemma_next_count_wraps(agreements + magnitude_only + structural);
    lemma_next_count_wraps(derived_gaps);
    assert(agreements + 1 + magnitude_only + structural == agreements + magnitude_only + structural + 1);
}

/// Recording a magnitude-only audit accounts for one more of them.
pub proof fn lemma_magnitude_only_accounted(
    before: ShadowRescoreSnapshot,
    after: ShadowRescoreSnapshot,
    rendered: String,
    worst_ulps: u64,
    agreements: nat,
    derived_gaps: nat,
    magnitude_only: nat,
    structural: nat,
)
    requires
        accounts_for(before, agreements, derived_gaps, magnitude_only, structural),
        after_magnitude_only(before, after, rendered, worst_ulps),
    ensures
        accounts_for(after, agreements, derived_gaps, magnitude_only + 1, structural),
{
    lemma_next_count_wraps(agreements + magnitude_only + structural);
    lemma_next_count_wraps(magnitude_only);
    assert(agreements + (magnitude_only + 1) + structural == agreements + magnitude_only + structural + 1);
}

/// Recording a structural disagreement accounts for one more of them.
pub proof fn lemma_disagreement_accounted(
    before: ShadowRescoreSnapshot,
    after: ShadowRescoreSnapshot,
    rendered: String,
    agreements: nat,
    derived_gaps: nat,
    magnitude_only: nat,
    structural: nat,
)
    requires
        accounts_for(before, agreements, derived_gaps, magnitude_only, structural),
        after_disagreement(before, after, rendered),
    ensures
        accounts_for(after, agreements, derived_gaps, magnitude_only, structural + 1),
{
    lemma_next_count_wraps(agreements + magnitude_only + structural);
    lemma_next_count_wraps(structural);
    assert(agreements + magnitude_only + (structural + 1) == agreements + magnitude_only + structural + 1);
}

/// One audit whose rows all matched bit for bit: counted, and when a running
/// sum still differed by `derived_ulps`, counted as a derived gap and folded
/// into the widest such gap.
pub fn record_agreement(tally: &mut ShadowRescoreSnapshot, derived_ulps: u64)
    ensures
        after_agreement(*old(tally), *final(tally), derived_ulps),
{
    tally.checks = bump(tally.checks);
    if derived_ulps > 0 {
        tally.derived_gap_audits = bump(tally.derived_gap_audits);
        if derived_ulps > tally.max_derived_ulps {
            tally.max_derived_ulps = derived_ulps;
        }
    }
}

/// One audit whose structure matched but whose row magnitudes did not:
/// counted, folded into the widest magnitude gap, and rendered as the first
/// such disagreement unless one was already kept.
pub fn record_magnitude_only(tally: &mut ShadowRescoreSnapshot, rendered: String, worst_ulps: u64)
    ensures
        after_magnitude_only(*old(tally), *final(tally), rendered, worst_ulps),
{
    tally.checks = bump(tally.checks);
    tally.magnitude_only_audits = bump(tally.magnitude_only_audits);
    if worst_ulps > tally.max_magnitude_ulps {
        tally.max_magnitude_ulps = worst_ulps;
    }
    if tally.first_magnitude_disagreement.is_none() {
        tally.first_magnitude_disagreement = Some(rendered);
    }
}

/// One audit whose two trackers described different layouts: counted, and
/// rendered as the first such disagreement unless one was already kept.
pub fn record_disagreement(tally: &mut ShadowRescoreSnapshot, rendered: String)
    ensures
        after_disagreement(*old(tally), *final(tally), rendered),
{
    tally.checks = bump(tally.checks);
    tally.structural_disagreements = bump(tally.structural_disagreements);
    if tally.first_structural_disagreement.is_none() {
        tally.first_structural_disagreement = Some(rendered);
    }
}

/// Whether every tally is zero and nothing is rendered.
pub open spec fn is_cleared(tally: ShadowRescoreSnapshot) -> bool {
    &&& tally.checks == 0
    &&& tally.structural_disagreements == 0
    &&& tally.magnitude_only_audits == 0
    &&& tally.max_magnitude_ulps == 0
    &&& tally.derived_gap_audits == 0
    &&& tally.max_derived_ulps == 0
    &&& tally.first_structural_disagreement is None
    &&& tally.first_magnitude_disagreement is None
}

/// Clears every tally.
pub fn reset(tally: &mut ShadowRescoreSnapshot)
    ensures
        is_cleared(*final(tally)),
{
    tally.checks = 0;
    tally.structural_disagreements = 0;
    tally.magnitude_only_audits = 0;
    tally.max_magnitude_ulps = 0;
    tally.derived_gap_audits = 0;
    tally.max_derived_ulps = 0;
    tally.first_structural_disagreement = None;
    tally.first_magnitude_disagreement = None;
}

fn copy_rendered(value: &Option<String>) -> (res: Option<String>)
    ensures
        res == *value,
{
    match value {
        Some(text) => Some(text.clone()),
        None => None,
    }
}

/// Reads the tallies: a copy of every count and rendering.
pub fn snapshot(tally: &ShadowRescoreSnapshot) -> (res: ShadowRescoreSnapshot)
    ensures
        res == *tally,
{
    ShadowRescoreSnapshot {
        checks: tally.checks,
        structural_disagreements: tally.structural_disagreements,
        magnitude_only_audits: tally.magnitude_only_audits,
        max_magnitude_ulps: tally.max_magnitude_ulps,
        derived_gap_audits: tally.derived_gap_audits,
        max_derived_ulps: tally.max_derived_ulps,
        first_structural_disagreement: copy_rendered(&tally.first_structural_disagreement),
        first_magnitude_disagreement: copy_rendered(&tally.first_magnitude_disagreement),
    }
}

/// The gap between two running sums in `f64` units in the last place.
pub open spec fn ulp_distance(first: u64, second: u64) -> u64 {
    if float_equal_bits(first, second) {
        0
    } else if !is_finite_bits(first) || !is_finite_bits(second) || sign_negative(first) != sign_negative(second) {
        u64::MAX
    } else if first >= second {
        (first - second) as u64
    } else {
        (second - first) as u64
    }
}

/// The gap between two running sums, each given as the bits of its `f64`, in
/// units in the last place: zero for values that compare equal; `u64::MAX`
/// for values that are not both finite or that differ in sign; otherwise the
/// distance between the two bit patterns.
pub fn derived_ulp_distance(first_bits: u64, second_bits: u64) -> (res: u64)
    ensures
        res == ulp_distance(first_bits, second_bits),
{
    let first_magnitude = first_bits % 0x8000_0000_0000_0000;
    let second_magnitude = second_bits % 0x8000_0000_0000_0000;
    let first_finite = first_magnitude / 0x10_0000_0000_0000 != 0x7ff;
    let second_finite = second_magnitude / 0x10_0000_0000_0000 != 0x7ff;
    let first_nan = !first_finite && first_magnitude % 0x10_0000_0000_0000 != 0;
    let second_nan = !second_finite && second_magnitude % 0x10_0000_0000_0000 != 0;
    if !first_nan && !second_nan
        && (first_bits == second_bits || (first_magnitude == 0 && second_magnitude == 0))
    {
        return 0;
    }
    let first_negative = first_bits >= 0x8000_0000_0000_0000;
    let second_negative = second_bits >= 0x8000_0000_0000_0000;
    if !first_finite || !second_finite || first_negative != second_negative {
        return u64::MAX;
    }
    if first_bits >= second_bits {
        first_bits - second_bits
    } else {
        second_bits - first_bits
    }
}

/// The distance is symmetric, zero on equal values, and a `u64::MAX` on
/// values of different sign.
pub proof fn lemma_ulp_distance_symmetric(first: u64, second: u64)
    ensures
        ulp_distance(first, second) == ulp_distance(second, first),
        float_equal_bits(first, second) ==> ulp_distance(first, second) == 0,
        !float_equal_bits(first, second) && sign_negative(first) != sign_negative(second)
            ==> ulp_distance(first, second) == u64::MAX,
{
}

/// The first rendering kept is never replaced: recording another
/// disagreement of either kind leaves an already-kept first rendering as it
/// was.
pub proof fn lemma_first_rendering_is_kept(before: Option<String>, rendered: String, after: Option<String>)
    requires
        before is Some,
        after == match before {
            Some(first) => Some(first),
            None => Some(rendered),
        },
    ensures
        after == before,
{
}

} // verus!
