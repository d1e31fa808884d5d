//! The basin race's decisions: how the arms are judged on yield, stability
//! and infeasibility, how many survive a round, how long the next audition
//! is, and which archived layouts the losers leave behind.
//!
//! Each criterion is an `f64` carried as its bits and compared in the total
//! order `f64::total_cmp` uses.
use vstd::prelude::*;
use crate::order::{count_where, lemma_count_where_grows, lemma_push_contains, insert_by, lemma_count_where_bound, lemma_count_where_none, lemma_insert_by_at, lemma_stable_sort_sorted, lemma_stable_sort_step, sorted_by, stable_sort, strict_order};
use crate::bits::{total_key, total_order_key};
use crate::portfolio::archive::{views, ArchivedBasin, BasinView, Placement};
use crate::portfolio::kinds::PhaseExitCause;
use crate::portfolio::queue::SCHEDULE_RUNGS;

verus! {

/// One arm of the basin race.
#[derive(Debug)]
pub struct BasinRaceArm {
    /// The salt slot; `0` is the incumbent control.
    pub slot: usize,
    /// What the arm is, in the report's own words.
    pub kind: String,
    /// The layout the arm is carrying.
    pub placements: Vec<Placement>,
    pub fingerprint: String,
    /// The carried layout's depth, as the bits of its `f64`.
    pub depth_bits: u64,
    /// Every fingerprint this arm has put into the archive.
    pub archived: Vec<String>,
    /// Millimetres the audition batch took off the arm's parent, as `f64`
    /// bits. Higher is better.
    pub yield_bits: u64,
    /// The fraction of the batch's confirmations that were accepted, as `f64`
    /// bits. Higher is better.
    pub stability_bits: u64,
    /// Violations per piece at the batch's entry, as `f64` bits. Lower is
    /// better.
    pub infeasibility_bits: u64,
    pub batch_steps: usize,
    pub batch_confirmations: usize,
    /// Rank sum over the three criteria, lowest wins.
    pub rank_sum: usize,
    /// The round the arm was eliminated in, if it was.
    pub eliminated_round: Option<usize>,
}

/// Arm `b` is ahead of arm `a` on yield: it yielded more, or as much with a
/// lower index.
pub open spec fn yield_ahead(rows: Seq<BasinRaceArm>, a: usize) -> spec_fn(usize) -> bool {
    |b: usize| {
        let kb = total_key(rows[b as int].yield_bits);
        let ka = total_key(rows[a as int].yield_bits);
        kb > ka || (kb == ka && b < a)
    }
}

/// Arm `b` is ahead of arm `a` on stability: more stable, or as stable with a
/// lower index.
pub open spec fn stability_ahead(rows: Seq<BasinRaceArm>, a: usize) -> spec_fn(usize) -> bool {
    |b: usize| {
        let kb = total_key(rows[b as int].stability_bits);
        let ka = total_key(rows[a as int].stability_bits);
        kb > ka || (kb == ka && b < a)
    }
}

/// Arm `b` is ahead of arm `a` on infeasibility: less infeasible, or as
/// infeasible with a lower index.
pub open spec fn infeasibility_ahead(rows: Seq<BasinRaceArm>, a: usize) -> spec_fn(usize) -> bool {
    |b: usize| {
        let kb = total_key(rows[b as int].infeasibility_bits);
        let ka = total_key(rows[a as int].infeasibility_bits);
        kb < ka || (kb == ka && b < a)
    }
}

/// Arm `a`'s rank sum among the live `arms`: its position in each of the
/// three best-first orders, added up.
pub open spec fn race_rank(rows: Seq<BasinRaceArm>, arms: Seq<usize>, a: usize) -> nat {
    count_where(arms, yield_ahead(rows, a)) + count_where(arms, stability_ahead(rows, a))
        + count_where(arms, infeasibility_ahead(rows, a))
}

/// `arm` with its rank sum set to `rank`.
pub open spec fn with_rank(arm: BasinRaceArm, rank: nat) -> BasinRaceArm {
    BasinRaceArm { rank_sum: rank as usize, ..arm }
}

/// The rows once every live arm carries its rank sum.
pub open spec fn judged_rows(rows: Seq<BasinRaceArm>, arms: Seq<usize>) -> Seq<BasinRaceArm> {
    Seq::new(rows.len(), |i: int| if arms.contains(i as usize) {
        with_rank(rows[i], race_rank(rows, arms, i as usize))
    } else {
        rows[i]
    })
}

/// The judged order: lower rank sum first, ties toward the lower index.
pub open spec fn race_order(rows: Seq<BasinRaceArm>) -> spec_fn(usize, usize) -> bool {
    |x: usize, y: usize| rows[x as int].rank_sum < rows[y as int].rank_sum
        || (rows[x as int].rank_sum == rows[y as int].rank_sum && x < y)
}

/// Whether every live arm names a row.
pub open spec fn arms_in_rows(arms: Seq<usize>, rows: Seq<BasinRaceArm>) -> bool {
    forall|i: int| 0 <= i < arms.len() ==> #[trigger] arms[i] < rows.len()
}

/// Which criterion a count reads.
enum Criterion {
    Yield,
    Stability,
    Infeasibility,
}

spec fn criterion_ahead(rows: Seq<BasinRaceArm>, criterion: Criterion, a: usize) -> spec_fn(usize) -> bool {
    match criterion {
        Criterion::Yield => yield_ahead(rows, a),
        Criterion::Stability => stability_ahead(rows, a),
        Criterion::Infeasibility => infeasibility_ahead(rows, a),
    }
}

fn criterion_key(arm: &BasinRaceArm, criterion: &Criterion) -> (res: i64)
    ensures
        res as int == match criterion {
            Criterion::Yield => total_key(arm.yield_bits),
            Criterion::Stability => total_key(arm.stability_bits),
            Criterion::Infeasibility => total_key(arm.infeasibility_bits),
        },
{
    match criterion {
        Criterion::Yield => total_order_key(arm.yield_bits),
        Criterion::Stability => total_order_key(arm.stability_bits),
        Criterion::Infeasibility => total_order_key(arm.infeasibility_bits),
    }
}

/// How many live arms are ahead of arm `a` on one criterion: `a`'s position
/// in that criterion's best-first order.
fn position_on(rows: &Vec<BasinRaceArm>, arms: &Vec<usize>, a: usize, criterion: &Criterion) -> (res: usize)
    requires
        arms_in_rows(arms@, rows@),
        a < rows@.len(),
    ensures
        res == count_where(arms@, criterion_ahead(rows@, *criterion, a)),
{
    let ka = criterion_key(&rows[a], criterion);
    let ghost ahead = criterion_ahead(rows@, *criterion, a);
    let mut count: usize = 0;
    let mut j: usize = 0;
    while j < arms.len()
        invariant
            j <= arms@.len(),
            arms_in_rows(arms@, rows@),
            a < rows@.len(),
            ka as int == match *criterion {
                Criterion::Yield => total_key(rows@[a as int].yield_bits),
                Criterion::Stability => total_key(rows@[a as int].stability_bits),
                Criterion::Infeasibility => total_key(rows@[a as int].infeasibility_bits),
            },
            ahead == criterion_ahead(rows@, *criterion, a),
            count == count_where(arms@.take(j as int), ahead),
            count <= j,
        decreases arms.len() - j,
    {
        assert(arms@.take(j as int + 1).drop_last() =~= arms@.take(j as int));
        let b = arms[j];
        assert(b < rows@.len());
        let kb = criterion_key(&rows[b], criterion);
        let is_ahead = match criterion {
            Criterion::Infeasibility => kb < ka || (kb == ka && b < a),
            _ => kb > ka || (kb == ka && b < a),
        };
        assert(is_ahead == ahead(b));
        if is_ahead {
            count = count + 1;
        }
        j = j + 1;
    }
    assert(arms@.take(arms.len() as int) =~= arms@);
    count
}

fn race_before(rows: &Vec<BasinRaceArm>, x: usize, y: usize) -> (res: bool)
    requires
        x < rows@.len(),
        y < rows@.len(),
    ensures
        res == race_order(rows@)(x, y),
{
    rows[x].rank_sum < rows[y].rank_sum || (rows[x].rank_sum == rows[y].rank_sum && x < y)
}

/// Ranks the live `arms` on the three criteria, writes each one's rank sum
/// into its row, and orders `arms` best-first: lowest rank sum first, every
/// tie broken toward the lower index, so the incumbent control wins ties.
/// Depth is never read.
pub fn judge_basin_race(arms: &mut Vec<usize>, rows: &mut Vec<BasinRaceArm>)
    requires
        arms_in_rows(old(arms)@, old(rows)@),
        3 * old(arms)@.len() <= usize::MAX,
    ensures
        final(rows)@ == judged_rows(old(rows)@, old(arms)@),
        final(arms)@ == stable_sort(old(arms)@, race_order(final(rows)@)),
        arms_in_rows(final(arms)@, final(rows)@),
{
    let ghost rows0 = rows@;
    let ghost arms0 = arms@;
    // Every live arm's rank, read before any row is written.
    let mut ranks: Vec<usize> = Vec::new();
    let mut j: usize = 0;
    while j < arms.len()
        invariant
            rows@ == rows0,
            arms@ == arms0,
            arms_in_rows(arms0, rows0),
            3 * arms0.len() <= usize::MAX,
            j <= arms0.len(),
            ranks@.len() == j,
            forall|k: int| 0 <= k < j ==> #[trigger] ranks@[k] == race_rank(rows0, arms0, arms0[k]),
        decreases arms.len() - j,
    {
        let a = arms[j];
        let y = position_on(rows, arms, a, &Criterion::Yield);
        let s = position_on(rows, arms, a, &Criterion::Stability);
        let f = position_on(rows, arms, a, &Criterion::Infeasibility);
        proof {
            lemma_count_where_bound(arms0, yield_ahead(rows0, a));
            lemma_count_where_bound(arms0, stability_ahead(rows0, a));
            lemma_count_where_bound(arms0, infeasibility_ahead(rows0, a));
        }
        ranks.push(y + s + f);
        j = j + 1;
    }
    // Written into the rows.
    let rows_len = rows.len();
    assert(rows0.len() == rows_len);
    let mut j: usize = 0;
    while j < arms.len()
        invariant
            rows0.len() == rows_len,
            arms@ == arms0,
            arms_in_rows(arms0, rows0),
            j <= arms0.len(),
            ranks@.len() == arms0.len(),
            forall|k: int| 0 <= k < arms0.len() ==> #[trigger] ranks@[k] == race_rank(rows0, arms0, arms0[k]),
            rows@.len() == rows0.len(),
            forall|i: int| 0 <= i < rows0.len() ==> #[trigger] rows@[i] == if arms0.take(j as int).contains(i as usize) {
                with_rank(rows0[i], race_rank(rows0, arms0, i as usize))
            } else {
                rows0[i]
            },
        decreases arms.len() - j,
    {
        let a = arms[j];
        let r = ranks[j];
        assert(r == race_rank(rows0, arms0, a));
        let ghost prev = rows@;
        rows[a].rank_sum = r;
        assert(rows@ == prev.update(a as int, with_rank(prev[a as int], r as nat)));
        proof {
            assert forall|i: int| 0 <= i < rows0.len() implies #[trigger] rows@[i] == if arms0.take(j as int + 1).contains(i as usize) {
                with_rank(rows0[i], race_rank(rows0, arms0, i as usize))
            } else {
                rows0[i]
            } by {
                let next = arms0.take(j as int + 1);
                assert(next =~= arms0.take(j as int).push(a));
                lemma_push_contains(arms0.take(j as int), a, i as usize);
                if i == a as int {
                    assert(rows@[i] == with_rank(prev[i], r as nat));
                } else {
                    assert(rows@[i] == prev[i]);
                }
            }
        }
        j = j + 1;
    }
    assert(arms0.take(arms0.len() as int) =~= arms0);
    assert(rows@ =~= judged_rows(rows0, arms0));
    // Ordered best-first.
    let ghost order = race_order(rows@);
    let mut input: Vec<usize> = Vec::new();
    let mut out: Vec<usize> = Vec::new();
    std::mem::swap(&mut input, arms);
    let mut k: usize = 0;
    assert(arms0.skip(0) =~= arms0);
    assert(arms0.take(0) =~= Seq::<usize>::empty());
    while input.len() > 0
        invariant
            k <= arms0.len(),
            arms0.len() <= usize::MAX,
            input@.len() + k == arms0.len(),
            input@ == arms0.skip(k as int),
            arms_in_rows(arms0, rows@),
            order == race_order(rows@),
            arms_in_rows(out@, rows@),
            out@ == stable_sort(arms0.take(k as int), order),
        decreases input.len(),
    {
        let item = input.remove(0);
        assert(item == arms0[k as int]);
        assert(input@ =~= arms0.skip(k as int + 1));
        let mut pos: usize = 0;
        let mut found = false;
        while pos < out.len() && !found
            invariant
                pos <= out.len(),
                item < rows@.len(),
                arms_in_rows(out@, rows@),
                order == race_order(rows@),
                forall|m: int| 0 <= m < pos ==> !order(item, #[trigger] out@[m]),
                found ==> pos < out.len() && order(item, out@[pos as int]),
            decreases out.len() - pos + if found { 0int } else { 1int },
        {
            assert(out@[pos as int] < rows@.len());
            if race_before(rows, item, out[pos]) {
                found = true;
            } else {
                pos = pos + 1;
            }
        }
        proof {
            lemma_insert_by_at(out@, item, order, pos as int);
            lemma_stable_sort_step(arms0, k as int, order);
        }
        out.insert(pos, item);
        proof {
            assert forall|m: int| 0 <= m < out@.len() implies #[trigger] out@[m] < rows@.len() by {
                if m < pos {
                } else if m > pos {
                }
            }
        }
        k = k + 1;
    }
    assert(arms0.take(arms0.len() as int) =~= arms0);
    *arms = out;
}

/// The judged order is a strict order: arms come out sorted by rank sum, and
/// among equal rank sums by index.
pub proof fn lemma_judged_arms_are_best_first(arms: Seq<usize>, rows: Seq<BasinRaceArm>)
    ensures
        sorted_by(stable_sort(arms, race_order(rows)), race_order(rows)),
        forall|i: int, j: int| 0 <= i < j < stable_sort(arms, race_order(rows)).len() ==> {
            let x = #[trigger] stable_sort(arms, race_order(rows))[i];
            let y = #[trigger] stable_sort(arms, race_order(rows))[j];
            rows[x as int].rank_sum < rows[y as int].rank_sum
                || (rows[x as int].rank_sum == rows[y as int].rank_sum && x <= y)
        },
{
    let order = race_order(rows);
    assert(strict_order(order));
    lemma_stable_sort_sorted(arms, order);
    let sorted = stable_sort(arms, order);
    assert forall|i: int, j: int| 0 <= i < j < sorted.len() implies {
        let x = #[trigger] sorted[i];
        let y = #[trigger] sorted[j];
        rows[x as int].rank_sum < rows[y as int].rank_sum
            || (rows[x as int].rank_sum == rows[y as int].rank_sum && x <= y)
    } by {
        assert(!order(sorted[j], sorted[i]));
    }
}

/// An arm no live arm is ahead of on any criterion ranks zero.
pub proof fn lemma_unbeaten_arm_ranks_zero(rows: Seq<BasinRaceArm>, arms: Seq<usize>, a: usize)
    requires
        forall|i: int| 0 <= i < arms.len() ==> {
            &&& !yield_ahead(rows, a)(#[trigger] arms[i])
            &&& !stability_ahead(rows, a)(arms[i])
            &&& !infeasibility_ahead(rows, a)(arms[i])
        },
    ensures
        race_rank(rows, arms, a) == 0,
{
    lemma_count_where_none(arms, yield_ahead(rows, a));
    lemma_count_where_none(arms, stability_ahead(rows, a));
    lemma_count_where_none(arms, infeasibility_ahead(rows, a));
}

/// On every criterion an arm's rank counts the live arms better than it,
/// ties going to the lower index: of two live arms, one that yielded more,
/// or as much with a lower index, has the smaller yield rank; one that is
/// more stable, or as stable with a lower index, the smaller stability
/// rank; one that is less infeasible, or as infeasible with a lower index,
/// the smaller infeasibility rank. So the incumbent control, arm zero, keeps
/// every tie.
pub proof fn lemma_better_arms_rank_lower(rows: Seq<BasinRaceArm>, arms: Seq<usize>, a: usize, b: usize)
    requires
        arms.contains(a),
        arms.contains(b),
        a != b,
    ensures
        total_key(rows[a as int].yield_bits) > total_key(rows[b as int].yield_bits)
            || (total_key(rows[a as int].yield_bits) == total_key(rows[b as int].yield_bits) && a < b)
            ==> count_where(arms, yield_ahead(rows, a)) < count_where(arms, yield_ahead(rows, b)),
        total_key(rows[a as int].stability_bits) > total_key(rows[b as int].stability_bits)
            || (total_key(rows[a as int].stability_bits) == total_key(rows[b as int].stability_bits) && a < b)
            ==> count_where(arms, stability_ahead(rows, a)) < count_where(arms, stability_ahead(rows, b)),
        total_key(rows[a as int].infeasibility_bits) < total_key(rows[b as int].infeasibility_bits)
            || (total_key(rows[a as int].infeasibility_bits) == total_key(rows[b as int].infeasibility_bits) && a < b)
            ==> count_where(arms, infeasibility_ahead(rows, a)) < count_where(arms, infeasibility_ahead(rows, b)),
{
    let k = choose|k: int| 0 <= k < arms.len() && arms[k] == a;
    let ya = total_key(rows[a as int].yield_bits);
    let yb = total_key(rows[b as int].yield_bits);
    if ya > yb || (ya == yb && a < b) {
        assert(yield_ahead(rows, b)(arms[k]) && !yield_ahead(rows, a)(arms[k]));
        lemma_count_where_grows(arms, yield_ahead(rows, a), yield_ahead(rows, b));
    }
    let sa = total_key(rows[a as int].stability_bits);
    let sb = total_key(rows[b as int].stability_bits);
    if sa > sb || (sa == sb && a < b) {
        assert(stability_ahead(rows, b)(arms[k]) && !stability_ahead(rows, a)(arms[k]));
        lemma_count_where_grows(arms, stability_ahead(rows, a), stability_ahead(rows, b));
    }
    let fa = total_key(rows[a as int].infeasibility_bits);
    let fb = total_key(rows[b as int].infeasibility_bits);
    if fa < fb || (fa == fb && a < b) {
        assert(infeasibility_ahead(rows, b)(arms[k]) && !infeasibility_ahead(rows, a)(arms[k]));
        lemma_count_where_grows(arms, infeasibility_ahead(rows, a), infeasibility_ahead(rows, b));
    }
}

/// How many arms survive a round that started with `live`: the top half,
/// rounded up, and never fewer than `target`.
pub open spec fn halved(live: nat, target: nat) -> nat {
    let half = (live + 1) / 2;
    if half >= target { half } else { target }
}

/// The survivors of a round that started with `live` arms.
pub fn race_survivors(live: usize, target: usize) -> (res: usize)
    ensures
        res == halved(live as nat, target as nat),
{
    let half = live / 2 + live % 2;
    if half >= target { half } else { target }
}

/// The audition length after a round of `rungs`: doubled, and capped at one
/// scheduled compression slice.
pub open spec fn next_rungs(rungs: nat) -> nat {
    if 2 * rungs <= SCHEDULE_RUNGS { 2 * rungs } else { SCHEDULE_RUNGS as nat }
}

/// The next round's audition length.
pub fn next_race_rungs(rungs: usize) -> (res: usize)
    ensures
        res == next_rungs(rungs as nat),
        res <= SCHEDULE_RUNGS,
{
    if rungs <= SCHEDULE_RUNGS / 2 { 2 * rungs } else { SCHEDULE_RUNGS }
}

/// While more arms are live than the target (at least one), a round strictly
/// shrinks the field and never below the target, so the race ends with
/// exactly `target` arms.
pub proof fn lemma_halving_shrinks_to_the_target(live: nat, target: nat)
    requires
        1 <= target < live,
    ensures
        target <= halved(live, target) < live,
{
}

/// `arm` marked as eliminated in `round`.
pub open spec fn with_elimination(arm: BasinRaceArm, round: usize) -> BasinRaceArm {
    BasinRaceArm { eliminated_round: Some(round), ..arm }
}

/// Closes a round: judges the live arms, keeps the best `halved` of them in
/// order, and marks every other live arm as eliminated in `round`.
pub fn close_race_round(live: &mut Vec<usize>, rows: &mut Vec<BasinRaceArm>, target: usize, round: usize)
    requires
        arms_in_rows(old(live)@, old(rows)@),
        3 * old(live)@.len() <= usize::MAX,
        target < old(live)@.len(),
    ensures
        ({
            let judged = judged_rows(old(rows)@, old(live)@);
            let order = stable_sort(old(live)@, race_order(judged));
            let keep = halved(old(live)@.len(), target as nat) as int;
            &&& final(live)@ == order.take(keep)
            &&& final(rows)@.len() == judged.len()
            &&& forall|i: int| 0 <= i < judged.len() ==> #[trigger] final(rows)@[i] == if order.skip(keep).contains(i as usize) {
                with_elimination(judged[i], round)
            } else {
                judged[i]
            }
        }),
{
    let ghost live0 = live@;
    let ghost rows0 = rows@;
    judge_basin_race(live, rows);
    let ghost judged = rows@;
    let ghost order = live@;
    proof {
        crate::order::lemma_stable_sort_len(live0, race_order(judged));
    }
    let keep = race_survivors(live.len(), target);
    assert(keep <= live@.len());
    let rows_len = rows.len();
    let losers = live.split_off(keep);
    assert(losers@ =~= order.skip(keep as int));
    assert(live@ =~= order.take(keep as int));
    let mut j: usize = 0;
    while j < losers.len()
        invariant
            j <= losers@.len(),
            losers@ == order.skip(keep as int),
            arms_in_rows(order, judged),
            judged.len() == rows_len,
            keep <= order.len(),
            rows@.len() == judged.len(),
            forall|i: int| 0 <= i < judged.len() ==> #[trigger] rows@[i] == if losers@.take(j as int).contains(i as usize) {
                with_elimination(judged[i], round)
            } else {
                judged[i]
            },
        decreases losers.len() - j,
    {
        let index = losers[j];
        assert(losers@[j as int] == order[keep + j]);
        let ghost prev = rows@;
        rows[index].eliminated_round = Some(round);
        assert(rows@ == prev.update(index as int, with_elimination(prev[index as int], round)));
        proof {
            assert forall|i: int| 0 <= i < judged.len() implies #[trigger] rows@[i] == if losers@.take(j as int + 1).contains(i as usize) {
                with_elimination(judged[i], round)
            } else {
                judged[i]
            } by {
                let next = losers@.take(j as int + 1);
                assert(next =~= losers@.take(j as int).push(index));
                lemma_push_contains(losers@.take(j as int), index, i as usize);
                if i == index as int {
                    assert(rows@[i] == with_elimination(prev[i], round));
                } else {
                    assert(rows@[i] == prev[i]);
                }
            }
        }
        j = j + 1;
    }
    assert(losers@.take(losers@.len() as int) =~= losers@);
}

/// The fingerprints an eliminated arm leaves to be retired, in row order:
/// every layout it archived, unless it is the incumbent control.
pub open spec fn race_retirements(rows: Seq<BasinRaceArm>) -> Seq<Seq<char>>
    decreases rows.len(),
{
    if rows.len() == 0 {
        Seq::empty()
    } else {
        let last = rows.last();
        race_retirements(rows.drop_last()) + if last.eliminated_round is Some && last.slot != 0 {
            last.archived@.map_values(|fingerprint: String| fingerprint@)
        } else {
            Seq::empty()
        }
    }
}

/// Every fingerprint the race's losers put into the archive, in row order.
/// The incumbent control's are never among them.
pub fn eliminated_fingerprints(rows: &Vec<BasinRaceArm>) -> (res: Vec<String>)
    ensures
        res@.map_values(|fingerprint: String| fingerprint@) == race_retirements(rows@),
{
    let mut out: Vec<String> = Vec::new();
    let mut i: usize = 0;
    while i < rows.len()
        invariant
            i <= rows@.len(),
            out@.map_values(|fingerprint: String| fingerprint@) == race_retirements(rows@.take(i as int)),
        decreases rows.len() - i,
    {
        let row = &rows[i];
        assert(rows@.take(i as int + 1).drop_last() =~= rows@.take(i as int));
        assert(rows@.take(i as int + 1).last() == rows@[i as int]);
        if row.eliminated_round.is_some() && row.slot != 0 {
            let ghost before = out@;
            let mut k: usize = 0;
            while k < row.archived.len()
                invariant
                    k <= row.archived@.len(),
                    out@ == before + row.archived@.take(k as int),
                decreases row.archived.len() - k,
            {
                out.push(row.archived[k].clone());
                assert(row.archived@.take(k as int + 1) =~= row.archived@.take(k as int).push(row.archived@[k as int]));
                k = k + 1;
            }
            assert(row.archived@.take(row.archived@.len() as int) =~= row.archived@);
            assert(out@.map_values(|fingerprint: String| fingerprint@) =~= before.map_values(|fingerprint: String| fingerprint@)
                + row.archived@.map_values(|fingerprint: String| fingerprint@));
        } else {
            assert(race_retirements(rows@.take(i as int + 1)) =~= race_retirements(rows@.take(i as int)));
        }
        i = i + 1;
    }
    assert(rows@.take(rows@.len() as int) =~= rows@);
    out
}

/// The bits of `1.0`: the stability of an arm that has not been auditioned.
pub const UNMEASURED_STABILITY_BITS: u64 = 0x3ff0_0000_0000_0000;

/// The bits of `+inf`: the infeasibility of an arm that has not been
/// auditioned.
pub const UNMEASURED_INFEASIBILITY_BITS: u64 = 0x7ff0_0000_0000_0000;

/// How many arms race, how many survive, and how long the first audition
/// is: the arms clamped into `[2, 4]`, the survivors into `[1, arms - 1]`,
/// and at least one rung.
pub open spec fn race_shape_of(arms: usize, keep: usize, rungs: usize) -> (usize, usize, usize) {
    let arm_count: usize = if arms < 2 { 2 } else if arms > 4 { 4 } else { arms };
    let target: usize = if keep < 1 { 1 } else if keep > arm_count - 1 { (arm_count - 1) as usize } else { keep };
    (arm_count, target, if rungs < 1 { 1 } else { rungs })
}

/// The race's shape from its settings.
pub fn race_shape(arms: usize, keep: usize, rungs: usize) -> (res: (usize, usize, usize))
    ensures
        res == race_shape_of(arms, keep, rungs),
        2 <= res.0 <= 4,
        1 <= res.1 < res.0,
        res.2 >= 1,
{
    let arm_count = if arms < 2 { 2 } else if arms > 4 { 4 } else { arms };
    let target = if keep < 1 { 1 } else if keep > arm_count - 1 { arm_count - 1 } else { keep };
    (arm_count, target, if rungs < 1 { 1 } else { rungs })
}

/// The incumbent control arm: slot 0, carrying the published layout, with
/// nothing measured yet.
pub fn incumbent_arm(fingerprint: String, placements: Vec<Placement>, depth_bits: u64) -> (res: BasinRaceArm)
    ensures
        res.slot == 0,
        res.kind@ == "incumbent"@,
        res.fingerprint@ == fingerprint@,
        res.placements@ == placements@,
        res.depth_bits == depth_bits,
        res.archived@.len() == 1,
        res.archived@[0]@ == fingerprint@,
        res.yield_bits == 0,
        res.stability_bits == UNMEASURED_STABILITY_BITS,
        res.infeasibility_bits == UNMEASURED_INFEASIBILITY_BITS,
        res.batch_steps == 0,
        res.batch_confirmations == 0,
        res.rank_sum == 0,
        res.eliminated_round is None,
{
    let mut archived: Vec<String> = Vec::new();
    archived.push(fingerprint.clone());
    BasinRaceArm {
        slot: 0,
        kind: String::from_str("incumbent"),
        placements,
        fingerprint,
        depth_bits,
        archived,
        yield_bits: 0,
        stability_bits: UNMEASURED_STABILITY_BITS,
        infeasibility_bits: UNMEASURED_INFEASIBILITY_BITS,
        batch_steps: 0,
        batch_confirmations: 0,
        rank_sum: 0,
        eliminated_round: None,
    }
}

/// The archive basins that join the race, in frontier order: each one that
/// is not the incumbent's layout, while the field has room.
pub open spec fn joining(field: nat, candidates: Seq<BasinView>, incumbent: Seq<char>, arm_count: nat) -> Seq<BasinView>
    decreases candidates.len(),
{
    if candidates.len() == 0 {
        Seq::empty()
    } else {
        let chosen = joining(field, candidates.drop_last(), incumbent, arm_count);
        let next = candidates.last();
        if field + chosen.len() < arm_count && next.fingerprint != incumbent {
            chosen.push(next)
        } else {
            chosen
        }
    }
}

/// Whether `arm` is the race arm built from archive basin `basin` at `slot`.
pub open spec fn archive_arm(arm: BasinRaceArm, basin: BasinView, slot: int) -> bool {
    &&& arm.slot == slot
    &&& arm.kind@ == "archive-basin"@
    &&& arm.fingerprint@ == basin.fingerprint
    &&& arm.placements@ == basin.placements
    &&& arm.depth_bits == basin.raw_depth_bits
    &&& arm.archived@.len() == 1
    &&& arm.archived@[0]@ == basin.fingerprint
    &&& arm.yield_bits == 0
    &&& arm.stability_bits == UNMEASURED_STABILITY_BITS
    &&& arm.infeasibility_bits == UNMEASURED_INFEASIBILITY_BITS
    &&& arm.batch_steps == 0
    &&& arm.batch_confirmations == 0
    &&& arm.rank_sum == 0
    &&& arm.eliminated_round is None
}

/// Enters the archive's own basins into the race behind the incumbent
/// control in `rows[0]`: each candidate, in order, that is not the
/// incumbent's layout, until `arm_count` arms are in the field. Each joins
/// `live` under its row.
pub fn enter_archive_arms(
    rows: &mut Vec<BasinRaceArm>,
    live: &mut Vec<usize>,
    candidates: Vec<ArchivedBasin>,
    arm_count: usize,
)
    requires
        old(rows)@.len() >= 1,
    ensures
        ({
            let chosen = joining(old(rows)@.len() as nat, views(candidates@), old(rows)@[0].fingerprint@, arm_count as nat);
            let field = old(rows)@.len();
            &&& final(rows)@.len() == field + chosen.len()
            &&& final(rows)@.take(field as int) == old(rows)@
            &&& forall|k: int| 0 <= k < chosen.len() ==> archive_arm(#[trigger] final(rows)@[field + k], chosen[k], field + k)
            &&& final(live)@.len() == old(live)@.len() + chosen.len()
            &&& final(live)@.take(old(live)@.len() as int) == old(live)@
            &&& forall|k: int| 0 <= k < chosen.len() ==> #[trigger] final(live)@[old(live)@.len() + k] == field + k
        }),
{
    let ghost rows0 = rows@;
    let ghost live0 = live@;
    let ghost incumbent = rows@[0].fingerprint@;
    let ghost basins = views(candidates@);
    let field = rows.len();
    let incumbent_fingerprint = rows[0].fingerprint.clone();
    let mut input = candidates;
    let ghost original = input@;
    assert(original.len() == input.len());
    let mut k: usize = 0;
    assert(original.skip(0) =~= original);
    assert(basins.take(0) =~= Seq::<BasinView>::empty());
    while input.len() > 0
        invariant
            k <= original.len(),
            original.len() <= usize::MAX,
            input@.len() + k == original.len(),
            input@ == original.skip(k as int),
            basins == views(original),
            incumbent_fingerprint@ == incumbent,
            field == rows0.len(),
            field >= 1,
            ({
                let chosen = joining(field as nat, basins.take(k as int), incumbent, arm_count as nat);
                &&& rows@.len() == field + chosen.len()
                &&& rows@.take(field as int) == rows0
                &&& forall|j: int| 0 <= j < chosen.len() ==> archive_arm(#[trigger] rows@[field + j], chosen[j], field + j)
                &&& live@.len() == live0.len() + chosen.len()
                &&& live@.take(live0.len() as int) == live0
                &&& forall|j: int| 0 <= j < chosen.len() ==> #[trigger] live@[live0.len() + j] == field + j
            }),
        decreases input.len(),
    {
        let basin = input.remove(0);
        assert(basin == original[k as int]);
        assert(input@ =~= original.skip(k as int + 1));
        let ghost before = joining(field as nat, basins.take(k as int), incumbent, arm_count as nat);
        proof {
            assert(basins.take(k as int + 1).drop_last() =~= basins.take(k as int));
            assert(basins.take(k as int + 1).last() == basin@);
            lemma_joining_len(field as nat, basins.take(k as int), incumbent, arm_count as nat);
        }
        let slot = rows.len();
        if slot < arm_count && !crate::text::str_equal(basin.fingerprint.as_str(), incumbent_fingerprint.as_str()) {
            let mut archived: Vec<String> = Vec::new();
            archived.push(basin.fingerprint.clone());
            let arm = BasinRaceArm {
                slot,
                kind: String::from_str("archive-basin"),
                placements: basin.placements,
                fingerprint: basin.fingerprint,
                depth_bits: basin.raw_depth_bits,
                archived,
                yield_bits: 0,
                stability_bits: UNMEASURED_STABILITY_BITS,
                infeasibility_bits: UNMEASURED_INFEASIBILITY_BITS,
                batch_steps: 0,
                batch_confirmations: 0,
                rank_sum: 0,
                eliminated_round: None,
            };
            proof {
                reveal_strlit("archive-basin");
            }
            let ghost rows_before = rows@;
            let ghost live_before = live@;
            rows.push(arm);
            live.push(slot);
            proof {
                let after = joining(field as nat, basins.take(k as int + 1), incumbent, arm_count as nat);
                assert(after == before.push(basin@));
                assert(rows@.take(field as int) =~= rows_before.take(field as int));
                assert(live@.take(live0.len() as int) =~= live_before.take(live0.len() as int));
                assert forall|j: int| 0 <= j < after.len() implies archive_arm(#[trigger] rows@[field + j], after[j], field + j) by {
                    if j < before.len() {
                        assert(rows@[field + j] == rows_before[field + j]);
                    }
                }
                assert forall|j: int| 0 <= j < after.len() implies #[trigger] live@[live0.len() + j] == field + j by {
                    if j < before.len() {
                        assert(live@[live0.len() + j] == live_before[live0.len() + j]);
                    }
                }
            }
        } else {
            proof {
                let after = joining(field as nat, basins.take(k as int + 1), incumbent, arm_count as nat);
                assert(after == before);
            }
        }
        k = k + 1;
    }
    assert(original.take(original.len() as int) =~= original);
    assert(basins.take(original.len() as int) =~= basins);
}

proof fn lemma_joining_len(field: nat, candidates: Seq<BasinView>, incumbent: Seq<char>, arm_count: nat)
    ensures
        joining(field, candidates, incumbent, arm_count).len() <= candidates.len(),
    decreases candidates.len(),
{
    if candidates.len() > 0 {
        lemma_joining_len(field, candidates.drop_last(), incumbent, arm_count);
    }
}

/// One arm's row of the race's report.
#[derive(Debug)]
pub struct BasinRaceArmReport {
    pub slot: usize,
    pub kind: String,
    pub fingerprint: String,
    pub depth_bits: u64,
    pub yield_bits: u64,
    pub stability_bits: u64,
    pub infeasibility_bits: u64,
    pub batch_steps: usize,
    pub batch_confirmations: usize,
    pub rank_sum: usize,
    pub eliminated_round: Option<usize>,
    /// Whether any layout the arm archived was retired.
    pub retired_from_archive: bool,
}

/// What the race did.
#[derive(Debug)]
pub struct BasinRaceReport {
    pub armed: bool,
    pub arms_started: usize,
    pub rounds: usize,
    pub kept: usize,
    pub retired: usize,
    /// The winning slot; `Some(0)` is the incumbent control.
    pub winner_slot: Option<usize>,
    pub winner_fingerprint: Option<String>,
    pub winner_depth_bits: Option<u64>,
    pub incumbent_arm_depth_bits: Option<u64>,
    pub work_units: u64,
    /// Seconds the race took, as the bits of its `f64`.
    pub seconds_bits: u64,
    pub exit_cause: String,
    pub arms: Vec<BasinRaceArmReport>,
}

impl BasinRaceReport {
    /// The report of a race that was not armed: nothing started, nothing
    /// spent, completed.
    pub fn unarmed() -> (res: BasinRaceReport)
        ensures
            !res.armed,
            res.arms_started == 0,
            res.rounds == 0,
            res.kept == 0,
            res.retired == 0,
            res.winner_slot is None,
            res.winner_fingerprint is None,
            res.winner_depth_bits is None,
            res.incumbent_arm_depth_bits is None,
            res.work_units == 0,
            res.seconds_bits == 0,
            res.exit_cause@ == PhaseExitCause::Completed.reported_name(),
            res.arms@.len() == 0,
    {
        BasinRaceReport {
            armed: false,
            arms_started: 0,
            rounds: 0,
            kept: 0,
            retired: 0,
            winner_slot: None,
            winner_fingerprint: None,
            winner_depth_bits: None,
            incumbent_arm_depth_bits: None,
            work_units: 0,
            seconds_bits: 0,
            exit_cause: String::from_str(PhaseExitCause::Completed.name()),
            arms: Vec::new(),
        }
    }
}

/// Whether any of `archived` is among `retired`.
pub open spec fn any_retired(archived: Seq<String>, retired: Seq<String>) -> bool {
    exists|i: int, j: int| 0 <= i < archived.len() && 0 <= j < retired.len() && (#[trigger] archived[i])@ == (#[trigger] retired[j])@
}

/// Whether `report` is `arm`'s row, retired as `retired` says.
pub open spec fn reports_arm(report: BasinRaceArmReport, arm: BasinRaceArm, retired: Seq<String>) -> bool {
    &&& report.slot == arm.slot
    &&& report.kind@ == arm.kind@
    &&& report.fingerprint@ == arm.fingerprint@
    &&& report.depth_bits == arm.depth_bits
    &&& report.yield_bits == arm.yield_bits
    &&& report.stability_bits == arm.stability_bits
    &&& report.infeasibility_bits == arm.infeasibility_bits
    &&& report.batch_steps == arm.batch_steps
    &&& report.batch_confirmations == arm.batch_confirmations
    &&& report.rank_sum == arm.rank_sum
    &&& report.eliminated_round == arm.eliminated_round
    &&& report.retired_from_archive == any_retired(arm.archived@, retired)
}

fn any_retired_exec(archived: &Vec<String>, retired: &Vec<String>) -> (res: bool)
    ensures
        res == any_retired(archived@, retired@),
{
    let mut i: usize = 0;
    while i < archived.len()
        invariant
            i <= archived@.len(),
            forall|a: int, b: int| 0 <= a < i && 0 <= b < retired@.len() ==> (#[trigger] archived@[a])@ != (#[trigger] retired@[b])@,
        decreases archived.len() - i,
    {
        let mut j: usize = 0;
        while j < retired.len()
            invariant
                i < archived@.len(),
                j <= retired@.len(),
                forall|a: int, b: int| 0 <= a < i && 0 <= b < retired@.len() ==> (#[trigger] archived@[a])@ != (#[trigger] retired@[b])@,
                forall|b: int| 0 <= b < j ==> archived@[i as int]@ != (#[trigger] retired@[b])@,
            decreases retired.len() - j,
        {
            if crate::text::str_equal(archived[i].as_str(), retired[j].as_str()) {
                return true;
            }
            j = j + 1;
        }
        i = i + 1;
    }
    false
}

fn arm_report(arm: &BasinRaceArm, retired: &Vec<String>) -> (res: BasinRaceArmReport)
    ensures
        reports_arm(res, *arm, retired@),
{
    BasinRaceArmReport {
        slot: arm.slot,
        kind: arm.kind.clone(),
        fingerprint: arm.fingerprint.clone(),
        depth_bits: arm.depth_bits,
        yield_bits: arm.yield_bits,
        stability_bits: arm.stability_bits,
        infeasibility_bits: arm.infeasibility_bits,
        batch_steps: arm.batch_steps,
        batch_confirmations: arm.batch_confirmations,
        rank_sum: arm.rank_sum,
        eliminated_round: arm.eliminated_round,
        retired_from_archive: any_retired_exec(&arm.archived, retired),
    }
}

/// The report of an armed race: every arm that started, the survivors, the
/// winner (the first survivor), the incumbent control's depth, and each
/// arm's row with whether its layouts were retired.
pub fn race_report(
    rows: &Vec<BasinRaceArm>,
    live: &Vec<usize>,
    rounds: usize,
    retired: &Vec<String>,
    work_units: u64,
    seconds_bits: u64,
    exit_cause: String,
) -> (res: BasinRaceReport)
    requires
        arms_in_rows(live@, rows@),
    ensures
        res.armed,
        res.arms_started == rows@.len(),
        res.rounds == rounds,
        res.kept == live@.len(),
        res.retired == retired@.len(),
        res.winner_slot == if live@.len() > 0 { Some(rows@[live@[0] as int].slot) } else { None },
        res.winner_fingerprint.is_some() == (live@.len() > 0),
        live@.len() > 0 ==> res.winner_fingerprint.unwrap()@ == rows@[live@[0] as int].fingerprint@,
        res.winner_depth_bits == if live@.len() > 0 { Some(rows@[live@[0] as int].depth_bits) } else { None },
        res.incumbent_arm_depth_bits == if rows@.len() > 0 { Some(rows@[0].depth_bits) } else { None },
        res.work_units == work_units,
        res.seconds_bits == seconds_bits,
        res.exit_cause@ == exit_cause@,
        res.arms@.len() == rows@.len(),
        forall|i: int| 0 <= i < rows@.len() ==> reports_arm(#[trigger] res.arms@[i], rows@[i], retired@),
{
    let mut arms: Vec<BasinRaceArmReport> = Vec::new();
    let mut i: usize = 0;
    while i < rows.len()
        invariant
            i <= rows@.len(),
            arms@.len() == i,
            forall|k: int| 0 <= k < i ==> reports_arm(#[trigger] arms@[k], rows@[k], retired@),
        decreases rows.len() - i,
    {
        arms.push(arm_report(&rows[i], retired));
        i = i + 1;
    }
    let (winner_slot, winner_fingerprint, winner_depth_bits) = if live.len() > 0 {
        let winner = &rows[live[0]];
        (Some(winner.slot), Some(winner.fingerprint.clone()), Some(winner.depth_bits))
    } else {
        (None, None, None)
    };
    let incumbent_arm_depth_bits = if rows.len() > 0 { Some(rows[0].depth_bits) } else { None };
    BasinRaceReport {
        armed: true,
        arms_started: rows.len(),
        rounds,
        kept: live.len(),
        retired: retired.len(),
        winner_slot,
        winner_fingerprint,
        winner_depth_bits,
        incumbent_arm_depth_bits,
        work_units,
        seconds_bits,
        exit_cause,
        arms,
    }
}

} // verus!
