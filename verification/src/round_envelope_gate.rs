//! The round-envelope kernel's census, as an instrument: the rows it reports
//! for every pair and every boundary of one pose set, the order it reports
//! them in, and the scoped arming of the kernel.
//!
//! Critical clearances are carried in micrometres, the integers the kernel
//! measures them in; a report in millimetres is that integer over a thousand.
use vstd::prelude::*;
use crate::order::{count_where, insert_by, lemma_count_where_bound, lemma_insert_by_at, lemma_stable_sort_len, lemma_stable_sort_sorted, lemma_stable_sort_step, sorted_by, stable_sort, strict_order};
use crate::text::str_equal;

verus! {

/// Which envelope authority confirms a layout.
#[derive(Clone, Copy, Debug, PartialEq, Eq, Structural)]
pub enum KernelMode {
    /// The miter offset alone.
    Off,
    /// The round kernel alone.
    Exclusive,
    /// Whichever of the two admits the layout.
    Union,
}

/// Arms the kernel for a scope and puts back what it found.
#[derive(Debug)]
pub struct ArmedKernel {
    previous: KernelMode,
}

impl ArmedKernel {
    /// The mode as the arming found it.
    pub closed spec fn previous_mode(&self) -> KernelMode {
        self.previous
    }

    /// Sets the kernel mode to `mode` and remembers what it was.
    pub fn install(current: &mut KernelMode, mode: KernelMode) -> (res: ArmedKernel)
        ensures
            *final(current) == mode,
            res.previous_mode() == *old(current),
    {
        let previous = *current;
        *current = mode;
        ArmedKernel { previous }
    }

    /// Puts the kernel mode back as the arming found it.
    pub fn restore(self, current: &mut KernelMode)
        ensures
            *final(current) == self.previous_mode(),
    {
        *current = self.previous;
    }
}

/// One pair of placements under one envelope.
#[derive(Debug)]
pub struct PairRow {
    pub first_index: usize,
    pub second_index: usize,
    pub first_piece_id: String,
    pub second_piece_id: String,
    /// Whether this envelope admits the pair.
    pub admissible: bool,
    /// The largest doubled radius, in micrometres of clearance, at which the
    /// pair is still admissible; `None` when the material overlaps at any.
    pub critical_two_r_micron: Option<i64>,
    /// Whether the bisection saturated its ceiling.
    pub critical_saturated: bool,
    /// Whether the piece-level integer box alone decided it.
    pub certified_by_box: bool,
    /// Segment pairs that reached the exact narrow predicate.
    pub narrow_segment_pairs: u64,
}

/// One placement against the inset sheet under one envelope.
#[derive(Debug)]
pub struct BoundaryRow {
    pub index: usize,
    pub piece_id: String,
    pub admissible: bool,
    /// The largest radius, in micrometres, at which the placement still fits
    /// the inset rectangle; `None` when the material is already outside it.
    pub critical_radius_micron: Option<i64>,
}

/// The whole census for one pose set under one envelope.
#[derive(Debug)]
pub struct Census {
    pub label: String,
    pub envelope: String,
    /// The expansion in millimetres, as the bits of its `f64`.
    pub expansion_mm_bits: u64,
    /// The expansion on the canonical grid, in micrometres.
    pub radius_micron: i64,
    /// The sheet inset in millimetres, as the bits of its `f64`.
    pub sheet_inset_mm_bits: u64,
    /// `[low x, low y, high x, high y]` of the inset rectangle, in micrometres.
    pub inset_box_micron: [i64; 4],
    pub certified: bool,
    pub admissible: bool,
    pub pair_count: usize,
    pub pair_failure_count: usize,
    pub boundary_failure_count: usize,
    pub pairs: Vec<PairRow>,
    pub boundaries: Vec<BoundaryRow>,
    pub box_certified_pairs: usize,
    pub narrow_segment_pairs: u64,
    pub envelope_vertex_total: usize,
}

/// Whether critical value `a` sorts strictly before `b`: an absent value
/// first, then ascending.
pub open spec fn critical_before(a: Option<i64>, b: Option<i64>) -> bool {
    match (a, b) {
        (None, Some(_)) => true,
        (Some(x), Some(y)) => x < y,
        _ => false,
    }
}

/// The census's pair order: failing rows first, then tightest critical
/// clearance first, then by the two placement indices.
pub open spec fn pair_before(a: PairRow, b: PairRow) -> bool {
    ||| !a.admissible && b.admissible
    ||| a.admissible == b.admissible && critical_before(a.critical_two_r_micron, b.critical_two_r_micron)
    ||| a.admissible == b.admissible && a.critical_two_r_micron == b.critical_two_r_micron
        && a.first_index < b.first_index
    ||| a.admissible == b.admissible && a.critical_two_r_micron == b.critical_two_r_micron
        && a.first_index == b.first_index && a.second_index < b.second_index
}

/// The census's boundary order: failing rows first, then tightest critical
/// radius first, then by placement index.
pub open spec fn boundary_before(a: BoundaryRow, b: BoundaryRow) -> bool {
    ||| !a.admissible && b.admissible
    ||| a.admissible == b.admissible && critical_before(a.critical_radius_micron, b.critical_radius_micron)
    ||| a.admissible == b.admissible && a.critical_radius_micron == b.critical_radius_micron
        && a.index < b.index
}

pub open spec fn pair_order() -> spec_fn(PairRow, PairRow) -> bool {
    |a: PairRow, b: PairRow| pair_before(a, b)
}

pub open spec fn boundary_order() -> spec_fn(BoundaryRow, BoundaryRow) -> bool {
    |a: BoundaryRow, b: BoundaryRow| boundary_before(a, b)
}

pub open spec fn pair_fails() -> spec_fn(PairRow) -> bool {
    |row: PairRow| !row.admissible
}

pub open spec fn boundary_fails() -> spec_fn(BoundaryRow) -> bool {
    |row: BoundaryRow| !row.admissible
}

/// How many rows a trimmed list keeps: every failing row, and at least
/// `report_top`, but never more than there are.
pub open spec fn kept_rows(len: nat, failing: nat, report_top: nat) -> int {
    let keep = if failing >= report_top { failing } else { report_top };
    if keep <= len { keep as int } else { len as int }
}

/// Whether exactly the first `failing` rows of `rows` fail.
pub open spec fn failing_first_pairs(rows: Seq<PairRow>, failing: nat) -> bool {
    &&& failing <= rows.len()
    &&& forall|i: int| 0 <= i < rows.len() ==> (i < failing <==> !(#[trigger] rows[i]).admissible)
}

/// Whether exactly the first `failing` rows of `rows` fail.
pub open spec fn failing_first_boundaries(rows: Seq<BoundaryRow>, failing: nat) -> bool {
    &&& failing <= rows.len()
    &&& forall|i: int| 0 <= i < rows.len() ==> (i < failing <==> !(#[trigger] rows[i]).admissible)
}

proof fn lemma_insert_pair_keeps_failing_first(sorted: Seq<PairRow>, item: PairRow, failing: nat)
    requires
        failing_first_pairs(sorted, failing),
    ensures
        failing_first_pairs(insert_by(sorted, item, pair_order()),
            failing + if !item.admissible { 1nat } else { 0nat }),
    decreases sorted.len(),
{
    let result = insert_by(sorted, item, pair_order());
    if sorted.len() == 0 {
        assert(result =~= seq![item]);
    } else if pair_before(item, sorted[0]) {
        assert(result =~= seq![item] + sorted);
        if item.admissible {
            assert(sorted[0].admissible);
        }
        assert forall|i: int| 0 <= i < result.len() implies (i < failing + if !item.admissible { 1nat } else { 0nat } <==> !(#[trigger] result[i]).admissible) by {
            if i > 0 {
                assert(result[i] == sorted[i - 1]);
            }
        }
    } else {
        let rest = sorted.drop_first();
        if sorted[0].admissible {
            assert(failing == 0);
            assert(failing_first_pairs(rest, 0)) by {
                assert forall|i: int| 0 <= i < rest.len() implies (i < 0 <==> !(#[trigger] rest[i]).admissible) by {
                    assert(rest[i] == sorted[i + 1]);
                }
            }
            lemma_insert_pair_keeps_failing_first(rest, item, 0);
        } else {
            assert(failing >= 1);
            assert(failing_first_pairs(rest, (failing - 1) as nat)) by {
                assert forall|i: int| 0 <= i < rest.len() implies (i < failing - 1 <==> !(#[trigger] rest[i]).admissible) by {
                    assert(rest[i] == sorted[i + 1]);
                }
            }
            lemma_insert_pair_keeps_failing_first(rest, item, (failing - 1) as nat);
        }
        let inserted = insert_by(rest, item, pair_order());
        assert(result =~= seq![sorted[0]] + inserted);
        assert forall|i: int| 0 <= i < result.len() implies (i < failing + if !item.admissible { 1nat } else { 0nat } <==> !(#[trigger] result[i]).admissible) by {
            if i > 0 {
                assert(result[i] == inserted[i - 1]);
            }
        }
    }
}

/// Sorting puts every failing pair row before every admissible one, so the
/// first `count_where(rows, fails)` sorted rows are exactly the failing ones
/// and a trimmed list, which keeps at least that many, keeps all of them.
pub proof fn lemma_sorted_pairs_fail_first(rows: Seq<PairRow>)
    ensures
        failing_first_pairs(stable_sort(rows, pair_order()), count_where(rows, pair_fails())),
    decreases rows.len(),
{
    if rows.len() > 0 {
        lemma_sorted_pairs_fail_first(rows.drop_last());
        lemma_insert_pair_keeps_failing_first(
            stable_sort(rows.drop_last(), pair_order()),
            rows.last(),
            count_where(rows.drop_last(), pair_fails()),
        );
    }
}

proof fn lemma_insert_boundary_keeps_failing_first(sorted: Seq<BoundaryRow>, item: BoundaryRow, failing: nat)
    requires
        failing_first_boundaries(sorted, failing),
    ensures
        failing_first_boundaries(insert_by(sorted, item, boundary_order()),
            failing + if !item.admissible { 1nat } else { 0nat }),
    decreases sorted.len(),
{
    let result = insert_by(sorted, item, boundary_order());
    if sorted.len() == 0 {
        assert(result =~= seq![item]);
    } else if boundary_before(item, sorted[0]) {
        assert(result =~= seq![item] + sorted);
        if item.admissible {
            assert(sorted[0].admissible);
        }
        assert forall|i: int| 0 <= i < result.len() implies (i < failing + if !item.admissible { 1nat } else { 0nat } <==> !(#[trigger] result[i]).admissible) by {
            if i > 0 {
                assert(result[i] == sorted[i - 1]);
            }
        }
    } else {
        let rest = sorted.drop_first();
        if sorted[0].admissible {
            assert(failing == 0);
            assert(failing_first_boundaries(rest, 0)) by {
                assert forall|i: int| 0 <= i < rest.len() implies (i < 0 <==> !(#[trigger] rest[i]).admissible) by {
                    assert(rest[i] == sorted[i + 1]);
                }
            }
            lemma_insert_boundary_keeps_failing_first(rest, item, 0);
        } else {
            assert(failing >= 1);
            assert(failing_first_boundaries(rest, (failing - 1) as nat)) by {
                assert forall|i: int| 0 <= i < rest.len() implies (i < failing - 1 <==> !(#[trigger] rest[i]).admissible) by {
                    assert(rest[i] == sorted[i + 1]);
                }
            }
            lemma_insert_boundary_keeps_failing_first(rest, item, (failing - 1) as nat);
        }
        let inserted = insert_by(rest, item, boundary_order());
        assert(result =~= seq![sorted[0]] + inserted);
        assert forall|i: int| 0 <= i < result.len() implies (i < failing + if !item.admissible { 1nat } else { 0nat } <==> !(#[trigger] result[i]).admissible) by {
            if i > 0 {
                assert(result[i] == inserted[i - 1]);
            }
        }
    }
}

/// Sorting puts every failing boundary row before every admissible one.
pub proof fn lemma_sorted_boundaries_fail_first(rows: Seq<BoundaryRow>)
    ensures
        failing_first_boundaries(stable_sort(rows, boundary_order()), count_where(rows, boundary_fails())),
    decreases rows.len(),
{
    if rows.len() > 0 {
        lemma_sorted_boundaries_fail_first(rows.drop_last());
        lemma_insert_boundary_keeps_failing_first(
            stable_sort(rows.drop_last(), boundary_order()),
            rows.last(),
            count_where(rows.drop_last(), boundary_fails()),
        );
    }
}

/// A trimmed pair list keeps every failing row: its first
/// `count_where(rows, fails)` rows are exactly the failing rows, and the rest
/// are admissible.
pub proof fn lemma_trim_keeps_every_failing_pair(rows: Seq<PairRow>, report_top: nat)
    ensures
        failing_first_pairs(
            stable_sort(rows, pair_order()).take(kept_rows(rows.len(), count_where(rows, pair_fails()), report_top)),
            count_where(rows, pair_fails()),
        ),
{
    lemma_sorted_pairs_fail_first(rows);
    lemma_stable_sort_len(rows, pair_order());
}

/// A trimmed boundary list keeps every failing row.
pub proof fn lemma_trim_keeps_every_failing_boundary(rows: Seq<BoundaryRow>, report_top: nat)
    ensures
        failing_first_boundaries(
            stable_sort(rows, boundary_order()).take(kept_rows(rows.len(), count_where(rows, boundary_fails()), report_top)),
            count_where(rows, boundary_fails()),
        ),
{
    lemma_sorted_boundaries_fail_first(rows);
    lemma_stable_sort_len(rows, boundary_order());
}

/// What the census's pair order means for the rows a trim reports: a
/// failing row never comes after an admissible one; among rows that both
/// fail or both pass, one without a critical clearance comes first, and
/// otherwise the tighter clearance comes first; equal clearances keep the
/// placement indices ascending.
pub proof fn lemma_trimmed_pairs_tightest_first(rows: Seq<PairRow>, keep: int)
    requires
        0 <= keep <= rows.len(),
    ensures
        forall|i: int, j: int| 0 <= i < j < keep ==> {
            let first = #[trigger] stable_sort(rows, pair_order()).take(keep)[i];
            let second = #[trigger] stable_sort(rows, pair_order()).take(keep)[j];
            &&& !(first.admissible && !second.admissible)
            &&& first.admissible == second.admissible ==> {
                &&& !(first.critical_two_r_micron is Some && second.critical_two_r_micron is None)
                &&& (first.critical_two_r_micron is Some && second.critical_two_r_micron is Some
                    ==> first.critical_two_r_micron->0 <= second.critical_two_r_micron->0)
                &&& first.critical_two_r_micron == second.critical_two_r_micron
                    ==> (first.first_index, first.second_index) == (second.first_index, second.second_index)
                        || first.first_index < second.first_index
                        || (first.first_index == second.first_index && first.second_index <= second.second_index)
            }
        },
{
    lemma_trimmed_pairs_in_order(rows, keep);
    lemma_stable_sort_len(rows, pair_order());
    let kept = stable_sort(rows, pair_order()).take(keep);
    assert forall|i: int, j: int| 0 <= i < j < keep implies {
        let first = #[trigger] kept[i];
        let second = #[trigger] kept[j];
        &&& !(first.admissible && !second.admissible)
        &&& first.admissible == second.admissible ==> {
            &&& !(first.critical_two_r_micron is Some && second.critical_two_r_micron is None)
            &&& (first.critical_two_r_micron is Some && second.critical_two_r_micron is Some
                ==> first.critical_two_r_micron->0 <= second.critical_two_r_micron->0)
            &&& first.critical_two_r_micron == second.critical_two_r_micron
                ==> (first.first_index, first.second_index) == (second.first_index, second.second_index)
                    || first.first_index < second.first_index
                    || (first.first_index == second.first_index && first.second_index <= second.second_index)
        }
    } by {
        assert(!pair_order()(kept[j], kept[i]));
    }
}

/// What the census's boundary order means for the rows a trim reports: a
/// failing row never comes after an admissible one; among rows that both
/// fail or both pass, one without a critical radius comes first, and
/// otherwise the tighter radius comes first; equal radii keep the placement
/// index ascending.
pub proof fn lemma_trimmed_boundaries_tightest_first(rows: Seq<BoundaryRow>, keep: int)
    requires
        0 <= keep <= rows.len(),
    ensures
        forall|i: int, j: int| 0 <= i < j < keep ==> {
            let first = #[trigger] stable_sort(rows, boundary_order()).take(keep)[i];
            let second = #[trigger] stable_sort(rows, boundary_order()).take(keep)[j];
            &&& !(first.admissible && !second.admissible)
            &&& first.admissible == second.admissible ==> {
                &&& !(first.critical_radius_micron is Some && second.critical_radius_micron is None)
                &&& (first.critical_radius_micron is Some && second.critical_radius_micron is Some
                    ==> first.critical_radius_micron->0 <= second.critical_radius_micron->0)
                &&& first.critical_radius_micron == second.critical_radius_micron ==> first.index <= second.index
            }
        },
{
    lemma_trimmed_boundaries_in_order(rows, keep);
    lemma_stable_sort_len(rows, boundary_order());
    let kept = stable_sort(rows, boundary_order()).take(keep);
    assert forall|i: int, j: int| 0 <= i < j < keep implies {
        let first = #[trigger] kept[i];
        let second = #[trigger] kept[j];
        &&& !(first.admissible && !second.admissible)
        &&& first.admissible == second.admissible ==> {
            &&& !(first.critical_radius_micron is Some && second.critical_radius_micron is None)
            &&& (first.critical_radius_micron is Some && second.critical_radius_micron is Some
                ==> first.critical_radius_micron->0 <= second.critical_radius_micron->0)
            &&& first.critical_radius_micron == second.critical_radius_micron ==> first.index <= second.index
        }
    } by {
        assert(!boundary_order()(kept[j], kept[i]));
    }
}

/// How many rows a trim keeps: every failing row and the `report_top`
/// tightest, so the larger of the two counts, and never more rows than
/// there are. When fewer rows fail than `report_top`, the list is still
/// `report_top` long (or every row, when there are fewer).
pub proof fn lemma_trim_keeps_report_top_pairs(rows: Seq<PairRow>, report_top: nat)
    ensures
        ({
            let failing = count_where(rows, pair_fails());
            let kept = stable_sort(rows, pair_order()).take(kept_rows(rows.len(), failing, report_top));
            &&& kept.len() <= rows.len()
            &&& kept.len() >= failing
            &&& (report_top <= rows.len() ==> kept.len() >= report_top)
            &&& (report_top >= rows.len() ==> kept.len() == rows.len())
            &&& (kept.len() == failing || kept.len() == report_top || kept.len() == rows.len())
        }),
{
    lemma_stable_sort_len(rows, pair_order());
    lemma_count_where_bound(rows, pair_fails());
}

/// How many boundary rows a trim keeps: the larger of the failing count and
/// `report_top`, never more rows than there are.
pub proof fn lemma_trim_keeps_report_top_boundaries(rows: Seq<BoundaryRow>, report_top: nat)
    ensures
        ({
            let failing = count_where(rows, boundary_fails());
            let kept = stable_sort(rows, boundary_order()).take(kept_rows(rows.len(), failing, report_top));
            &&& kept.len() <= rows.len()
            &&& kept.len() >= failing
            &&& (report_top <= rows.len() ==> kept.len() >= report_top)
            &&& (report_top >= rows.len() ==> kept.len() == rows.len())
            &&& (kept.len() == failing || kept.len() == report_top || kept.len() == rows.len())
        }),
{
    lemma_stable_sort_len(rows, boundary_order());
    lemma_count_where_bound(rows, boundary_fails());
}

/// A trimmed pair list is in the census's order: no row sorts before one
/// reported earlier.
pub proof fn lemma_trimmed_pairs_in_order(rows: Seq<PairRow>, keep: int)
    requires
        0 <= keep <= rows.len(),
    ensures
        sorted_by(stable_sort(rows, pair_order()).take(keep), pair_order()),
{
    assert(strict_order(pair_order()));
    lemma_stable_sort_sorted(rows, pair_order());
    lemma_stable_sort_len(rows, pair_order());
    let sorted = stable_sort(rows, pair_order());
    let kept = sorted.take(keep);
    assert forall|i: int, j: int| 0 <= i < j < kept.len()
        implies !pair_order()(#[trigger] kept[j], #[trigger] kept[i]) by {
        assert(kept[i] == sorted[i] && kept[j] == sorted[j]);
    }
}

/// A trimmed boundary list is in the census's order: no row sorts before
/// one reported earlier.
pub proof fn lemma_trimmed_boundaries_in_order(rows: Seq<BoundaryRow>, keep: int)
    requires
        0 <= keep <= rows.len(),
    ensures
        sorted_by(stable_sort(rows, boundary_order()).take(keep), boundary_order()),
{
    assert(strict_order(boundary_order()));
    lemma_stable_sort_sorted(rows, boundary_order());
    lemma_stable_sort_len(rows, boundary_order());
    let sorted = stable_sort(rows, boundary_order());
    let kept = sorted.take(keep);
    assert forall|i: int, j: int| 0 <= i < j < kept.len()
        implies !boundary_order()(#[trigger] kept[j], #[trigger] kept[i]) by {
        assert(kept[i] == sorted[i] && kept[j] == sorted[j]);
    }
}

/// The index of the last id in `ids` equal to `id`, or `-1` when none is:
/// a by-id table built from the ids keeps the last entry for a repeated id.
pub open spec fn last_id_index(ids: Seq<String>, id: Seq<char>) -> int
    decreases ids.len(),
{
    if ids.len() == 0 {
        -1
    } else if ids.last()@ == id {
        ids.len() - 1
    } else {
        last_id_index(ids.drop_last(), id)
    }
}

proof fn lemma_last_id_index_bounds(ids: Seq<String>, id: Seq<char>)
    ensures
        -1 <= last_id_index(ids, id) < ids.len(),
    decreases ids.len(),
{
    if ids.len() > 0 && ids.last()@ != id {
        lemma_last_id_index_bounds(ids.drop_last(), id);
    }
}

fn last_id_position(ids: &[String], id: &String) -> (res: Option<usize>)
    ensures
        match res {
            Some(j) => j as int == last_id_index(ids@, id@),
            None => last_id_index(ids@, id@) == -1,
        },
{
    let mut n = ids.len();
    assert(ids@.take(n as int) =~= ids@);
    while n > 0
        invariant
            n <= ids@.len(),
            last_id_index(ids@, id@) == last_id_index(ids@.take(n as int), id@),
        decreases n,
    {
        assert(ids@.take(n as int).drop_last() =~= ids@.take(n as int - 1));
        if str_equal(ids[n - 1].as_str(), id.as_str()) {
            return Some(n - 1);
        }
        n = n - 1;
    }
    assert(ids@.take(0) =~= Seq::<String>::empty());
    None
}

/// Which piece each placement places, as an index into `piece_ids`: for
/// each placement's piece id, the last piece carrying it. The first
/// placement whose piece id no piece carries is refused as
/// `unknown piece <id>`.
pub fn placement_pieces(piece_ids: &[String], placement_piece_ids: &[String]) -> (res: Result<Vec<usize>, String>)
    ensures
        match res {
            Ok(indices) => {
                &&& indices@.len() == placement_piece_ids@.len()
                &&& forall|k: int| 0 <= k < indices@.len()
                    ==> #[trigger] indices@[k] as int == last_id_index(piece_ids@, placement_piece_ids@[k]@)
                        && indices@[k] >= 0
            },
            Err(message) => exists|k: int| {
                &&& 0 <= k < placement_piece_ids@.len()
                &&& last_id_index(piece_ids@, placement_piece_ids@[k]@) == -1
                &&& forall|q: int| 0 <= q < k ==> last_id_index(piece_ids@, (#[trigger] placement_piece_ids@[q])@) >= 0
                &&& message@ == "unknown piece "@ + placement_piece_ids@[k]@
            },
        },
        res is Err <==> exists|k: int| 0 <= k < placement_piece_ids@.len()
            && last_id_index(piece_ids@, (#[trigger] placement_piece_ids@[k])@) == -1,
{
    let mut indices: Vec<usize> = Vec::new();
    let mut k: usize = 0;
    while k < placement_piece_ids.len()
        invariant
            k <= placement_piece_ids@.len(),
            indices@.len() == k,
            forall|q: int| 0 <= q < k ==> #[trigger] indices@[q] as int == last_id_index(piece_ids@, placement_piece_ids@[q]@)
                && indices@[q] >= 0,
        decreases placement_piece_ids.len() - k,
    {
        match last_id_position(piece_ids, &placement_piece_ids[k]) {
            Some(j) => {
                indices.push(j);
            },
            None => {
                let mut message = String::from_str("unknown piece ");
                message.append(placement_piece_ids[k].as_str());
                proof {
                    reveal_strlit("unknown piece ");
                    assert forall|q: int| 0 <= q < k implies last_id_index(piece_ids@, (#[trigger] placement_piece_ids@[q])@) >= 0 by {
                        assert(indices@[q] as int == last_id_index(piece_ids@, placement_piece_ids@[q]@));
                    }
                }
                return Err(message);
            },
        }
        k = k + 1;
    }
    proof {
        assert forall|q: int| 0 <= q < placement_piece_ids@.len()
            implies last_id_index(piece_ids@, (#[trigger] placement_piece_ids@[q])@) != -1 by {
            assert(indices@[q] as int == last_id_index(piece_ids@, placement_piece_ids@[q]@));
        }
    }
    Ok(indices)
}

fn critical_less(a: Option<i64>, b: Option<i64>) -> (res: bool)
    ensures
        res == critical_before(a, b),
{
    match (a, b) {
        (None, Some(_)) => true,
        (Some(x), Some(y)) => x < y,
        _ => false,
    }
}

fn pair_row_before(a: &PairRow, b: &PairRow) -> (res: bool)
    ensures
        res == pair_before(*a, *b),
{
    if a.admissible != b.admissible {
        return !a.admissible;
    }
    if a.critical_two_r_micron != b.critical_two_r_micron {
        return critical_less(a.critical_two_r_micron, b.critical_two_r_micron);
    }
    if a.first_index != b.first_index {
        return a.first_index < b.first_index;
    }
    a.second_index < b.second_index
}

fn boundary_row_before(a: &BoundaryRow, b: &BoundaryRow) -> (res: bool)
    ensures
        res == boundary_before(*a, *b),
{
    if a.admissible != b.admissible {
        return !a.admissible;
    }
    if a.critical_radius_micron != b.critical_radius_micron {
        return critical_less(a.critical_radius_micron, b.critical_radius_micron);
    }
    a.index < b.index
}

fn sort_pair_rows(rows: Vec<PairRow>) -> (res: Vec<PairRow>)
    ensures
        res@ == stable_sort(rows@, pair_order()),
{
    let ghost original = rows@;
    let mut input = rows;
    let mut out: Vec<PairRow> = Vec::new();
    let mut k: usize = 0;
    assert(original.len() == input.len());
    assert(original.skip(0) =~= original);
    assert(original.take(0) =~= Seq::<PairRow>::empty());
    while input.len() > 0
        invariant
            k <= original.len(),
            original.len() <= usize::MAX,
            input@.len() + k == original.len(),
            input@ == original.skip(k as int),
            out@ == stable_sort(original.take(k as int), pair_order()),
        decreases input.len(),
    {
        let item = input.remove(0);
        assert(item == original[k as int]);
        assert(input@ =~= original.skip(k as int + 1));
        let mut pos: usize = 0;
        let mut found = false;
        while pos < out.len() && !found
            invariant
                pos <= out.len(),
                forall|j: int| 0 <= j < pos ==> !pair_before(item, #[trigger] out@[j]),
                found ==> pos < out.len() && pair_before(item, out@[pos as int]),
            decreases out.len() - pos + if found { 0int } else { 1int },
        {
            if pair_row_before(&item, &out[pos]) {
                found = true;
            } else {
                pos = pos + 1;
            }
        }
        proof {
            lemma_insert_by_at(out@, item, pair_order(), pos as int);
            lemma_stable_sort_step(original, k as int, pair_order());
        }
        out.insert(pos, item);
        k = k + 1;
    }
    assert(original.take(original.len() as int) =~= original);
    out
}

fn sort_boundary_rows(rows: Vec<BoundaryRow>) -> (res: Vec<BoundaryRow>)
    ensures
        res@ == stable_sort(rows@, boundary_order()),
{
    let ghost original = rows@;
    let mut input = rows;
    let mut out: Vec<BoundaryRow> = Vec::new();
    let mut k: usize = 0;
    assert(original.len() == input.len());
    assert(original.skip(0) =~= original);
    assert(original.take(0) =~= Seq::<BoundaryRow>::empty());
    while input.len() > 0
        invariant
            k <= original.len(),
            original.len() <= usize::MAX,
            input@.len() + k == original.len(),
            input@ == original.skip(k as int),
            out@ == stable_sort(original.take(k as int), boundary_order()),
        decreases input.len(),
    {
        let item = input.remove(0);
        assert(item == original[k as int]);
        assert(input@ =~= original.skip(k as int + 1));
        let mut pos: usize = 0;
        let mut found = false;
        while pos < out.len() && !found
            invariant
                pos <= out.len(),
                forall|j: int| 0 <= j < pos ==> !boundary_before(item, #[trigger] out@[j]),
                found ==> pos < out.len() && boundary_before(item, out@[pos as int]),
            decreases out.len() - pos + if found { 0int } else { 1int },
        {
            if boundary_row_before(&item, &out[pos]) {
                found = true;
            } else {
                pos = pos + 1;
            }
        }
        proof {
            lemma_insert_by_at(out@, item, boundary_order(), pos as int);
            lemma_stable_sort_step(original, k as int, boundary_order());
        }
        out.insert(pos, item);
        k = k + 1;
    }
    assert(original.take(original.len() as int) =~= original);
    out
}

fn failing_pairs(rows: &Vec<PairRow>) -> (res: usize)
    ensures
        res == count_where(rows@, pair_fails()),
{
    let mut count: usize = 0;
    let mut i: usize = 0;
    while i < rows.len()
        invariant
            i <= rows.len(),
            count == count_where(rows@.take(i as int), pair_fails()),
            count <= i,
        decreases rows.len() - i,
    {
        assert(rows@.take(i as int + 1).drop_last() =~= rows@.take(i as int));
        if !rows[i].admissible {
            count = count + 1;
        }
        i = i + 1;
    }
    assert(rows@.take(rows.len() as int) =~= rows@);
    count
}

fn failing_boundaries(rows: &Vec<BoundaryRow>) -> (res: usize)
    ensures
        res == count_where(rows@, boundary_fails()),
{
    let mut count: usize = 0;
    let mut i: usize = 0;
    while i < rows.len()
        invariant
            i <= rows.len(),
            count == count_where(rows@.take(i as int), boundary_fails()),
            count <= i,
        decreases rows.len() - i,
    {
        assert(rows@.take(i as int + 1).drop_last() =~= rows@.take(i as int));
        if !rows[i].admissible {
            count = count + 1;
        }
        i = i + 1;
    }
    assert(rows@.take(rows.len() as int) =~= rows@);
    count
}

/// Reduces a census's row lists to every failing row plus the `report_top`
/// tightest: each list is sorted (failing first, tightest clearance first,
/// then by index) and cut to the larger of its failing count and
/// `report_top`. Every other field is left as it was.
pub fn trim(census: &mut Census, report_top: usize)
    ensures
        final(census).pairs@ == stable_sort(old(census).pairs@, pair_order()).take(kept_rows(
            old(census).pairs@.len(),
            count_where(old(census).pairs@, pair_fails()),
            report_top as nat,
        )),
        final(census).boundaries@ == stable_sort(old(census).boundaries@, boundary_order()).take(kept_rows(
            old(census).boundaries@.len(),
            count_where(old(census).boundaries@, boundary_fails()),
            report_top as nat,
        )),
        final(census).label == old(census).label,
        final(census).envelope == old(census).envelope,
        final(census).expansion_mm_bits == old(census).expansion_mm_bits,
        final(census).radius_micron == old(census).radius_micron,
        final(census).sheet_inset_mm_bits == old(census).sheet_inset_mm_bits,
        final(census).inset_box_micron == old(census).inset_box_micron,
        final(census).certified == old(census).certified,
        final(census).admissible == old(census).admissible,
        final(census).pair_count == old(census).pair_count,
        final(census).pair_failure_count == old(census).pair_failure_count,
        final(census).boundary_failure_count == old(census).boundary_failure_count,
        final(census).box_certified_pairs == old(census).box_certified_pairs,
        final(census).narrow_segment_pairs == old(census).narrow_segment_pairs,
        final(census).envelope_vertex_total == old(census).envelope_vertex_total,
{
    let failing = failing_pairs(&census.pairs);
    let mut pairs: Vec<PairRow> = Vec::new();
    std::mem::swap(&mut pairs, &mut census.pairs);
    let mut sorted = sort_pair_rows(pairs);
    let keep = if failing >= report_top { failing } else { report_top };
    proof {
        lemma_stable_sort_len(old(census).pairs@, pair_order());
    }
    sorted.truncate(keep);
    assert(sorted@ =~= stable_sort(old(census).pairs@, pair_order()).take(kept_rows(
        old(census).pairs@.len(), failing as nat, report_top as nat)));
    census.pairs = sorted;

    let failing = failing_boundaries(&census.boundaries);
    let mut boundaries: Vec<BoundaryRow> = Vec::new();
    std::mem::swap(&mut boundaries, &mut census.boundaries);
    let mut sorted = sort_boundary_rows(boundaries);
    let keep = if failing >= report_top { failing } else { report_top };
    proof {
        lemma_stable_sort_len(old(census).boundaries@, boundary_order());
    }
    sorted.truncate(keep);
    assert(sorted@ =~= stable_sort(old(census).boundaries@, boundary_order()).take(kept_rows(
        old(census).boundaries@.len(), failing as nat, report_top as nat)));
    census.boundaries = sorted;
}

} // verus!
