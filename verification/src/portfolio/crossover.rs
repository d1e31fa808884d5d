//! The combinatorial half of a cut crossover: which parent each piece of the
//! hybrid comes from at a given threshold, and the occupied short-axis
//! positions of the left parent that a cut can fall between, with how many
//! pieces at each differ between the two parents.
//!
//! Positions and thresholds are `f64`s carried as their bits; a piece goes to
//! the left parent when its position is below the threshold under `<`.
use vstd::prelude::*;
use crate::bits::{float_bits_less, float_less, total_key, total_order_key};
use crate::order::{lemma_insert_by_at, lemma_stable_sort_elements, lemma_stable_sort_sorted, lemma_stable_sort_step, sorted_by, stable_sort, strict_order};
use crate::portfolio::archive::{
    agrees_with, last_index_with_id, last_with_id, lemma_last_with_id_bounds, poses_equal, same_pose,
    Placement,
};

verus! {

/// Whether `placement` stays with the left parent at `threshold`.
pub open spec fn takes_left(placement: Placement, threshold: u64) -> bool {
    float_less(placement.translate_short_axis_bits, threshold)
}

/// Whether every piece that goes to the right parent has a pose there.
pub open spec fn hybrid_complete(left: Seq<Placement>, right: Seq<Placement>, threshold: u64) -> bool {
    forall|i: int| 0 <= i < left.len() && !takes_left(#[trigger] left[i], threshold)
        ==> last_with_id(right, left[i].piece_id@) >= 0
}

/// The hybrid's `i`-th placement: the left parent's below the threshold,
/// otherwise the right parent's pose of the same piece.
pub open spec fn hybrid_piece(left: Seq<Placement>, right: Seq<Placement>, threshold: u64, i: int) -> Placement {
    if takes_left(left[i], threshold) {
        left[i]
    } else {
        right[last_with_id(right, left[i].piece_id@)]
    }
}

/// How many of the first `n` placements of `left` stay with it.
pub open spec fn kept_left(left: Seq<Placement>, threshold: u64, n: int) -> nat
    decreases n,
{
    if n <= 0 {
        0
    } else {
        kept_left(left, threshold, n - 1) + if takes_left(left[n - 1], threshold) { 1nat } else { 0nat }
    }
}

proof fn lemma_kept_left_bound(left: Seq<Placement>, threshold: u64, n: int)
    requires
        n >= 0,
    ensures
        kept_left(left, threshold, n) <= n,
    decreases n,
{
    if n > 0 {
        lemma_kept_left_bound(left, threshold, n - 1);
    }
}

/// The hybrid a cut crossover of `left` onto `right` seeds at `threshold`:
/// each piece of `left` in order, kept when its short-axis position is below
/// the threshold and otherwise replaced by `right`'s pose of the same piece,
/// with how many came from each side. `None` when a piece that should come
/// from `right` has no pose there.
pub fn hybrid_at(left: &Vec<Placement>, right: &Vec<Placement>, threshold_bits: u64) -> (res: Option<(Vec<Placement>, usize, usize)>)
    ensures
        res is Some <==> hybrid_complete(left@, right@, threshold_bits),
        match res {
            Some((hybrid, from_left, from_right)) => {
                &&& hybrid@.len() == left@.len()
                &&& forall|i: int| 0 <= i < left@.len() ==> #[trigger] hybrid@[i] == hybrid_piece(left@, right@, threshold_bits, i)
                &&& from_left == kept_left(left@, threshold_bits, left@.len() as int)
                &&& from_left + from_right == left@.len()
            },
            None => true,
        },
{
    let mut hybrid: Vec<Placement> = Vec::new();
    let mut from_left: usize = 0;
    let mut from_right: usize = 0;
    let mut i: usize = 0;
    while i < left.len()
        invariant
            i <= left@.len(),
            hybrid@.len() == i,
            forall|k: int| 0 <= k < i ==> #[trigger] hybrid@[k] == hybrid_piece(left@, right@, threshold_bits, k),
            forall|k: int| 0 <= k < i && !takes_left(#[trigger] left@[k], threshold_bits)
                ==> last_with_id(right@, left@[k].piece_id@) >= 0,
            from_left == kept_left(left@, threshold_bits, i as int),
            from_left + from_right == i,
        decreases left.len() - i,
    {
        proof {
            lemma_kept_left_bound(left@, threshold_bits, i as int);
        }
        if float_bits_less(left[i].translate_short_axis_bits, threshold_bits) {
            hybrid.push(left[i].duplicate());
            from_left = from_left + 1;
        } else {
            match last_index_with_id(right, &left[i].piece_id) {
                Some(j) => {
                    hybrid.push(right[j].duplicate());
                    from_right = from_right + 1;
                },
                None => {
                    return None;
                },
            }
        }
        i = i + 1;
    }
    Some((hybrid, from_left, from_right))
}

/// Whether moving the cut from `first` to `second` only moves pieces that
/// hold the same pose in both parents.
pub open spec fn moves_only_agreeing(left: Seq<Placement>, right: Seq<Placement>, first: u64, second: u64) -> bool {
    forall|k: int| 0 <= k < left.len() && takes_left(#[trigger] left[k], first) != takes_left(left[k], second)
        ==> agrees_with(left[k], right)
}

/// A cut moved across pieces that agree between the parents builds the same
/// hybrid: the same piece at the same pose in every position, and a hybrid
/// at one threshold exactly when there is one at the other.
pub proof fn lemma_agreeing_band_repeats_the_hybrid(left: Seq<Placement>, right: Seq<Placement>, first: u64, second: u64)
    requires
        moves_only_agreeing(left, right, first, second),
    ensures
        hybrid_complete(left, right, first) <==> hybrid_complete(left, right, second),
        forall|i: int| 0 <= i < left.len() ==> {
            &&& (#[trigger] hybrid_piece(left, right, first, i)).piece_id@ == hybrid_piece(left, right, second, i).piece_id@
            &&& same_pose(hybrid_piece(left, right, first, i), hybrid_piece(left, right, second, i))
        },
{
    assert forall|i: int| 0 <= i < left.len() implies {
        &&& (#[trigger] hybrid_piece(left, right, first, i)).piece_id@ == hybrid_piece(left, right, second, i).piece_id@
        &&& same_pose(hybrid_piece(left, right, first, i), hybrid_piece(left, right, second, i))
    } by {
        lemma_last_with_id_bounds(right, left[i].piece_id@);
        if takes_left(left[i], first) != takes_left(left[i], second) {
            assert(agrees_with(left[i], right));
        }
    }
    assert forall|k: int| 0 <= k < left.len() && !takes_left(#[trigger] left[k], first) && hybrid_complete(left, right, second)
        implies last_with_id(right, left[k].piece_id@) >= 0 by {
        if takes_left(left[k], second) {
            assert(agrees_with(left[k], right));
        }
    }
    assert forall|k: int| 0 <= k < left.len() && !takes_left(#[trigger] left[k], second) && hybrid_complete(left, right, first)
        implies last_with_id(right, left[k].piece_id@) >= 0 by {
        if takes_left(left[k], first) {
            assert(agrees_with(left[k], right));
        }
    }
}

/// Whether `placement`'s piece has a different pose in `right`, or none.
pub open spec fn differs_in(placement: Placement, right: Seq<Placement>) -> bool {
    let j = last_with_id(right, placement.piece_id@);
    j < 0 || !same_pose(placement, right[j])
}

/// Each placement of `left` as its short-axis position and whether it
/// differs in `right`.
pub open spec fn cut_rows(left: Seq<Placement>, right: Seq<Placement>) -> Seq<(u64, bool)> {
    Seq::new(left.len(), |i: int| (left[i].translate_short_axis_bits, differs_in(left[i], right)))
}

/// The order rows are grouped in: ascending position under `f64::total_cmp`.
pub open spec fn position_order() -> spec_fn((u64, bool), (u64, bool)) -> bool {
    |a: (u64, bool), b: (u64, bool)| total_key(a.0) < total_key(b.0)
}

/// Sorted rows folded into one group per run of bit-identical positions,
/// each with how many of its rows differ.
pub open spec fn grouped(rows: Seq<(u64, bool)>) -> Seq<(u64, usize)>
    decreases rows.len(),
{
    if rows.len() == 0 {
        Seq::empty()
    } else {
        let groups = grouped(rows.drop_last());
        let row = rows.last();
        let add: nat = if row.1 { 1 } else { 0 };
        if groups.len() > 0 && groups.last().0 == row.0 {
            groups.update(groups.len() - 1, (row.0, (groups.last().1 + add) as usize))
        } else {
            groups.push((row.0, add as usize))
        }
    }
}

proof fn lemma_grouped_counts(rows: Seq<(u64, bool)>)
    ensures
        grouped(rows).len() <= rows.len(),
        forall|k: int| 0 <= k < grouped(rows).len() ==> (#[trigger] grouped(rows)[k]).1 <= rows.len(),
    decreases rows.len(),
{
    if rows.len() > 0 {
        lemma_grouped_counts(rows.drop_last());
    }
}

/// Whether some group sits at position `bits`.
pub open spec fn has_group(groups: Seq<(u64, usize)>, bits: u64) -> bool {
    exists|i: int| 0 <= i < groups.len() && (#[trigger] groups[i]).0 == bits
}

/// Whether some row sits at position `bits`.
pub open spec fn has_row(rows: Seq<(u64, bool)>, bits: u64) -> bool {
    exists|k: int| 0 <= k < rows.len() && (#[trigger] rows[k]).0 == bits
}

proof fn lemma_total_key_injective(a: u64, b: u64)
    requires
        a != b,
    ensures
        total_key(a) != total_key(b),
{
}

proof fn lemma_grouped_shape(rows: Seq<(u64, bool)>)
    requires
        sorted_by(rows, position_order()),
    ensures
        forall|i: int, j: int| 0 <= i < j < grouped(rows).len()
            ==> total_key((#[trigger] grouped(rows)[i]).0) < total_key((#[trigger] grouped(rows)[j]).0),
        forall|k: int| 0 <= k < rows.len() ==> has_group(grouped(rows), (#[trigger] rows[k]).0),
        forall|i: int| 0 <= i < grouped(rows).len() ==> has_row(rows, (#[trigger] grouped(rows)[i]).0),
        rows.len() > 0 ==> grouped(rows).len() > 0 && grouped(rows).last().0 == rows.last().0,
    decreases rows.len(),
{
    if rows.len() > 0 {
        let rest = rows.drop_last();
        assert forall|i: int, j: int| 0 <= i < j < rest.len()
            implies !position_order()(#[trigger] rest[j], #[trigger] rest[i]) by {
            assert(rest[i] == rows[i] && rest[j] == rows[j]);
        }
        lemma_grouped_shape(rest);
        let before = grouped(rest);
        let after = grouped(rows);
        let row = rows.last();
        if before.len() > 0 && before.last().0 == row.0 {
            assert forall|i: int| 0 <= i < after.len() implies (#[trigger] after[i]).0 == before[i].0 by {}
            assert forall|i: int, j: int| 0 <= i < j < after.len()
                implies total_key((#[trigger] after[i]).0) < total_key((#[trigger] after[j]).0) by {
                assert(after[i].0 == before[i].0 && after[j].0 == before[j].0);
            }
            assert forall|k: int| 0 <= k < rows.len() implies has_group(after, (#[trigger] rows[k]).0) by {
                if k < rest.len() {
                    assert(rest[k] == rows[k]);
                    assert(has_group(before, rest[k].0));
                    let i = choose|i: int| 0 <= i < before.len() && (#[trigger] before[i]).0 == rest[k].0;
                    assert(after[i].0 == before[i].0);
                } else {
                    assert(after[before.len() - 1].0 == row.0);
                }
            }
            assert forall|i: int| 0 <= i < after.len() implies has_row(rows, (#[trigger] after[i]).0) by {
                assert(after[i].0 == before[i].0);
                assert(has_row(rest, before[i].0));
                let k = choose|k: int| 0 <= k < rest.len() && (#[trigger] rest[k]).0 == before[i].0;
                assert(rows[k] == rest[k]);
            }
            assert(after.last().0 == row.0);
        } else {
            assert(after == before.push((row.0, (if row.1 { 1nat } else { 0nat }) as usize)));
            if before.len() > 0 {
                let prev = rest.last();
                assert(rows[rows.len() - 2] == prev);
                assert(rows[rows.len() - 1] == row);
                assert(!position_order()(row, prev));
                lemma_total_key_injective(row.0, prev.0);
                assert(total_key(before.last().0) < total_key(row.0));
            }
            assert forall|i: int, j: int| 0 <= i < j < after.len()
                implies total_key((#[trigger] after[i]).0) < total_key((#[trigger] after[j]).0) by {
                if j < before.len() {
                    assert(after[i] == before[i] && after[j] == before[j]);
                } else {
                    assert(after[i] == before[i]);
                    if i < before.len() - 1 {
                        assert(total_key(before[i].0) < total_key(before[before.len() - 1].0));
                    }
                }
            }
            assert forall|k: int| 0 <= k < rows.len() implies has_group(after, (#[trigger] rows[k]).0) by {
                if k < rest.len() {
                    assert(rest[k] == rows[k]);
                    assert(has_group(before, rest[k].0));
                    let i = choose|i: int| 0 <= i < before.len() && (#[trigger] before[i]).0 == rest[k].0;
                    assert(after[i] == before[i]);
                } else {
                    assert(after[before.len() as int].0 == row.0);
                }
            }
            assert forall|i: int| 0 <= i < after.len() implies has_row(rows, (#[trigger] after[i]).0) by {
                if i < before.len() {
                    assert(after[i] == before[i]);
                    assert(has_row(rest, before[i].0));
                    let k = choose|k: int| 0 <= k < rest.len() && (#[trigger] rest[k]).0 == before[i].0;
                    assert(rows[k] == rest[k]);
                } else {
                    assert(rows[rows.len() - 1].0 == after[i].0);
                }
            }
        }
    }
}

/// The cut groups are the occupied positions of the left parent, each once,
/// in ascending order: every group is at a piece's position, every piece's
/// position has a group, and the groups' positions strictly increase.
pub proof fn lemma_cut_groups_are_the_occupied_positions(left: Seq<Placement>, right: Seq<Placement>)
    ensures
        ({
            let groups = grouped(stable_sort(cut_rows(left, right), position_order()));
            &&& forall|i: int, j: int| 0 <= i < j < groups.len()
                ==> total_key((#[trigger] groups[i]).0) < total_key((#[trigger] groups[j]).0)
            &&& forall|k: int| 0 <= k < left.len() ==> has_group(groups, (#[trigger] left[k]).translate_short_axis_bits)
            &&& forall|i: int| 0 <= i < groups.len() ==> exists|k: int| 0 <= k < left.len()
                && (#[trigger] left[k]).translate_short_axis_bits == (#[trigger] groups[i]).0
        }),
{
    let rows = cut_rows(left, right);
    let order = position_order();
    assert(strict_order(order));
    lemma_stable_sort_sorted(rows, order);
    lemma_stable_sort_elements(rows, order);
    let sorted = stable_sort(rows, order);
    lemma_grouped_shape(sorted);
    let groups = grouped(sorted);
    assert forall|k: int| 0 <= k < left.len() implies has_group(groups, (#[trigger] left[k]).translate_short_axis_bits) by {
        assert(rows[k].0 == left[k].translate_short_axis_bits);
        assert(sorted.contains(rows[k]));
        let m = choose|m: int| 0 <= m < sorted.len() && sorted[m] == rows[k];
        assert(has_group(groups, sorted[m].0));
    }
    assert forall|i: int| 0 <= i < groups.len() implies exists|k: int| 0 <= k < left.len()
        && (#[trigger] left[k]).translate_short_axis_bits == (#[trigger] groups[i]).0 by {
        assert(has_row(sorted, groups[i].0));
        let m = choose|m: int| 0 <= m < sorted.len() && (#[trigger] sorted[m]).0 == groups[i].0;
        assert(rows.contains(sorted[m]));
        let k = choose|k: int| 0 <= k < rows.len() && rows[k] == sorted[m];
        assert(left[k].translate_short_axis_bits == rows[k].0);
    }
}

fn position_before(a: (u64, bool), b: (u64, bool)) -> (res: bool)
    ensures
        res == position_order()(a, b),
{
    total_order_key(a.0) < total_order_key(b.0)
}

/// The occupied short-axis positions of `left`, ascending in the total
/// order, one per bit-identical position, each with how many of the pieces
/// there have a different pose (or none) in `right`.
pub fn cut_groups(left: &Vec<Placement>, right: &Vec<Placement>) -> (res: Vec<(u64, usize)>)
    ensures
        res@ == grouped(stable_sort(cut_rows(left@, right@), position_order())),
{
    let ghost rows = cut_rows(left@, right@);
    let ghost order = position_order();
    // The rows, in `left`'s order.
    let mut input: Vec<(u64, bool)> = Vec::new();
    let mut i: usize = 0;
    while i < left.len()
        invariant
            i <= left@.len(),
            rows == cut_rows(left@, right@),
            input@ == rows.take(i as int),
        decreases left.len() - i,
    {
        proof {
            lemma_last_with_id_bounds(right@, left@[i as int].piece_id@);
        }
        let differs = match last_index_with_id(right, &left[i].piece_id) {
            Some(j) => !poses_equal(&left[i], &right[j]),
            None => true,
        };
        input.push((left[i].translate_short_axis_bits, differs));
        assert(rows.take(i as int + 1) =~= rows.take(i as int).push(rows[i as int]));
        i = i + 1;
    }
    assert(rows.take(rows.len() as int) =~= rows);
    // Sorted by position, equal positions keeping their order.
    let mut sorted: Vec<(u64, bool)> = Vec::new();
    let mut k: usize = 0;
    assert(rows.take(0) =~= Seq::<(u64, bool)>::empty());
    while k < input.len()
        invariant
            k <= input@.len(),
            input@ == rows,
            order == position_order(),
            sorted@ == stable_sort(rows.take(k as int), order),
        decreases input.len() - k,
    {
        let item = input[k];
        let mut pos: usize = 0;
        let mut found = false;
        while pos < sorted.len() && !found
            invariant
                pos <= sorted.len(),
                order == position_order(),
                forall|j: int| 0 <= j < pos ==> !order(item, #[trigger] sorted@[j]),
                found ==> pos < sorted.len() && order(item, sorted@[pos as int]),
            decreases sorted.len() - pos + if found { 0int } else { 1int },
        {
            if position_before(item, sorted[pos]) {
                found = true;
            } else {
                pos = pos + 1;
            }
        }
        proof {
            lemma_insert_by_at(sorted@, item, order, pos as int);
            lemma_stable_sort_step(rows, k as int, order);
        }
        sorted.insert(pos, item);
        k = k + 1;
    }
    let ghost ordered = sorted@;
    proof {
        crate::order::lemma_stable_sort_len(rows, order);
        assert(rows.take(rows.len() as int) =~= rows);
    }
    // Grouped by bit-identical position.
    let mut groups: Vec<(u64, usize)> = Vec::new();
    let mut m: usize = 0;
    assert(ordered.take(0) =~= Seq::<(u64, bool)>::empty());
    while m < sorted.len()
        invariant
            m <= ordered.len(),
            sorted@ == ordered,
            groups@ == grouped(ordered.take(m as int)),
        decreases sorted.len() - m,
    {
        let (value, differs) = sorted[m];
        let add: usize = if differs { 1 } else { 0 };
        proof {
            assert(ordered.take(m as int + 1).drop_last() =~= ordered.take(m as int));
            assert(ordered.take(m as int + 1).last() == ordered[m as int]);
            lemma_grouped_counts(ordered.take(m as int));
        }
        let n = groups.len();
        if n > 0 && groups[n - 1].0 == value {
            let count = groups[n - 1].1;
            groups.set(n - 1, (value, count + add));
        } else {
            groups.push((value, add));
        }
        m = m + 1;
    }
    assert(ordered.take(ordered.len() as int) =~= ordered);
    groups
}

} // verus!
