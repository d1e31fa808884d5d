//! The search's memory: complete layouts kept for their future value, keyed by
//! placement fingerprint, with a retention rule that evicts a basin only when
//! it is both dominated and similar.
//!
//! Every `f64` the archive reads is carried as its IEEE-754 bit pattern. Pose
//! identity is bit identity. The eviction rule compares depths as `<=` and
//! `>` compare `f64`s, so a NaN depth neither dominates nor is dominated and
//! the two zeros are equal; the frontier ranks depths by the total order
//! `f64::total_cmp` uses. Overlaps are compared with the threshold as the
//! quotient of two `f64` counts is.
use vstd::prelude::*;
use crate::bits::{
    clamp_unit, clamp_unit_bits, lemma_clamp_unit_idempotent, float_bits_le, float_bits_less, float_le, float_less, is_nan_bits,
    is_nan_value, quotient_bits_reach, quotient_reaches, total_key, total_order_key,
};
use crate::order::{
    insert_by, lemma_stable_sort_elements, lemma_stable_sort_len, lemma_stable_sort_sorted, sorted_by, stable_sort,
    strict_order,
};
use crate::portfolio::kinds::{ArchiveDisposition, BasinOperator};
use crate::text::{lex_less, lemma_lex_irreflexive, lemma_lex_total, lemma_lex_transitive, str_equal, str_less};

verus! {

/// One piece's pose in a layout.
#[derive(Debug)]
pub struct Placement {
    pub piece_id: String,
    /// The rotation in degrees, as the bits of its `f64`.
    pub rotation_deg_bits: u64,
    pub mirrored: bool,
    /// The short-axis translation, as the bits of its `f64`.
    pub translate_short_axis_bits: u64,
    /// The long-axis translation, as the bits of its `f64`.
    pub translate_long_axis_bits: u64,
}

/// Whether two placements hold an identical pose: the same rotation, mirror
/// and translation, bit for bit. The piece they place is not compared.
pub open spec fn same_pose(left: Placement, right: Placement) -> bool {
    &&& left.rotation_deg_bits == right.rotation_deg_bits
    &&& left.mirrored == right.mirrored
    &&& left.translate_short_axis_bits == right.translate_short_axis_bits
    &&& left.translate_long_axis_bits == right.translate_long_axis_bits
}

impl Placement {
    /// A field-for-field copy.
    pub fn duplicate(&self) -> (res: Placement)
        ensures
            res == *self,
    {
        Placement {
            piece_id: self.piece_id.clone(),
            rotation_deg_bits: self.rotation_deg_bits,
            mirrored: self.mirrored,
            translate_short_axis_bits: self.translate_short_axis_bits,
            translate_long_axis_bits: self.translate_long_axis_bits,
        }
    }
}

/// Whether two placements hold an identical pose.
pub fn poses_equal(left: &Placement, right: &Placement) -> (res: bool)
    ensures
        res == same_pose(*left, *right),
{
    left.rotation_deg_bits == right.rotation_deg_bits
        && left.mirrored == right.mirrored
        && left.translate_short_axis_bits == right.translate_short_axis_bits
        && left.translate_long_axis_bits == right.translate_long_axis_bits
}

/// A copy of a whole layout.
pub fn duplicate_layout(layout: &Vec<Placement>) -> (res: Vec<Placement>)
    ensures
        res@ == layout@,
{
    let mut out: Vec<Placement> = Vec::new();
    let mut i: usize = 0;
    while i < layout.len()
        invariant
            i <= layout.len(),
            out@ == layout@.take(i as int),
        decreases layout.len() - i,
    {
        out.push(layout[i].duplicate());
        assert(layout@.take(i as int + 1) =~= layout@.take(i as int).push(layout@[i as int]));
        i = i + 1;
    }
    assert(layout@.take(layout.len() as int) =~= layout@);
    out
}

/// The index of the last placement in `layout` that places piece `id`, or
/// `-1` when none does. The last one, because a by-id lookup table built from
/// the layout keeps the last entry for a repeated id.
pub open spec fn last_with_id(layout: Seq<Placement>, id: Seq<char>) -> int
    decreases layout.len(),
{
    if layout.len() == 0 {
        -1
    } else if layout.last().piece_id@ == id {
        layout.len() - 1
    } else {
        last_with_id(layout.drop_last(), id)
    }
}

/// Whether `placement` has an identical pose in `other`, found by piece id.
pub open spec fn agrees_with(placement: Placement, other: Seq<Placement>) -> bool {
    let j = last_with_id(other, placement.piece_id@);
    j >= 0 && same_pose(placement, other[j])
}

/// How many of the first `n` placements of `left` have an identical pose in
/// `right`.
pub open spec fn agreeing_count(left: Seq<Placement>, right: Seq<Placement>, n: int) -> nat
    decreases n,
{
    if n <= 0 {
        0
    } else {
        agreeing_count(left, right, n - 1) + if agrees_with(left[n - 1], right) { 1nat } else { 0nat }
    }
}

/// The denominator of the overlap fraction: the larger layout's size, or zero
/// when either layout is empty (whose overlap is zero).
pub open spec fn overlap_total(left: Seq<Placement>, right: Seq<Placement>) -> nat {
    if left.len() == 0 || right.len() == 0 {
        0
    } else if left.len() >= right.len() {
        left.len()
    } else {
        right.len()
    }
}

/// The fraction of pieces at an identical pose in two layouts, as a count over
/// a total. A total of zero is the fraction zero.
#[derive(Clone, Copy, Debug, PartialEq, Eq, Structural)]
pub struct Overlap {
    pub agreeing: usize,
    pub total: usize,
}

/// Whether the overlap of `left` with `right` reaches `threshold` (an `f64`
/// given as its bits): whether the agreeing count over the total, divided as
/// `f64`s, is `>=` the threshold. A NaN threshold is reached by nothing.
pub open spec fn overlap_reaches(left: Seq<Placement>, right: Seq<Placement>, threshold: u64) -> bool {
    quotient_reaches(agreeing_count(left, right, left.len() as int), overlap_total(left, right), threshold)
}

/// Whether the overlap of `left` with `right` is `<` the threshold: the
/// threshold is not a NaN and the overlap does not reach it.
pub open spec fn overlap_below(left: Seq<Placement>, right: Seq<Placement>, threshold: u64) -> bool {
    !is_nan_bits(threshold) && !overlap_reaches(left, right, threshold)
}

impl Overlap {
    /// Whether this overlap, divided out as `f64`s, is `>=` the `f64`
    /// `threshold` given as its bits.
    pub fn reaches(self, threshold: u64) -> (res: bool)
        ensures
            res == quotient_reaches(self.agreeing as nat, self.total as nat, threshold),
    {
        quotient_bits_reach(self.agreeing as u64, self.total as u64, threshold)
    }

    /// Whether this overlap, divided out as `f64`s, is `<` the `f64`
    /// `threshold` given as its bits.
    pub fn falls_below(self, threshold: u64) -> (res: bool)
        ensures
            res == (!is_nan_bits(threshold) && !quotient_reaches(self.agreeing as nat, self.total as nat, threshold)),
    {
        !is_nan_value(threshold) && !self.reaches(threshold)
    }
}

pub(crate) proof fn lemma_last_with_id_bounds(layout: Seq<Placement>, id: Seq<char>)
    ensures
        -1 <= last_with_id(layout, id) < layout.len(),
        last_with_id(layout, id) >= 0 ==> layout[last_with_id(layout, id)].piece_id@ == id,
    decreases layout.len(),
{
    if layout.len() > 0 && layout.last().piece_id@ != id {
        lemma_last_with_id_bounds(layout.drop_last(), id);
    }
}

pub(crate) fn last_index_with_id(layout: &Vec<Placement>, id: &String) -> (res: Option<usize>)
    ensures
        match res {
            Some(j) => j as int == last_with_id(layout@, id@) && j < layout@.len(),
            None => last_with_id(layout@, id@) == -1,
        },
{
    let mut n = layout.len();
    assert(layout@.take(n as int) =~= layout@);
    while n > 0
        invariant
            n <= layout.len(),
            last_with_id(layout@, id@) == last_with_id(layout@.take(n as int), id@),
        decreases n,
    {
        let ghost prefix = layout@.take(n as int);
        assert(prefix.drop_last() =~= layout@.take(n as int - 1));
        if str_equal(layout[n - 1].piece_id.as_str(), id.as_str()) {
            return Some(n - 1);
        }
        n = n - 1;
    }
    assert(layout@.take(0) =~= Seq::<Placement>::empty());
    None
}

/// The fraction of pieces that occupy an identical pose in both layouts: the
/// pieces of `left` whose piece id, looked up in `right`, has a bit-identical
/// pose, over the larger of the two layouts' sizes. Either layout empty is an
/// overlap of zero.
pub fn assignment_overlap(left: &Vec<Placement>, right: &Vec<Placement>) -> (res: Overlap)
    ensures
        res.total == overlap_total(left@, right@),
        res.total > 0 ==> res.agreeing == agreeing_count(left@, right@, left@.len() as int),
        res.total == 0 ==> res.agreeing == 0,
        res.agreeing <= res.total,
{
    if left.len() == 0 || right.len() == 0 {
        return Overlap { agreeing: 0, total: 0 };
    }
    let mut agreeing: usize = 0;
    let mut i: usize = 0;
    while i < left.len()
        invariant
            i <= left.len(),
            agreeing == agreeing_count(left@, right@, i as int),
            agreeing <= i,
        decreases left.len() - i,
    {
        proof {
            lemma_last_with_id_bounds(right@, left@[i as int].piece_id@);
        }
        let found = last_index_with_id(right, &left[i].piece_id);
        match found {
            Some(j) => {
                if poses_equal(&left[i], &right[j]) {
                    agreeing = agreeing + 1;
                }
            },
            None => {},
        }
        i = i + 1;
    }
    let total = if left.len() >= right.len() { left.len() } else { right.len() };
    Overlap { agreeing, total }
}

/// Whether the overlap of `left` with `right` reaches `threshold`.
pub fn overlap_at_least(left: &Vec<Placement>, right: &Vec<Placement>, threshold: u64) -> (res: bool)
    ensures
        res == overlap_reaches(left@, right@, threshold),
{
    assignment_overlap(left, right).reaches(threshold)
}

/// Whether the overlap of `left` with `right` is below `threshold`.
pub fn overlap_less_than(left: &Vec<Placement>, right: &Vec<Placement>, threshold: u64) -> (res: bool)
    ensures
        res == overlap_below(left@, right@, threshold),
{
    assignment_overlap(left, right).falls_below(threshold)
}

/// What the archive knows of one basin, as mathematical values.
pub struct BasinView {
    pub fingerprint: Seq<char>,
    pub raw_depth_bits: u64,
    pub birth_seconds_bits: u64,
    pub birth_work_units: u64,
    pub operator: BasinOperator,
    pub parent_fingerprint: Option<Seq<char>>,
    pub secondary_parent_fingerprint: Option<Seq<char>>,
    pub exact_valid: bool,
    pub descents: usize,
    pub placements: Seq<Placement>,
}

/// One retained basin: a complete layout the search may want to descend from
/// later, whether or not it is the best thing anyone has found.
#[derive(Debug)]
pub struct ArchivedBasin {
    /// The placement fingerprint, which is the archive's key.
    pub fingerprint: String,
    /// Raw source depth in millimetres, as the bits of its `f64`.
    pub raw_depth_bits: u64,
    /// Seconds since the coordinator's clock started, as the bits of its `f64`.
    pub birth_seconds_bits: u64,
    /// Work units spent when this basin was admitted.
    pub birth_work_units: u64,
    /// Which operator produced it.
    pub operator: BasinOperator,
    /// The fingerprint of the basin it descended from, when it descended.
    pub parent_fingerprint: Option<String>,
    /// The fingerprint of the second parent, for the operators that have one.
    pub secondary_parent_fingerprint: Option<String>,
    /// Whether the composite exact validator accepted it.
    pub exact_valid: bool,
    /// How many times this basin has been handed to an operator as a parent.
    pub descents: usize,
    /// The layout itself.
    pub placements: Vec<Placement>,
}

pub open spec fn option_view(value: Option<String>) -> Option<Seq<char>> {
    match value {
        Some(text) => Some(text@),
        None => None,
    }
}

fn duplicate_option(value: &Option<String>) -> (res: Option<String>)
    ensures
        option_view(res) == option_view(*value),
{
    match value {
        Some(text) => Some(text.clone()),
        None => None,
    }
}

impl View for ArchivedBasin {
    type V = BasinView;

    open spec fn view(&self) -> BasinView {
        BasinView {
            fingerprint: self.fingerprint@,
            raw_depth_bits: self.raw_depth_bits,
            birth_seconds_bits: self.birth_seconds_bits,
            birth_work_units: self.birth_work_units,
            operator: self.operator,
            parent_fingerprint: option_view(self.parent_fingerprint),
            secondary_parent_fingerprint: option_view(self.secondary_parent_fingerprint),
            exact_valid: self.exact_valid,
            descents: self.descents,
            placements: self.placements@,
        }
    }
}

impl ArchivedBasin {
    /// A field-for-field copy.
    pub fn duplicate(&self) -> (res: ArchivedBasin)
        ensures
            res@ == self@,
    {
        ArchivedBasin {
            fingerprint: self.fingerprint.clone(),
            raw_depth_bits: self.raw_depth_bits,
            birth_seconds_bits: self.birth_seconds_bits,
            birth_work_units: self.birth_work_units,
            operator: self.operator,
            parent_fingerprint: duplicate_option(&self.parent_fingerprint),
            secondary_parent_fingerprint: duplicate_option(&self.secondary_parent_fingerprint),
            exact_valid: self.exact_valid,
            descents: self.descents,
            placements: duplicate_layout(&self.placements),
        }
    }
}

/// The views of a sequence of basins.
pub open spec fn views(basins: Seq<ArchivedBasin>) -> Seq<BasinView> {
    basins.map_values(|basin: ArchivedBasin| basin@)
}

/// Whether member `index` of `members` is dominated by, and similar to, some
/// other member or the incoming candidate: a layout no deeper than it whose
/// overlap with it reaches the threshold. Depths compare as `<=` compares
/// `f64`s: a NaN depth is never dominated and never dominates.
pub open spec fn dominated(members: Seq<BasinView>, candidate: BasinView, index: int, threshold: u64) -> bool {
    let member = members[index];
    ||| exists|other: int|
        #![trigger members[other]]
        0 <= other < members.len() && other != index
            && float_le(members[other].raw_depth_bits, member.raw_depth_bits)
            && overlap_reaches(members[other].placements, member.placements, threshold)
    ||| float_le(candidate.raw_depth_bits, member.raw_depth_bits)
            && overlap_reaches(candidate.placements, member.placements, threshold)
}

/// Whether `victim` is the member the eviction rule removes: dominated and
/// similar, the deepest such member, and the first of equally deep ones
/// (`-0.0` and `0.0` being equally deep).
pub open spec fn is_victim(members: Seq<BasinView>, candidate: BasinView, victim: int, threshold: u64) -> bool {
    &&& 0 <= victim < members.len()
    &&& dominated(members, candidate, victim, threshold)
    &&& forall|i: int| 0 <= i < members.len() && #[trigger] dominated(members, candidate, i, threshold) ==> {
        &&& float_le(members[i].raw_depth_bits, members[victim].raw_depth_bits)
        &&& (i < victim ==> float_less(members[i].raw_depth_bits, members[victim].raw_depth_bits))
    }
}

/// Whether no member may be evicted for `candidate`.
pub open spec fn no_victim(members: Seq<BasinView>, candidate: BasinView, threshold: u64) -> bool {
    forall|i: int| 0 <= i < members.len() ==> !#[trigger] dominated(members, candidate, i, threshold)
}

/// Whether some member carries `fingerprint`.
pub open spec fn holds_fingerprint(members: Seq<BasinView>, fingerprint: Seq<char>) -> bool {
    exists|i: int| 0 <= i < members.len() && #[trigger] members[i].fingerprint == fingerprint
}

/// Whether `first` sorts before `second` in the frontier's order: shallower
/// first, then less descended, then by fingerprint.
pub open spec fn ranks_before(first: BasinView, second: BasinView) -> bool {
    ||| total_key(first.raw_depth_bits) < total_key(second.raw_depth_bits)
    ||| total_key(first.raw_depth_bits) == total_key(second.raw_depth_bits)
        && first.descents < second.descents
    ||| total_key(first.raw_depth_bits) == total_key(second.raw_depth_bits)
        && first.descents == second.descents && lex_less(first.fingerprint, second.fingerprint)
}

/// `sorted` with `basin` inserted after every member it does not rank before.
pub open spec fn insert_ranked(sorted: Seq<BasinView>, basin: BasinView) -> Seq<BasinView>
    decreases sorted.len(),
{
    if sorted.len() == 0 {
        seq![basin]
    } else if ranks_before(basin, sorted[0]) {
        seq![basin] + sorted
    } else {
        seq![sorted[0]] + insert_ranked(sorted.drop_first(), basin)
    }
}

/// `basins` in the frontier's order; equally ranked basins keep their order.
pub open spec fn sort_ranked(basins: Seq<BasinView>) -> Seq<BasinView>
    decreases basins.len(),
{
    if basins.len() == 0 {
        basins
    } else {
        insert_ranked(sort_ranked(basins.drop_last()), basins.last())
    }
}

/// `chosen` extended by `next` when there is room and `next`'s overlap with
/// every basin already chosen is below the threshold.
pub open spec fn frontier_step(chosen: Seq<BasinView>, next: BasinView, count: nat, threshold: u64) -> Seq<BasinView> {
    if frontier_takes(chosen, next, count, threshold) {
        chosen.push(next)
    } else {
        chosen
    }
}

/// Whether the greedy selection takes `next` after `chosen`: there is room
/// and its overlap with every basin already chosen is below the threshold.
pub open spec fn frontier_takes(chosen: Seq<BasinView>, next: BasinView, count: nat, threshold: u64) -> bool {
    chosen.len() < count && forall|k: int| 0 <= k < chosen.len()
        ==> overlap_below(#[trigger] chosen[k].placements, next.placements, threshold)
}

/// The greedy selection over `ordered`: each basin in turn is taken when
/// there is room and its overlap with every basin already taken is below the
/// threshold.
pub open spec fn frontier_of(ordered: Seq<BasinView>, count: nat, threshold: u64) -> Seq<BasinView>
    decreases ordered.len(),
{
    if ordered.len() == 0 {
        Seq::empty()
    } else {
        frontier_step(frontier_of(ordered.drop_last(), count, threshold), ordered.last(), count, threshold)
    }
}

proof fn lemma_insert_ranked_at(sorted: Seq<BasinView>, basin: BasinView, pos: int)
    requires
        0 <= pos <= sorted.len(),
        forall|j: int| 0 <= j < pos ==> !ranks_before(basin, #[trigger] sorted[j]),
        pos < sorted.len() ==> ranks_before(basin, sorted[pos]),
    ensures
        insert_ranked(sorted, basin) == sorted.insert(pos, basin),
    decreases sorted.len(),
{
    if sorted.len() == 0 {
        assert(sorted.insert(pos, basin) =~= seq![basin]);
    } else if pos == 0 {
        assert(sorted.insert(0, basin) =~= seq![basin] + sorted);
    } else {
        let rest = sorted.drop_first();
        assert forall|j: int| 0 <= j < pos - 1 implies !ranks_before(basin, #[trigger] rest[j]) by {
            assert(rest[j] == sorted[j + 1]);
        }
        lemma_insert_ranked_at(rest, basin, pos - 1);
        assert(seq![sorted[0]] + rest.insert(pos - 1, basin) =~= sorted.insert(pos, basin));
    }
}

proof fn lemma_push_keeps_well_formed(before: ArchiveView, basin: BasinView, after: ArchiveView)
    requires
        members_well_formed(before),
        before.members.len() < before.capacity,
        basin.placements.len() == before.piece_count,
        !holds_fingerprint(before.members, basin.fingerprint),
        after.members == before.members.push(basin),
        after.capacity == before.capacity,
        after.threshold == before.threshold,
        after.piece_count == before.piece_count,
    ensures
        members_well_formed(after),
{
    assert forall|i: int, j: int| 0 <= i < j < after.members.len()
        implies (#[trigger] after.members[i]).fingerprint != (#[trigger] after.members[j]).fingerprint by {
        if j == before.members.len() {
            assert(before.members[i] == after.members[i]);
        } else {
            assert(before.members[i] == after.members[i] && before.members[j] == after.members[j]);
        }
    }
    assert forall|i: int| 0 <= i < after.members.len()
        implies (#[trigger] after.members[i]).placements.len() == after.piece_count by {
        if i < before.members.len() {
            assert(before.members[i] == after.members[i]);
        }
    }
}

proof fn lemma_remove_push_keeps_well_formed(before: ArchiveView, victim: int, basin: BasinView, after: ArchiveView)
    requires
        members_well_formed(before),
        0 <= victim < before.members.len(),
        basin.placements.len() == before.piece_count,
        !holds_fingerprint(before.members, basin.fingerprint),
        after.members == before.members.remove(victim).push(basin),
        after.capacity == before.capacity,
        after.threshold == before.threshold,
        after.piece_count == before.piece_count,
    ensures
        members_well_formed(after),
{
    let removed = before.members.remove(victim);
    assert forall|i: int| 0 <= i < removed.len()
        implies #[trigger] removed[i] == before.members[if i < victim { i } else { i + 1 }] by {}
    assert forall|i: int, j: int| 0 <= i < j < after.members.len()
        implies (#[trigger] after.members[i]).fingerprint != (#[trigger] after.members[j]).fingerprint by {
        let oi = if i < victim { i } else { i + 1 };
        if j == removed.len() {
            assert(after.members[i] == before.members[oi]);
        } else {
            let oj = if j < victim { j } else { j + 1 };
            assert(after.members[i] == before.members[oi]);
            assert(after.members[j] == before.members[oj]);
        }
    }
    assert forall|i: int| 0 <= i < after.members.len()
        implies (#[trigger] after.members[i]).placements.len() == after.piece_count by {
        if i < removed.len() {
            let oi = if i < victim { i } else { i + 1 };
            assert(after.members[i] == before.members[oi]);
        }
    }
}

proof fn lemma_remove_keeps_well_formed(before: ArchiveView, index: int, after: ArchiveView)
    requires
        members_well_formed(before),
        0 <= index < before.members.len(),
        after.members == before.members.remove(index),
        after.capacity == before.capacity,
        after.threshold == before.threshold,
        after.piece_count == before.piece_count,
    ensures
        members_well_formed(after),
{
    assert forall|i: int| 0 <= i < after.members.len()
        implies #[trigger] after.members[i] == before.members[if i < index { i } else { i + 1 }] by {}
    assert forall|i: int, j: int| 0 <= i < j < after.members.len()
        implies (#[trigger] after.members[i]).fingerprint != (#[trigger] after.members[j]).fingerprint by {
        let oi = if i < index { i } else { i + 1 };
        let oj = if j < index { j } else { j + 1 };
        assert(after.members[i] == before.members[oi]);
        assert(after.members[j] == before.members[oj]);
    }
}

/// The frontier never holds more than `count` basins, every basin it holds
/// comes from the order it was drawn from, and the overlap of each basin
/// taken before another with that other is below the threshold.
pub proof fn lemma_frontier_bounded_and_distinct(ordered: Seq<BasinView>, count: nat, threshold: u64)
    ensures
        frontier_of(ordered, count, threshold).len() <= count,
        frontier_of(ordered, count, threshold).len() <= ordered.len(),
        forall|i: int| 0 <= i < frontier_of(ordered, count, threshold).len()
            ==> ordered.contains(#[trigger] frontier_of(ordered, count, threshold)[i]),
        forall|i: int, j: int| 0 <= i < j < frontier_of(ordered, count, threshold).len()
            ==> overlap_below(
                (#[trigger] frontier_of(ordered, count, threshold)[i]).placements,
                (#[trigger] frontier_of(ordered, count, threshold)[j]).placements,
                threshold),
    decreases ordered.len(),
{
    if ordered.len() > 0 {
        let rest = ordered.drop_last();
        lemma_frontier_bounded_and_distinct(rest, count, threshold);
        let before = frontier_of(rest, count, threshold);
        let after = frontier_of(ordered, count, threshold);
        assert forall|i: int| 0 <= i < after.len() implies ordered.contains(#[trigger] after[i]) by {
            if i < before.len() {
                assert(after[i] == before[i]);
                assert(rest.contains(before[i]));
                let k = choose|k: int| 0 <= k < rest.len() && rest[k] == before[i];
                assert(ordered[k] == rest[k]);
            } else {
                assert(after[i] == ordered.last());
                assert(ordered[ordered.len() - 1] == ordered.last());
            }
        }
        assert forall|i: int, j: int| 0 <= i < j < after.len()
            implies overlap_below((#[trigger] after[i]).placements, (#[trigger] after[j]).placements, threshold) by {
            if j < before.len() {
                assert(after[i] == before[i] && after[j] == before[j]);
            } else {
                assert(after[i] == before[i]);
                assert(after[j] == ordered.last());
            }
        }
    }
}

/// The positions in `ordered` of the basins the greedy selection takes, in
/// the order it takes them.
pub open spec fn frontier_positions(ordered: Seq<BasinView>, count: nat, threshold: u64) -> Seq<int>
    decreases ordered.len(),
{
    if ordered.len() == 0 {
        Seq::empty()
    } else {
        let rest = ordered.drop_last();
        if frontier_takes(frontier_of(rest, count, threshold), ordered.last(), count, threshold) {
            frontier_positions(rest, count, threshold).push(ordered.len() - 1)
        } else {
            frontier_positions(rest, count, threshold)
        }
    }
}

/// Why the greedy selection over `ordered` did not take the basin at
/// position `p`, when it did not: a basin it took before `p` has an overlap
/// with it that is not below the threshold, or it was already full, all of
/// its `count` basins coming before `p`.
pub open spec fn passed_over(ordered: Seq<BasinView>, count: nat, threshold: u64, p: int) -> bool {
    let chosen = frontier_of(ordered, count, threshold);
    let at = frontier_positions(ordered, count, threshold);
    ||| exists|i: int| 0 <= i < at.len() && #[trigger] at[i] == p
    ||| exists|k: int| 0 <= k < at.len() && at[k] < p
        && !overlap_below((#[trigger] chosen[k]).placements, ordered[p].placements, threshold)
    ||| chosen.len() == count && forall|i: int| 0 <= i < at.len() ==> #[trigger] at[i] < p
}

proof fn lemma_frontier_step_shape(ordered: Seq<BasinView>, count: nat, threshold: u64)
    requires
        ordered.len() > 0,
    ensures
        frontier_takes(frontier_of(ordered.drop_last(), count, threshold), ordered.last(), count, threshold) ==> {
            &&& frontier_of(ordered, count, threshold)
                == frontier_of(ordered.drop_last(), count, threshold).push(ordered.last())
            &&& frontier_positions(ordered, count, threshold)
                == frontier_positions(ordered.drop_last(), count, threshold).push(ordered.len() - 1)
        },
        !frontier_takes(frontier_of(ordered.drop_last(), count, threshold), ordered.last(), count, threshold) ==> {
            &&& frontier_of(ordered, count, threshold) == frontier_of(ordered.drop_last(), count, threshold)
            &&& frontier_positions(ordered, count, threshold) == frontier_positions(ordered.drop_last(), count, threshold)
        },
{
}

/// The frontier is a subsequence of the order it is drawn from: its `i`-th
/// basin is the basin at position `positions[i]`, and the positions strictly
/// increase.
pub proof fn lemma_frontier_subsequence(ordered: Seq<BasinView>, count: nat, threshold: u64)
    ensures
        frontier_positions(ordered, count, threshold).len() == frontier_of(ordered, count, threshold).len(),
        forall|i: int| 0 <= i < frontier_positions(ordered, count, threshold).len() ==> {
            &&& 0 <= #[trigger] frontier_positions(ordered, count, threshold)[i] < ordered.len()
            &&& frontier_of(ordered, count, threshold)[i] == ordered[frontier_positions(ordered, count, threshold)[i]]
        },
        forall|i: int, j: int| 0 <= i < j < frontier_positions(ordered, count, threshold).len()
            ==> #[trigger] frontier_positions(ordered, count, threshold)[i]
                < #[trigger] frontier_positions(ordered, count, threshold)[j],
    decreases ordered.len(),
{
    if ordered.len() > 0 {
        let rest = ordered.drop_last();
        lemma_frontier_subsequence(rest, count, threshold);
        lemma_frontier_step_shape(ordered, count, threshold);
        let before = frontier_of(rest, count, threshold);
        let before_at = frontier_positions(rest, count, threshold);
        let after = frontier_of(ordered, count, threshold);
        let after_at = frontier_positions(ordered, count, threshold);
        assert forall|i: int| 0 <= i < after_at.len() implies {
            &&& 0 <= #[trigger] after_at[i] < ordered.len()
            &&& after[i] == ordered[after_at[i]]
        } by {
            if i < before_at.len() {
                assert(after_at[i] == before_at[i] && after[i] == before[i]);
                assert(ordered[before_at[i]] == rest[before_at[i]]);
            } else {
                assert(ordered[ordered.len() - 1] == ordered.last());
            }
        }
        assert forall|i: int, j: int| 0 <= i < j < after_at.len() implies #[trigger] after_at[i] < #[trigger] after_at[j] by {
            assert(after_at[i] == before_at[i]);
            if j < before_at.len() {
                assert(after_at[j] == before_at[j]);
            }
        }
    }
}

/// The frontier is the greedy selection's maximal result: every basin of
/// the order it did not take was passed over for a reason, a basin taken
/// before it having an overlap with it that is not below the threshold, or
/// the frontier being already full.
pub proof fn lemma_frontier_maximal(ordered: Seq<BasinView>, count: nat, threshold: u64)
    ensures
        forall|p: int| 0 <= p < ordered.len() ==> #[trigger] passed_over(ordered, count, threshold, p),
    decreases ordered.len(),
{
    if ordered.len() > 0 {
        let rest = ordered.drop_last();
        let n = ordered.len() - 1;
        lemma_frontier_maximal(rest, count, threshold);
        lemma_frontier_subsequence(rest, count, threshold);
        lemma_frontier_bounded_and_distinct(rest, count, threshold);
        lemma_frontier_step_shape(ordered, count, threshold);
        let before = frontier_of(rest, count, threshold);
        let before_at = frontier_positions(rest, count, threshold);
        let after = frontier_of(ordered, count, threshold);
        let after_at = frontier_positions(ordered, count, threshold);
        let taken = frontier_takes(before, ordered.last(), count, threshold);
        assert(ordered[n] == ordered.last());
        assert forall|p: int| 0 <= p < ordered.len() implies #[trigger] passed_over(ordered, count, threshold, p) by {
            if p < n {
                assert(ordered[p] == rest[p]);
                assert(passed_over(rest, count, threshold, p));
                if exists|i: int| 0 <= i < before_at.len() && #[trigger] before_at[i] == p {
                    let i = choose|i: int| 0 <= i < before_at.len() && #[trigger] before_at[i] == p;
                    assert(after_at[i] == p);
                } else if exists|k: int| 0 <= k < before_at.len() && before_at[k] < p
                    && !overlap_below((#[trigger] before[k]).placements, rest[p].placements, threshold) {
                    let k = choose|k: int| 0 <= k < before_at.len() && before_at[k] < p
                        && !overlap_below((#[trigger] before[k]).placements, rest[p].placements, threshold);
                    assert(after_at[k] == before_at[k] && after[k] == before[k]);
                } else {
                    assert(before.len() == count);
                    assert(!taken);
                }
            } else if taken {
                assert(after_at[before_at.len() as int] == p);
            } else {
                assert forall|i: int| 0 <= i < after_at.len() implies #[trigger] after_at[i] < p by {
                    assert(after_at[i] == before_at[i]);
                }
                if before.len() < count {
                    let k = choose|k: int| 0 <= k < before.len()
                        && !overlap_below(#[trigger] before[k].placements, ordered.last().placements, threshold);
                    assert(after_at[k] < p);
                }
            }
        }
    }
}

/// A smaller frontier is the start of a larger one: with room for `larger`
/// basins the greedy selection takes the same basins as with room for
/// `smaller`, and then perhaps more after them.
pub proof fn lemma_frontier_grows_by_count(ordered: Seq<BasinView>, smaller: nat, larger: nat, threshold: u64)
    requires
        smaller <= larger,
    ensures
        frontier_of(ordered, smaller, threshold).len() <= frontier_of(ordered, larger, threshold).len(),
        frontier_of(ordered, larger, threshold).take(frontier_of(ordered, smaller, threshold).len() as int)
            == frontier_of(ordered, smaller, threshold),
        frontier_of(ordered, smaller, threshold).len() < smaller
            ==> frontier_of(ordered, larger, threshold) == frontier_of(ordered, smaller, threshold),
    decreases ordered.len(),
{
    if ordered.len() > 0 {
        let rest = ordered.drop_last();
        lemma_frontier_grows_by_count(rest, smaller, larger, threshold);
        lemma_frontier_bounded_and_distinct(rest, smaller, threshold);
        let small = frontier_of(rest, smaller, threshold);
        let large = frontier_of(rest, larger, threshold);
        let small_after = frontier_of(ordered, smaller, threshold);
        let large_after = frontier_of(ordered, larger, threshold);
        if small.len() < smaller {
            assert(small == large);
        } else {
            assert(small_after == small);
            assert(large_after.take(small.len() as int) =~= small) by {
                assert(large.take(small.len() as int) == small);
                if large_after != large {
                    assert(large_after == large.push(ordered.last()));
                    assert(large_after.take(small.len() as int) =~= large.take(small.len() as int));
                }
            }
        }
    }
}

/// The order the frontier is drawn from holds exactly the members: as many
/// basins, each member in it and each of its basins a member.
pub proof fn lemma_ranked_order_holds_members(members: Seq<BasinView>)
    ensures
        sort_ranked(members).len() == members.len(),
        forall|j: int| 0 <= j < members.len() ==> sort_ranked(members).contains(#[trigger] members[j]),
        forall|k: int| 0 <= k < sort_ranked(members).len() ==> members.contains(#[trigger] sort_ranked(members)[k]),
{
    lemma_sort_ranked_is_stable_sort(members);
    lemma_stable_sort_len(members, rank_order());
    lemma_stable_sort_elements(members, rank_order());
}

/// The frontier's order as a relation.
pub open spec fn rank_order() -> spec_fn(BasinView, BasinView) -> bool {
    |first: BasinView, second: BasinView| ranks_before(first, second)
}

proof fn lemma_insert_ranked_is_insert_by(sorted: Seq<BasinView>, basin: BasinView)
    ensures
        insert_ranked(sorted, basin) == insert_by(sorted, basin, rank_order()),
    decreases sorted.len(),
{
    if sorted.len() > 0 && !ranks_before(basin, sorted[0]) {
        lemma_insert_ranked_is_insert_by(sorted.drop_first(), basin);
    }
}

proof fn lemma_sort_ranked_is_stable_sort(basins: Seq<BasinView>)
    ensures
        sort_ranked(basins) == stable_sort(basins, rank_order()),
    decreases basins.len(),
{
    if basins.len() > 0 {
        lemma_sort_ranked_is_stable_sort(basins.drop_last());
        lemma_insert_ranked_is_insert_by(sort_ranked(basins.drop_last()), basins.last());
    }
}

proof fn lemma_rank_order_is_strict()
    ensures
        strict_order(rank_order()),
{
    let order = rank_order();
    assert forall|a: BasinView| !#[trigger] order(a, a) by {
        lemma_lex_irreflexive(a.fingerprint);
    }
    assert forall|a: BasinView, b: BasinView, c: BasinView|
        #[trigger] order(a, b) && #[trigger] order(b, c) implies order(a, c) by {
        if lex_less(a.fingerprint, b.fingerprint) && lex_less(b.fingerprint, c.fingerprint) {
            lemma_lex_transitive(a.fingerprint, b.fingerprint, c.fingerprint);
        }
    }
}

proof fn lemma_frontier_keeps_order(ordered: Seq<BasinView>, count: nat, threshold: u64)
    requires
        sorted_by(ordered, rank_order()),
    ensures
        sorted_by(frontier_of(ordered, count, threshold), rank_order()),
    decreases ordered.len(),
{
    if ordered.len() > 0 {
        let rest = ordered.drop_last();
        assert forall|i: int, j: int| 0 <= i < j < rest.len()
            implies !rank_order()(#[trigger] rest[j], #[trigger] rest[i]) by {
            assert(rest[i] == ordered[i] && rest[j] == ordered[j]);
        }
        lemma_frontier_keeps_order(rest, count, threshold);
        lemma_frontier_bounded_and_distinct(rest, count, threshold);
        let before = frontier_of(rest, count, threshold);
        let after = frontier_of(ordered, count, threshold);
        assert forall|i: int, j: int| 0 <= i < j < after.len()
            implies !rank_order()(#[trigger] after[j], #[trigger] after[i]) by {
            if j < before.len() {
                assert(after[i] == before[i] && after[j] == before[j]);
            } else {
                assert(after[i] == before[i]);
                assert(after[j] == ordered.last());
                assert(rest.contains(before[i]));
                let k = choose|k: int| 0 <= k < rest.len() && rest[k] == before[i];
                assert(ordered[k] == before[i]);
                assert(ordered[ordered.len() - 1] == ordered.last());
            }
        }
    }
}

/// The frontier is best-first: no basin in it ranks before one taken
/// earlier, that is, shallower first, then less descended, then by
/// fingerprint.
pub proof fn lemma_frontier_is_best_first(members: Seq<BasinView>, count: nat, threshold: u64)
    ensures
        forall|i: int, j: int| 0 <= i < j < frontier_of(sort_ranked(members), count, threshold).len()
            ==> !ranks_before(
                #[trigger] frontier_of(sort_ranked(members), count, threshold)[j],
                #[trigger] frontier_of(sort_ranked(members), count, threshold)[i],
            ),
{
    lemma_sort_ranked_is_stable_sort(members);
    lemma_rank_order_is_strict();
    lemma_stable_sort_sorted(members, rank_order());
    lemma_frontier_keeps_order(sort_ranked(members), count, threshold);
    let frontier = frontier_of(sort_ranked(members), count, threshold);
    assert forall|i: int, j: int| 0 <= i < j < frontier.len()
        implies !ranks_before(#[trigger] frontier[j], #[trigger] frontier[i]) by {
        assert(!rank_order()(frontier[j], frontier[i]));
    }
}

/// How many of `members` were produced by an operator reported as `name`.
pub open spec fn count_named(members: Seq<BasinView>, name: Seq<char>) -> nat
    decreases members.len(),
{
    if members.len() == 0 {
        0
    } else {
        count_named(members.drop_last(), name)
            + if members.last().operator.reported_name() == name { 1nat } else { 0nat }
    }
}

/// How many retained basins one operator produced.
#[derive(Debug)]
pub struct OperatorTally {
    pub operator: String,
    pub basins: usize,
}

/// One archived basin, as reported.
#[derive(Debug)]
pub struct ArchiveMemberReport {
    pub fingerprint: String,
    pub raw_depth_bits: u64,
    pub birth_seconds_bits: u64,
    pub birth_work_units: u64,
    pub operator: String,
    pub parent_fingerprint: Option<String>,
    pub secondary_parent_fingerprint: Option<String>,
    pub exact_valid: bool,
    pub descents: usize,
}

/// The archive's occupancy, provenance mix and refusal counts.
#[derive(Debug)]
pub struct ArchiveReport {
    pub capacity: usize,
    pub occupancy: usize,
    /// The similarity threshold, as the bits of its `f64`.
    pub similarity_threshold_bits: u64,
    pub admitted: usize,
    pub duplicates: usize,
    pub evicted: usize,
    pub refused_full: usize,
    pub refused_incomplete: usize,
    /// Retained basins per operator, in the order of the operators' names.
    pub by_operator: Vec<OperatorTally>,
    /// `(birth seconds bits, occupancy)` after each admission.
    pub occupancy_over_time: Vec<(u64, usize)>,
    pub members: Vec<ArchiveMemberReport>,
}

/// Whether `member` reports `basin`.
pub open spec fn reports_member(member: ArchiveMemberReport, basin: BasinView) -> bool {
    &&& member.fingerprint@ == basin.fingerprint
    &&& member.raw_depth_bits == basin.raw_depth_bits
    &&& member.birth_seconds_bits == basin.birth_seconds_bits
    &&& member.birth_work_units == basin.birth_work_units
    &&& member.operator@ == basin.operator.reported_name()
    &&& option_view(member.parent_fingerprint) == basin.parent_fingerprint
    &&& option_view(member.secondary_parent_fingerprint) == basin.secondary_parent_fingerprint
    &&& member.exact_valid == basin.exact_valid
    &&& member.descents == basin.descents
}

/// Whether `tallies` is the per-operator count of `members`: one entry per
/// operator name that occurs, names strictly ascending, each with its count.
pub open spec fn tallies_members(tallies: Seq<OperatorTally>, members: Seq<BasinView>) -> bool {
    &&& forall|i: int, j: int| 0 <= i < j < tallies.len()
        ==> lex_less((#[trigger] tallies[i]).operator@, (#[trigger] tallies[j]).operator@)
    &&& forall|i: int| 0 <= i < tallies.len()
        ==> (#[trigger] tallies[i]).basins == count_named(members, tallies[i].operator@)
            && tallies[i].basins >= 1
    &&& forall|k: int| 0 <= k < members.len() ==> exists|i: int|
        0 <= i < tallies.len() && (#[trigger] tallies[i]).operator@ == (#[trigger] members[k]).operator.reported_name()
}

proof fn lemma_count_named_bounded(members: Seq<BasinView>, name: Seq<char>)
    ensures
        count_named(members, name) <= members.len(),
    decreases members.len(),
{
    if members.len() > 0 {
        lemma_count_named_bounded(members.drop_last(), name);
    }
}

proof fn lemma_count_named_positive(members: Seq<BasinView>, k: int)
    requires
        0 <= k < members.len(),
    ensures
        count_named(members, members[k].operator.reported_name()) >= 1,
    decreases members.len(),
{
    if k < members.len() - 1 {
        lemma_count_named_positive(members.drop_last(), k);
        assert(members.drop_last()[k] == members[k]);
    }
}

proof fn lemma_count_named_witness(members: Seq<BasinView>, name: Seq<char>)
    requires
        count_named(members, name) > 0,
    ensures
        exists|k: int| 0 <= k < members.len() && members[k].operator.reported_name() == name,
    decreases members.len(),
{
    if members.last().operator.reported_name() != name {
        lemma_count_named_witness(members.drop_last(), name);
        let k = choose|k: int| 0 <= k < members.drop_last().len() && members.drop_last()[k].operator.reported_name() == name;
        assert(members[k] == members.drop_last()[k]);
    } else {
        assert(members[members.len() - 1] == members.last());
    }
}

/// Archived basins, keyed by placement fingerprint.
pub struct SearchArchive {
    basins: Vec<ArchivedBasin>,
    capacity: usize,
    similarity_threshold: u64,
    piece_count: usize,
    admitted: usize,
    duplicates: usize,
    evicted: usize,
    refused_full: usize,
    refused_incomplete: usize,
    occupancy_samples: Vec<(u64, usize)>,
}

/// What an archive holds and has counted, as mathematical values.
pub struct ArchiveView {
    pub members: Seq<BasinView>,
    pub capacity: nat,
    /// The similarity threshold, as the bits of its `f64`.
    pub threshold: u64,
    pub piece_count: nat,
    pub admitted: nat,
    pub duplicates: nat,
    pub evicted: nat,
    pub refused_full: nat,
    pub refused_incomplete: nat,
    /// `(birth seconds bits, occupancy)` after each admission.
    pub occupancy: Seq<(u64, usize)>,
}

impl View for SearchArchive {
    type V = ArchiveView;

    closed spec fn view(&self) -> ArchiveView {
        ArchiveView {
            members: views(self.basins@),
            capacity: self.capacity as nat,
            threshold: self.similarity_threshold,
            piece_count: self.piece_count as nat,
            admitted: self.admitted as nat,
            duplicates: self.duplicates as nat,
            evicted: self.evicted as nat,
            refused_full: self.refused_full as nat,
            refused_incomplete: self.refused_incomplete as nat,
            occupancy: self.occupancy_samples@,
        }
    }
}

/// The archive's membership invariant: at least one slot, never over
/// capacity, every member complete, and no fingerprint held twice.
pub open spec fn members_well_formed(archive: ArchiveView) -> bool {
    &&& archive.capacity >= 1
    &&& archive.members.len() <= archive.capacity
    &&& forall|i: int| 0 <= i < archive.members.len()
        ==> (#[trigger] archive.members[i]).placements.len() == archive.piece_count
    &&& forall|i: int, j: int| 0 <= i < j < archive.members.len()
        ==> (#[trigger] archive.members[i]).fingerprint != (#[trigger] archive.members[j]).fingerprint
}

/// The archive's standing invariant: its membership is well formed, the
/// threshold is already clamped into `[0, 1]` (or a NaN), every admission
/// is either still a member or was counted as evicted, and there is one
/// occupancy sample per admission.
pub open spec fn archive_well_formed(archive: ArchiveView) -> bool {
    &&& members_well_formed(archive)
    &&& clamp_unit(archive.threshold) == archive.threshold
    &&& archive.members.len() + archive.evicted == archive.admitted
    &&& archive.occupancy.len() == archive.admitted
}

/// Room for one more of each count offering `basin` advances.
pub open spec fn offer_counts_have_room(archive: ArchiveView, basin: BasinView) -> bool {
    let complete = basin.placements.len() == archive.piece_count;
    let held = holds_fingerprint(archive.members, basin.fingerprint);
    let full = archive.members.len() >= archive.capacity;
    &&& !complete ==> archive.refused_incomplete < usize::MAX
    &&& complete && held ==> archive.duplicates < usize::MAX
    &&& complete && !held && !full ==> archive.admitted < usize::MAX
    &&& complete && !held && full && no_victim(archive.members, basin, archive.threshold)
        ==> archive.refused_full < usize::MAX
    &&& complete && !held && full && !no_victim(archive.members, basin, archive.threshold)
        ==> archive.admitted < usize::MAX && archive.evicted < usize::MAX
}

/// Room for one more descent of the basin carrying `fingerprint`.
pub open spec fn descents_have_room(archive: ArchiveView, fingerprint: Seq<char>) -> bool {
    forall|i: int| 0 <= i < archive.members.len() && (#[trigger] archive.members[i]).fingerprint == fingerprint
        ==> archive.members[i].descents < usize::MAX
}

/// `after` is `before` with the same configuration and the five counts moved
/// by the given amounts.
pub open spec fn counted(before: ArchiveView, after: ArchiveView, admitted: nat, duplicates: nat, evicted: nat, refused_full: nat, refused_incomplete: nat) -> bool {
    &&& after.capacity == before.capacity
    &&& after.threshold == before.threshold
    &&& after.piece_count == before.piece_count
    &&& after.admitted == before.admitted + admitted
    &&& after.duplicates == before.duplicates + duplicates
    &&& after.evicted == before.evicted + evicted
    &&& after.refused_full == before.refused_full + refused_full
    &&& after.refused_incomplete == before.refused_incomplete + refused_incomplete
}

/// Every admission is either still a member or was counted as evicted, and
/// there is one occupancy sample per admission: the occupancy is always the
/// admissions less the evictions, whatever sequence of offers, withdrawals
/// and descents led to it.
pub proof fn lemma_occupancy_balances(archive: ArchiveView)
    requires
        archive_well_formed(archive),
    ensures
        archive.members.len() == archive.admitted - archive.evicted,
        archive.occupancy.len() == archive.admitted,
        archive.evicted <= archive.admitted,
{
}

/// How many offers the archive has answered: each offer is counted exactly
/// once, as an admission, a duplicate, a full refusal or an incomplete
/// refusal.
pub open spec fn offers_answered(archive: ArchiveView) -> nat {
    archive.admitted + archive.duplicates + archive.refused_full + archive.refused_incomplete
}

/// The index of the first member carrying `fingerprint`.
pub open spec fn first_with_fingerprint(members: Seq<BasinView>, fingerprint: Seq<char>, index: int) -> bool {
    &&& 0 <= index < members.len()
    &&& members[index].fingerprint == fingerprint
    &&& forall|k: int| 0 <= k < index ==> (#[trigger] members[k]).fingerprint != fingerprint
}

impl SearchArchive {
    /// A new archive holding at most `capacity` basins (at least one) over
    /// `piece_count` pieces, with the similarity threshold clamped into
    /// `[0, 1]`.
    pub fn new(capacity: usize, piece_count: usize, threshold_bits: u64) -> (res: SearchArchive)
        ensures
            archive_well_formed(res@),
            res@.members.len() == 0,
            res@.capacity == if capacity >= 1 { capacity as nat } else { 1nat },
            res@.piece_count == piece_count,
            res@.threshold == clamp_unit(threshold_bits),
            res@.admitted == 0 && res@.duplicates == 0 && res@.evicted == 0,
            res@.refused_full == 0 && res@.refused_incomplete == 0,
            res@.occupancy.len() == 0,
    {
        let threshold = clamp_unit_bits(threshold_bits);
        proof {
            lemma_clamp_unit_idempotent(threshold_bits);
        }
        let result = SearchArchive {
            basins: Vec::new(),
            capacity: if capacity >= 1 { capacity } else { 1 },
            similarity_threshold: threshold,
            piece_count,
            admitted: 0,
            duplicates: 0,
            evicted: 0,
            refused_full: 0,
            refused_incomplete: 0,
            occupancy_samples: Vec::new(),
        };
        assert(views(result.basins@) =~= Seq::<BasinView>::empty());
        result
    }

    /// The similarity threshold in force, as the bits of its `f64`.
    pub fn similarity_threshold(&self) -> (res: u64)
        ensures
            res == self@.threshold,
    {
        self.similarity_threshold
    }

    /// Every retained basin, in admission order.
    pub fn basins(&self) -> (res: &[ArchivedBasin])
        ensures
            views(res@) == self@.members,
    {
        self.basins.as_slice()
    }

    fn holds(&self, fingerprint: &str) -> (res: Option<usize>)
        ensures
            match res {
                Some(index) => first_with_fingerprint(self@.members, fingerprint@, index as int),
                None => !holds_fingerprint(self@.members, fingerprint@),
            },
    {
        let mut i: usize = 0;
        while i < self.basins.len()
            invariant
                i <= self.basins.len(),
                forall|k: int| 0 <= k < i ==> (#[trigger] self@.members[k]).fingerprint != fingerprint@,
                self@.members == views(self.basins@),
            decreases self.basins.len() - i,
        {
            if str_equal(self.basins[i].fingerprint.as_str(), fingerprint) {
                return Some(i);
            }
            i = i + 1;
        }
        None
    }

    /// The member the eviction rule would remove for `candidate`: dominated
    /// and similar, deepest first; the candidate counts as a dominator but is
    /// never a victim.
    fn dominated_and_similar_victim(&self, candidate: &ArchivedBasin) -> (res: Option<usize>)
        requires
            self@.members == views(self.basins@),
        ensures
            match res {
                Some(victim) => is_victim(self@.members, candidate@, victim as int, self@.threshold),
                None => no_victim(self@.members, candidate@, self@.threshold),
            },
    {
        let ghost members = self@.members;
        let ghost threshold = self@.threshold;
        let mut worst: Option<(usize, u64)> = None;
        let mut index: usize = 0;
        while index < self.basins.len()
            invariant
                index <= self.basins.len(),
                members == self@.members,
                members == views(self.basins@),
                threshold == self@.threshold,
                match worst {
                    None => forall|i: int| 0 <= i < index ==> !#[trigger] dominated(members, candidate@, i, threshold),
                    Some((v, depth)) => {
                        &&& v < index
                        &&& dominated(members, candidate@, v as int, threshold)
                        &&& depth == members[v as int].raw_depth_bits
                        &&& forall|i: int| 0 <= i < index && #[trigger] dominated(members, candidate@, i, threshold) ==> {
                            &&& float_le(members[i].raw_depth_bits, depth)
                            &&& (i < v ==> float_less(members[i].raw_depth_bits, depth))
                        }
                    },
                },
            decreases self.basins.len() - index,
        {
            if self.is_dominated(index, candidate) {
                let member_depth = self.basins[index].raw_depth_bits;
                assert(members[index as int] == self.basins@[index as int]@);
                let replace = match worst {
                    None => true,
                    Some((_, depth)) => float_bits_less(depth, member_depth),
                };
                if replace {
                    worst = Some((index, member_depth));
                }
            }
            index = index + 1;
        }
        match worst {
            Some((v, _)) => Some(v),
            None => None,
        }
    }

    fn record(&mut self, basin: ArchivedBasin)
        requires
            old(self).basins@.len() < old(self).capacity,
            old(self).admitted < usize::MAX,
        ensures
            final(self).basins@ == old(self).basins@.push(basin),
            final(self).occupancy_samples@ == old(self).occupancy_samples@.push((basin.birth_seconds_bits, final(self).basins@.len() as usize)),
            final(self).admitted == old(self).admitted + 1,
            final(self).capacity == old(self).capacity,
            final(self).similarity_threshold == old(self).similarity_threshold,
            final(self).piece_count == old(self).piece_count,
            final(self).duplicates == old(self).duplicates,
            final(self).evicted == old(self).evicted,
            final(self).refused_full == old(self).refused_full,
            final(self).refused_incomplete == old(self).refused_incomplete,
    {
        self.admitted = self.admitted + 1;
        let occupancy = self.basins.len() + 1;
        self.occupancy_samples.push((basin.birth_seconds_bits, occupancy));
        self.basins.push(basin);
    }

    /// Offers a layout to the archive and reports what happened to it.
    ///
    /// An incomplete layout is refused first; then a fingerprint already held
    /// is a duplicate; under capacity everything else is admitted, whatever
    /// its depth; at capacity the deepest member that is both dominated and
    /// similar is evicted for it, and when there is none it is refused.
    pub fn offer(&mut self, basin: ArchivedBasin) -> (res: ArchiveDisposition)
        requires
            archive_well_formed(old(self)@),
            offer_counts_have_room(old(self)@, basin@),
        ensures
            archive_well_formed(final(self)@),
            offers_answered(final(self)@) == offers_answered(old(self)@) + 1,
            match res {
                ArchiveDisposition::IncompleteCardinality => {
                    &&& basin.placements@.len() != old(self)@.piece_count
                    &&& final(self)@.members == old(self)@.members
                    &&& final(self)@.occupancy == old(self)@.occupancy
                    &&& counted(old(self)@, final(self)@, 0, 0, 0, 0, 1)
                },
                ArchiveDisposition::Duplicate => {
                    &&& basin.placements@.len() == old(self)@.piece_count
                    &&& holds_fingerprint(old(self)@.members, basin.fingerprint@)
                    &&& final(self)@.members == old(self)@.members
                    &&& final(self)@.occupancy == old(self)@.occupancy
                    &&& counted(old(self)@, final(self)@, 0, 1, 0, 0, 0)
                },
                ArchiveDisposition::Admitted => {
                    &&& basin.placements@.len() == old(self)@.piece_count
                    &&& !holds_fingerprint(old(self)@.members, basin.fingerprint@)
                    &&& old(self)@.members.len() < old(self)@.capacity
                    &&& final(self)@.members == old(self)@.members.push(basin@)
                    &&& final(self)@.occupancy == old(self)@.occupancy.push(
                        (basin.birth_seconds_bits, final(self)@.members.len() as usize))
                    &&& counted(old(self)@, final(self)@, 1, 0, 0, 0, 0)
                },
                ArchiveDisposition::AdmittedAfterEviction => {
                    &&& basin.placements@.len() == old(self)@.piece_count
                    &&& !holds_fingerprint(old(self)@.members, basin.fingerprint@)
                    &&& old(self)@.members.len() == old(self)@.capacity
                    &&& exists|victim: int| {
                        &&& is_victim(old(self)@.members, basin@, victim, old(self)@.threshold)
                        &&& final(self)@.members == old(self)@.members.remove(victim).push(basin@)
                    }
                    &&& final(self)@.occupancy == old(self)@.occupancy.push(
                        (basin.birth_seconds_bits, final(self)@.members.len() as usize))
                    &&& counted(old(self)@, final(self)@, 1, 0, 1, 0, 0)
                },
                ArchiveDisposition::RefusedArchiveFullAllDistinct => {
                    &&& basin.placements@.len() == old(self)@.piece_count
                    &&& !holds_fingerprint(old(self)@.members, basin.fingerprint@)
                    &&& old(self)@.members.len() == old(self)@.capacity
                    &&& no_victim(old(self)@.members, basin@, old(self)@.threshold)
                    &&& final(self)@.members == old(self)@.members
                    &&& final(self)@.occupancy == old(self)@.occupancy
                    &&& counted(old(self)@, final(self)@, 0, 0, 0, 1, 0)
                },
            },
    {
        let ghost before = self@;
        if basin.placements.len() != self.piece_count {
            self.refused_incomplete = self.refused_incomplete + 1;
            return ArchiveDisposition::IncompleteCardinality;
        }
        if let Some(_) = self.holds(basin.fingerprint.as_str()) {
            self.duplicates = self.duplicates + 1;
            return ArchiveDisposition::Duplicate;
        }
        if self.basins.len() < self.capacity {
            self.record(basin);
            proof {
                assert(views(self.basins@) =~= before.members.push(basin@));
                lemma_push_keeps_well_formed(before, basin@, self@);
            }
            return ArchiveDisposition::Admitted;
        }
        let victim = self.dominated_and_similar_victim(&basin);
        match victim {
            None => {
                self.refused_full = self.refused_full + 1;
                ArchiveDisposition::RefusedArchiveFullAllDistinct
            },
            Some(victim) => {
                self.basins.remove(victim);
                self.evicted = self.evicted + 1;
                let ghost removed = views(self.basins@);
                assert(removed =~= before.members.remove(victim as int));
                self.record(basin);
                proof {
                    assert(views(self.basins@) =~= removed.push(basin@));
                    lemma_remove_push_keeps_well_formed(before, victim as int, basin@, self@);
                }
                ArchiveDisposition::AdmittedAfterEviction
            },
        }
    }

    /// Withdraws the basin carrying `fingerprint`, and says whether it was
    /// there to withdraw. A withdrawal is counted as an eviction.
    pub fn retire(&mut self, fingerprint: &str) -> (res: bool)
        requires
            archive_well_formed(old(self)@),
            old(self)@.evicted < usize::MAX,
        ensures
            archive_well_formed(final(self)@),
            res == holds_fingerprint(old(self)@.members, fingerprint@),
            res ==> exists|index: int| {
                &&& first_with_fingerprint(old(self)@.members, fingerprint@, index)
                &&& final(self)@.members == old(self)@.members.remove(index)
            },
            res ==> counted(old(self)@, final(self)@, 0, 0, 1, 0, 0),
            !res ==> final(self)@ == old(self)@,
            offers_answered(final(self)@) == offers_answered(old(self)@),
            final(self)@.occupancy == old(self)@.occupancy,
    {
        let ghost before = self@;
        match self.holds(fingerprint) {
            None => false,
            Some(index) => {
                self.basins.remove(index);
                self.evicted = self.evicted + 1;
                proof {
                    assert(views(self.basins@) =~= before.members.remove(index as int));
                    lemma_remove_keeps_well_formed(before, index as int, self@);
                }
                true
            },
        }
    }

    /// Marks the basin carrying `fingerprint` as having been used as an
    /// operator parent once more. Nothing happens when no basin carries it.
    pub fn charge_descent(&mut self, fingerprint: &str)
        requires
            archive_well_formed(old(self)@),
            descents_have_room(old(self)@, fingerprint@),
        ensures
            archive_well_formed(final(self)@),
            counted(old(self)@, final(self)@, 0, 0, 0, 0, 0),
            offers_answered(final(self)@) == offers_answered(old(self)@),
            final(self)@.occupancy == old(self)@.occupancy,
            !holds_fingerprint(old(self)@.members, fingerprint@) ==> final(self)@.members == old(self)@.members,
            holds_fingerprint(old(self)@.members, fingerprint@) ==> exists|index: int| {
                &&& first_with_fingerprint(old(self)@.members, fingerprint@, index)
                &&& final(self)@.members == old(self)@.members.update(index, BasinView {
                    descents: (old(self)@.members[index].descents + 1) as usize,
                    ..old(self)@.members[index]
                })
            },
    {
        let ghost before = self@;
        match self.holds(fingerprint) {
            None => {},
            Some(index) => {
                let mut basin = self.basins.remove(index);
                assert(basin@ == before.members[index as int]);
                basin.descents = basin.descents + 1;
                self.basins.insert(index, basin);
                proof {
                    let updated = BasinView {
                        descents: (before.members[index as int].descents + 1) as usize,
                        ..before.members[index as int]
                    };
                    assert(views(self.basins@) =~= before.members.update(index as int, updated));
                    assert forall|i: int, j: int| 0 <= i < j < self@.members.len()
                        implies (#[trigger] self@.members[i]).fingerprint != (#[trigger] self@.members[j]).fingerprint by {
                        assert(self@.members[i].fingerprint == before.members[i].fingerprint);
                        assert(self@.members[j].fingerprint == before.members[j].fingerprint);
                    }
                    assert forall|i: int| 0 <= i < self@.members.len()
                        implies (#[trigger] self@.members[i]).placements.len() == self@.piece_count by {
                        assert(self@.members[i].placements == before.members[i].placements);
                    }
                }
            },
        }
    }

    /// The `count` shallowest basins that are pairwise structurally
    /// distinct, shallowest first, ties broken toward the least descended and
    /// then by fingerprint. Distinctness is enforced within the selection:
    /// each basin in order is taken when its overlap with every basin already
    /// taken is below the threshold, so a NaN threshold takes only the first.
    pub fn distinct_frontier(&self, count: usize) -> (res: Vec<ArchivedBasin>)
        ensures
            views(res@) == frontier_of(sort_ranked(self@.members), count as nat, self@.threshold),
    {
        let ordered = self.ordered_by_rank();
        let ghost sorted = sort_ranked(self@.members);
        let ghost threshold = self@.threshold;
        let mut chosen: Vec<ArchivedBasin> = Vec::new();
        let mut i: usize = 0;
        while i < ordered.len()
            invariant
                i <= ordered.len(),
                views(ordered@) == sorted,
                threshold == self@.threshold,
                threshold == self.similarity_threshold,
                views(chosen@) == frontier_of(sorted.take(i as int), count as nat, threshold),
            decreases ordered.len() - i,
        {
            let ghost before = views(chosen@);
            assert(sorted.take(i as int + 1).drop_last() =~= sorted.take(i as int));
            assert(sorted.take(i as int + 1).last() == sorted[i as int]);
            assert(sorted[i as int] == ordered@[i as int]@);
            if chosen.len() < count {
                let basin = &ordered[i];
                let mut distinct = true;
                let mut k: usize = 0;
                while k < chosen.len()
                    invariant
                        k <= chosen.len(),
                        i < ordered.len(),
                        views(chosen@) == before,
                        threshold == self.similarity_threshold,
                        *basin == ordered@[i as int],
                        distinct == forall|j: int| 0 <= j < k
                            ==> overlap_below(#[trigger] before[j].placements, basin@.placements, threshold),
                    decreases chosen.len() - k,
                {
                    assert(before[k as int] == chosen@[k as int]@);
                    let below = overlap_less_than(&chosen[k].placements, &basin.placements, self.similarity_threshold);
                    assert(below == overlap_below(before[k as int].placements, basin@.placements, threshold));
                    if !below {
                        distinct = false;
                    }
                    k = k + 1;
                }
                if distinct {
                    chosen.push(basin.duplicate());
                    assert(views(chosen@) =~= before.push(basin@));
                }
            }
            i = i + 1;
        }
        assert(sorted.take(ordered.len() as int) =~= sorted);
        chosen
    }

    /// Copies of every member, in the frontier's order.
    fn ordered_by_rank(&self) -> (res: Vec<ArchivedBasin>)
        ensures
            views(res@) == sort_ranked(self@.members),
    {
        let ghost members = self@.members;
        let mut ordered: Vec<ArchivedBasin> = Vec::new();
        let mut i: usize = 0;
        while i < self.basins.len()
            invariant
                i <= self.basins.len(),
                members == views(self.basins@),
                members == self@.members,
                views(ordered@) == sort_ranked(members.take(i as int)),
            decreases self.basins.len() - i,
        {
            let basin = self.basins[i].duplicate();
            let ghost sorted_prefix = views(ordered@);
            assert(members.take(i as int + 1).drop_last() =~= members.take(i as int));
            assert(members.take(i as int + 1).last() == basin@);
            let mut pos: usize = 0;
            let mut found = false;
            while pos < ordered.len() && !found
                invariant
                    pos <= ordered.len(),
                    views(ordered@) == sorted_prefix,
                    forall|j: int| 0 <= j < pos ==> !ranks_before(basin@, #[trigger] sorted_prefix[j]),
                    found ==> pos < ordered.len() && ranks_before(basin@, sorted_prefix[pos as int]),
                decreases ordered.len() - pos + if found { 0int } else { 1int },
            {
                assert(sorted_prefix[pos as int] == ordered@[pos as int]@);
                if self.rank_before(&basin, &ordered[pos]) {
                    found = true;
                } else {
                    pos = pos + 1;
                }
            }
            proof {
                lemma_insert_ranked_at(sorted_prefix, basin@, pos as int);
            }
            ordered.insert(pos, basin);
            assert(views(ordered@) =~= sorted_prefix.insert(pos as int, members[i as int]));
            i = i + 1;
        }
        assert(members.take(self.basins.len() as int) =~= members);
        ordered
    }

    fn rank_before(&self, first: &ArchivedBasin, second: &ArchivedBasin) -> (res: bool)
        ensures
            res == ranks_before(first@, second@),
    {
        let first_key = total_order_key(first.raw_depth_bits);
        let second_key = total_order_key(second.raw_depth_bits);
        if first_key != second_key {
            first_key < second_key
        } else if first.descents != second.descents {
            first.descents < second.descents
        } else {
            str_less(first.fingerprint.as_str(), second.fingerprint.as_str())
        }
    }

    /// The archive's own report: its configuration and counts, the basins
    /// per operator, the occupancy after each admission, and every member.
    pub fn report(&self) -> (res: ArchiveReport)
        ensures
            res.capacity == self@.capacity,
            res.occupancy == self@.members.len(),
            res.similarity_threshold_bits == self@.threshold,
            res.admitted == self@.admitted,
            res.duplicates == self@.duplicates,
            res.evicted == self@.evicted,
            res.refused_full == self@.refused_full,
            res.refused_incomplete == self@.refused_incomplete,
            tallies_members(res.by_operator@, self@.members),
            res.occupancy_over_time@ == self@.occupancy,
            res.members@.len() == self@.members.len(),
            forall|i: int| 0 <= i < res.members@.len()
                ==> reports_member(#[trigger] res.members@[i], self@.members[i]),
    {
        let ghost members = self@.members;
        let mut by_operator: Vec<OperatorTally> = Vec::new();
        let mut reports: Vec<ArchiveMemberReport> = Vec::new();
        let mut i: usize = 0;
        while i < self.basins.len()
            invariant
                i <= self.basins.len(),
                members == views(self.basins@),
                members == self@.members,
                tallies_members(by_operator@, members.take(i as int)),
                reports@.len() == i,
                forall|k: int| 0 <= k < i ==> reports_member(#[trigger] reports@[k], members[k]),
            decreases self.basins.len() - i,
        {
            let basin = &self.basins[i];
            assert(members[i as int] == basin@);
            let name = basin.operator.name();
            let ghost before = by_operator@;
            let ghost prefix = members.take(i as int);
            let ghost extended = members.take(i as int + 1);
            assert(extended.drop_last() =~= prefix);
            assert(extended.last() == basin@);
            assert forall|k: int| 0 <= k < extended.len() implies #[trigger] extended[k] == members[k] by {}
            let mut j: usize = 0;
            let mut found: Option<usize> = None;
            while j < by_operator.len() && found.is_none()
                invariant
                    j <= by_operator.len(),
                    by_operator@ == before,
                    forall|t: int| 0 <= t < j ==> (#[trigger] before[t]).operator@ != name@,
                    match found {
                        Some(t) => t < before.len() && before[t as int].operator@ == name@,
                        None => true,
                    },
                decreases by_operator.len() - j + if found.is_none() { 1int } else { 0int },
            {
                if str_equal(by_operator[j].operator.as_str(), name.as_str()) {
                    found = Some(j);
                } else {
                    j = j + 1;
                }
            }
            match found {
                Some(t) => {
                    proof {
                        lemma_count_named_bounded(prefix, name@);
                    }
                    let mut entry = by_operator.remove(t);
                    entry.basins = entry.basins + 1;
                    by_operator.insert(t, entry);
                    proof {
                        assert forall|q: int| 0 <= q < by_operator@.len()
                            implies (#[trigger] by_operator@[q]).operator@ == before[q].operator@ by {}
                        assert forall|q: int| 0 <= q < by_operator@.len()
                            implies (#[trigger] by_operator@[q]).basins == count_named(extended, by_operator@[q].operator@)
                                && by_operator@[q].basins >= 1 by {
                            assert(extended.last().operator.reported_name() == name@);
                            if q != t {
                                assert(by_operator@[q] == before[q]);
                                if before[q].operator@ == name@ {
                                    lemma_lex_irreflexive(name@);
                                    if q < t {
                                        assert(lex_less(before[q].operator@, before[t as int].operator@));
                                    } else {
                                        assert(lex_less(before[t as int].operator@, before[q].operator@));
                                    }
                                }
                            }
                        }
                        assert forall|k: int| 0 <= k < extended.len() implies exists|q: int|
                            0 <= q < by_operator@.len() && (#[trigger] by_operator@[q]).operator@ == (#[trigger] extended[k]).operator.reported_name() by {
                            if k < prefix.len() {
                                assert(extended[k] == prefix[k]);
                                let q = choose|q: int| 0 <= q < before.len() && (#[trigger] before[q]).operator@ == prefix[k].operator.reported_name();
                                assert(by_operator@[q].operator@ == before[q].operator@);
                            } else {
                                assert(by_operator@[t as int].operator@ == before[t as int].operator@);
                            }
                        }
                        assert forall|a: int, b: int| 0 <= a < b < by_operator@.len()
                            implies lex_less((#[trigger] by_operator@[a]).operator@, (#[trigger] by_operator@[b]).operator@) by {
                            assert(by_operator@[a].operator@ == before[a].operator@);
                            assert(by_operator@[b].operator@ == before[b].operator@);
                        }
                    }
                },
                None => {
                    let mut pos: usize = 0;
                    let mut placed = false;
                    while pos < by_operator.len() && !placed
                        invariant
                            pos <= by_operator.len(),
                            by_operator@ == before,
                            forall|t: int| 0 <= t < pos ==> !lex_less(name@, (#[trigger] before[t]).operator@),
                            placed ==> pos < before.len() && lex_less(name@, before[pos as int].operator@),
                        decreases by_operator.len() - pos + if placed { 0int } else { 1int },
                    {
                        if str_less(name.as_str(), by_operator[pos].operator.as_str()) {
                            placed = true;
                        } else {
                            pos = pos + 1;
                        }
                    }
                    let ghost entry_name = name@;
                    by_operator.insert(pos, OperatorTally { operator: name, basins: 1 });
                    proof {
                        let after = by_operator@;
                        assert(after.len() == before.len() + 1);
                        assert forall|q: int| 0 <= q < pos implies #[trigger] after[q] == before[q] by {}
                        assert forall|q: int| pos < q < after.len() implies #[trigger] after[q] == before[q - 1] by {}
                        assert(after[pos as int].operator@ == entry_name);
                        assert forall|q: int| 0 <= q < before.len() implies #[trigger] before[q].operator@ != entry_name by {}
                        assert forall|q: int| 0 <= q < pos implies lex_less((#[trigger] before[q]).operator@, entry_name) by {
                            lemma_lex_total(before[q].operator@, entry_name);
                        }
                        assert forall|a: int, b: int| 0 <= a < b < after.len()
                            implies lex_less((#[trigger] after[a]).operator@, (#[trigger] after[b]).operator@) by {
                            if b < pos {
                            } else if b == pos {
                            } else if a < pos {
                                assert(after[b] == before[b - 1]);
                                if b - 1 > pos {
                                    assert(lex_less(before[pos as int].operator@, before[b - 1].operator@));
                                    lemma_lex_transitive(entry_name, before[pos as int].operator@, before[b - 1].operator@);
                                }
                                lemma_lex_transitive(after[a].operator@, entry_name, before[b - 1].operator@);
                            } else if a == pos {
                                assert(after[b] == before[b - 1]);
                                if b - 1 > pos {
                                    assert(lex_less(before[pos as int].operator@, before[b - 1].operator@));
                                    lemma_lex_transitive(entry_name, before[pos as int].operator@, before[b - 1].operator@);
                                }
                            } else {
                                assert(after[a] == before[a - 1]);
                                assert(after[b] == before[b - 1]);
                            }
                        }
                        assert forall|q: int| 0 <= q < after.len()
                            implies (#[trigger] after[q]).basins == count_named(extended, after[q].operator@)
                                && after[q].basins >= 1 by {
                            if q < pos {
                                assert(after[q] == before[q]);
                            } else if q > pos {
                                assert(after[q] == before[q - 1]);
                            } else {
                                assert(count_named(prefix, entry_name) == 0) by {
                                    if count_named(prefix, entry_name) > 0 {
                                        lemma_count_named_witness(prefix, entry_name);
                                        let k = choose|k: int| 0 <= k < prefix.len() && prefix[k].operator.reported_name() == entry_name;
                                        let q2 = choose|q2: int| 0 <= q2 < before.len() && (#[trigger] before[q2]).operator@ == (#[trigger] prefix[k]).operator.reported_name();
                                        assert(before[q2].operator@ != entry_name);
                                    }
                                }
                            }
                        }
                        assert forall|k: int| 0 <= k < extended.len() implies exists|q: int|
                            0 <= q < after.len() && (#[trigger] after[q]).operator@ == (#[trigger] extended[k]).operator.reported_name() by {
                            if k < prefix.len() {
                                assert(extended[k] == prefix[k]);
                                let q = choose|q: int| 0 <= q < before.len() && (#[trigger] before[q]).operator@ == prefix[k].operator.reported_name();
                                if q < pos {
                                    assert(after[q] == before[q]);
                                } else {
                                    assert(after[q + 1] == before[q]);
                                }
                            } else {
                                assert(after[pos as int].operator@ == entry_name);
                            }
                        }
                    }
                },
            }
            reports.push(ArchiveMemberReport {
                fingerprint: basin.fingerprint.clone(),
                raw_depth_bits: basin.raw_depth_bits,
                birth_seconds_bits: basin.birth_seconds_bits,
                birth_work_units: basin.birth_work_units,
                operator: basin.operator.name(),
                parent_fingerprint: duplicate_option(&basin.parent_fingerprint),
                secondary_parent_fingerprint: duplicate_option(&basin.secondary_parent_fingerprint),
                exact_valid: basin.exact_valid,
                descents: basin.descents,
            });
            i = i + 1;
        }
        assert(members.take(self.basins.len() as int) =~= members);
        let mut over_time: Vec<(u64, usize)> = Vec::new();
        let mut k: usize = 0;
        while k < self.occupancy_samples.len()
            invariant
                k <= self.occupancy_samples.len(),
                over_time@ == self.occupancy_samples@.take(k as int),
            decreases self.occupancy_samples.len() - k,
        {
            over_time.push(self.occupancy_samples[k]);
            assert(self.occupancy_samples@.take(k as int + 1) =~= self.occupancy_samples@.take(k as int).push(self.occupancy_samples@[k as int]));
            k = k + 1;
        }
        assert(self.occupancy_samples@.take(self.occupancy_samples.len() as int) =~= self.occupancy_samples@);
        ArchiveReport {
            capacity: self.capacity,
            occupancy: self.basins.len(),
            similarity_threshold_bits: self.similarity_threshold,
            admitted: self.admitted,
            duplicates: self.duplicates,
            evicted: self.evicted,
            refused_full: self.refused_full,
            refused_incomplete: self.refused_incomplete,
            by_operator,
            occupancy_over_time: over_time,
            members: reports,
        }
    }

    fn is_dominated(&self, index: usize, candidate: &ArchivedBasin) -> (res: bool)
        requires
            index < self@.members.len(),
            self@.members == views(self.basins@),
        ensures
            res == dominated(self@.members, candidate@, index as int, self@.threshold),
    {
        let member = &self.basins[index];
        let member_depth = member.raw_depth_bits;
        let ghost members = self@.members;
        let ghost threshold = self@.threshold;
        let mut other: usize = 0;
        while other < self.basins.len()
            invariant
                other <= self.basins.len(),
                index < self.basins.len(),
                members == views(self.basins@),
                members == self@.members,
                threshold == self@.threshold,
                member_depth == members[index as int].raw_depth_bits,
                *member == self.basins@[index as int],
                forall|o: int| 0 <= o < other && o != index ==> !(
                    float_le(#[trigger] members[o].raw_depth_bits, members[index as int].raw_depth_bits)
                    && overlap_reaches(members[o].placements, members[index as int].placements, threshold)),
            decreases self.basins.len() - other,
        {
            if other != index {
                let candidate_other = &self.basins[other];
                if float_bits_le(candidate_other.raw_depth_bits, member_depth)
                    && overlap_at_least(&candidate_other.placements, &member.placements, self.similarity_threshold)
                {
                    assert(members[other as int] == self.basins@[other as int]@);
                    return true;
                }
            }
            other = other + 1;
        }
        float_bits_le(candidate.raw_depth_bits, member_depth)
            && overlap_at_least(&candidate.placements, &member.placements, self.similarity_threshold)
    }
}

} // verus!
