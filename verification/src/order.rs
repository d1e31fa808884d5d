//! Stable insertion into an ordered sequence, as a specification: the order
//! the reports are sorted in, stated once for every row type.
use vstd::prelude::*;

verus! {

/// `sorted` with `item` inserted after every element it does not sort
/// strictly before.
pub open spec fn insert_by<T>(sorted: Seq<T>, item: T, before: spec_fn(T, T) -> bool) -> Seq<T>
    decreases sorted.len(),
{
    if sorted.len() == 0 {
        seq![item]
    } else if before(item, sorted[0]) {
        seq![item] + sorted
    } else {
        seq![sorted[0]] + insert_by(sorted.drop_first(), item, before)
    }
}

/// `items` sorted by `before`, elements that neither sorts before keeping
/// their order: what a stable sort returns.
pub open spec fn stable_sort<T>(items: Seq<T>, before: spec_fn(T, T) -> bool) -> Seq<T>
    decreases items.len(),
{
    if items.len() == 0 {
        items
    } else {
        insert_by(stable_sort(items.drop_last(), before), items.last(), before)
    }
}

/// Inserting at the first position whose element `item` sorts before is the
/// specified insertion.
pub proof fn lemma_insert_by_at<T>(sorted: Seq<T>, item: T, before: spec_fn(T, T) -> bool, pos: int)
    requires
        0 <= pos <= sorted.len(),
        forall|j: int| 0 <= j < pos ==> !before(item, #[trigger] sorted[j]),
        pos < sorted.len() ==> before(item, sorted[pos]),
    ensures
        insert_by(sorted, item, before) == sorted.insert(pos, item),
    decreases sorted.len(),
{
    if sorted.len() == 0 {
        assert(sorted.insert(pos, item) =~= seq![item]);
    } else if pos == 0 {
        assert(sorted.insert(0, item) =~= seq![item] + sorted);
    } else {
        let rest = sorted.drop_first();
        assert forall|j: int| 0 <= j < pos - 1 implies !before(item, #[trigger] rest[j]) by {
            assert(rest[j] == sorted[j + 1]);
        }
        lemma_insert_by_at(rest, item, before, pos - 1);
        assert(seq![sorted[0]] + rest.insert(pos - 1, item) =~= sorted.insert(pos, item));
    }
}

/// The stable sort of one more element is the insertion of that element.
pub proof fn lemma_stable_sort_step<T>(items: Seq<T>, k: int, before: spec_fn(T, T) -> bool)
    requires
        0 <= k < items.len(),
    ensures
        stable_sort(items.take(k + 1), before) == insert_by(stable_sort(items.take(k), before), items[k], before),
{
    assert(items.take(k + 1).drop_last() =~= items.take(k));
    assert(items.take(k + 1).last() == items[k]);
}

/// Insertion adds exactly one element.
pub proof fn lemma_insert_by_len<T>(sorted: Seq<T>, item: T, before: spec_fn(T, T) -> bool)
    ensures
        insert_by(sorted, item, before).len() == sorted.len() + 1,
    decreases sorted.len(),
{
    if sorted.len() > 0 && !before(item, sorted[0]) {
        lemma_insert_by_len(sorted.drop_first(), item, before);
    }
}

/// Sorting keeps the length.
pub proof fn lemma_stable_sort_len<T>(items: Seq<T>, before: spec_fn(T, T) -> bool)
    ensures
        stable_sort(items, before).len() == items.len(),
    decreases items.len(),
{
    if items.len() > 0 {
        lemma_stable_sort_len(items.drop_last(), before);
        lemma_insert_by_len(stable_sort(items.drop_last(), before), items.last(), before);
    }
}

/// How many elements of `items` satisfy `keep`.
pub open spec fn count_where<T>(items: Seq<T>, keep: spec_fn(T) -> bool) -> nat
    decreases items.len(),
{
    if items.len() == 0 {
        0
    } else {
        count_where(items.drop_last(), keep) + if keep(items.last()) { 1nat } else { 0nat }
    }
}

/// At most every element is counted.
pub proof fn lemma_count_where_bound<T>(items: Seq<T>, keep: spec_fn(T) -> bool)
    ensures
        count_where(items, keep) <= items.len(),
    decreases items.len(),
{
    if items.len() > 0 {
        lemma_count_where_bound(items.drop_last(), keep);
    }
}

/// Nothing is counted when no element qualifies.
pub proof fn lemma_count_where_none<T>(items: Seq<T>, keep: spec_fn(T) -> bool)
    requires
        forall|i: int| 0 <= i < items.len() ==> !keep(#[trigger] items[i]),
    ensures
        count_where(items, keep) == 0,
    decreases items.len(),
{
    if items.len() > 0 {
        let rest = items.drop_last();
        assert forall|i: int| 0 <= i < rest.len() implies !keep(#[trigger] rest[i]) by {
            assert(rest[i] == items[i]);
        }
        lemma_count_where_none(rest, keep);
        assert(!keep(items[items.len() - 1]));
    }
}

/// Counting under a wider condition counts at least as many, and more when
/// some element meets only the wider one.
pub proof fn lemma_count_where_grows<T>(items: Seq<T>, keep: spec_fn(T) -> bool, wider: spec_fn(T) -> bool)
    requires
        forall|i: int| 0 <= i < items.len() && keep(#[trigger] items[i]) ==> wider(items[i]),
    ensures
        count_where(items, keep) <= count_where(items, wider),
        (exists|k: int| 0 <= k < items.len() && wider(#[trigger] items[k]) && !keep(items[k]))
            ==> count_where(items, keep) < count_where(items, wider),
    decreases items.len(),
{
    if items.len() > 0 {
        let rest = items.drop_last();
        assert forall|i: int| 0 <= i < rest.len() && keep(#[trigger] rest[i]) implies wider(rest[i]) by {
            assert(rest[i] == items[i]);
        }
        lemma_count_where_grows(rest, keep, wider);
        assert(items[items.len() - 1] == items.last());
        if exists|k: int| 0 <= k < items.len() && wider(#[trigger] items[k]) && !keep(items[k]) {
            let k = choose|k: int| 0 <= k < items.len() && wider(#[trigger] items[k]) && !keep(items[k]);
            if k < rest.len() {
                assert(rest[k] == items[k]);
            }
        }
    }
}

/// An element left uncounted leaves the count below the length.
pub proof fn lemma_count_where_misses<T>(items: Seq<T>, keep: spec_fn(T) -> bool, k: int)
    requires
        0 <= k < items.len(),
        !keep(items[k]),
    ensures
        count_where(items, keep) < items.len(),
    decreases items.len(),
{
    let rest = items.drop_last();
    if k < items.len() - 1 {
        assert(rest[k] == items[k]);
        lemma_count_where_misses(rest, keep, k);
    } else {
        lemma_count_where_bound(rest, keep);
    }
}

/// What a sequence holds after a push.
pub proof fn lemma_push_contains<T>(items: Seq<T>, item: T, x: T)
    ensures
        items.push(item).contains(x) == (items.contains(x) || x == item),
{
    let pushed = items.push(item);
    if items.contains(x) {
        let k = choose|k: int| 0 <= k < items.len() && items[k] == x;
        assert(pushed[k] == x);
    }
    if x == item {
        assert(pushed[items.len() as int] == x);
    }
    if pushed.contains(x) && x != item {
        let k = choose|k: int| 0 <= k < pushed.len() && pushed[k] == x;
        assert(k < items.len());
        assert(items[k] == x);
    }
}

/// Whether no element of `items` sorts strictly before an earlier one.
pub open spec fn sorted_by<T>(items: Seq<T>, before: spec_fn(T, T) -> bool) -> bool {
    forall|i: int, j: int| 0 <= i < j < items.len() ==> !before(#[trigger] items[j], #[trigger] items[i])
}

/// Whether `before` is a strict order: irreflexive and transitive.
pub open spec fn strict_order<T>(before: spec_fn(T, T) -> bool) -> bool {
    &&& forall|a: T| !#[trigger] before(a, a)
    &&& forall|a: T, b: T, c: T| #[trigger] before(a, b) && #[trigger] before(b, c) ==> before(a, c)
}

/// Every element of an insertion is the inserted item or one of `sorted`'s.
pub proof fn lemma_insert_by_elements<T>(sorted: Seq<T>, item: T, before: spec_fn(T, T) -> bool)
    ensures
        forall|k: int| 0 <= k < insert_by(sorted, item, before).len() ==> {
            ||| #[trigger] insert_by(sorted, item, before)[k] == item
            ||| exists|j: int| 0 <= j < sorted.len() && insert_by(sorted, item, before)[k] == sorted[j]
        },
    decreases sorted.len(),
{
    lemma_insert_by_len(sorted, item, before);
    if sorted.len() == 0 {
    } else if before(item, sorted[0]) {
        let out = insert_by(sorted, item, before);
        assert forall|k: int| 0 <= k < out.len() implies {
            ||| #[trigger] out[k] == item
            ||| exists|j: int| 0 <= j < sorted.len() && out[k] == sorted[j]
        } by {
            if k > 0 {
                assert(out[k] == sorted[k - 1]);
            }
        }
    } else {
        let rest = sorted.drop_first();
        lemma_insert_by_elements(rest, item, before);
        let inner = insert_by(rest, item, before);
        let out = insert_by(sorted, item, before);
        assert(out == seq![sorted[0]] + inner);
        assert forall|k: int| 0 <= k < out.len() implies {
            ||| #[trigger] out[k] == item
            ||| exists|j: int| 0 <= j < sorted.len() && out[k] == sorted[j]
        } by {
            if k == 0 {
                assert(out[0] == sorted[0]);
            } else {
                assert(out[k] == inner[k - 1]);
                if inner[k - 1] != item {
                    let j = choose|j: int| 0 <= j < rest.len() && inner[k - 1] == rest[j];
                    assert(rest[j] == sorted[j + 1]);
                }
            }
        }
    }
}

/// An insertion holds the inserted item and every element of `sorted`.
pub proof fn lemma_insert_by_keeps<T>(sorted: Seq<T>, item: T, before: spec_fn(T, T) -> bool)
    ensures
        insert_by(sorted, item, before).contains(item),
        forall|j: int| 0 <= j < sorted.len() ==> insert_by(sorted, item, before).contains(#[trigger] sorted[j]),
    decreases sorted.len(),
{
    let out = insert_by(sorted, item, before);
    if sorted.len() == 0 {
        assert(out[0] == item);
    } else if before(item, sorted[0]) {
        assert(out[0] == item);
        assert forall|j: int| 0 <= j < sorted.len() implies out.contains(#[trigger] sorted[j]) by {
            assert(out[j + 1] == sorted[j]);
        }
    } else {
        let rest = sorted.drop_first();
        lemma_insert_by_keeps(rest, item, before);
        let inner = insert_by(rest, item, before);
        assert(out == seq![sorted[0]] + inner);
        let k = choose|k: int| 0 <= k < inner.len() && inner[k] == item;
        assert(out[k + 1] == item);
        assert forall|j: int| 0 <= j < sorted.len() implies out.contains(#[trigger] sorted[j]) by {
            if j == 0 {
                assert(out[0] == sorted[0]);
            } else {
                assert(rest[j - 1] == sorted[j]);
                assert(inner.contains(rest[j - 1]));
                let m = choose|m: int| 0 <= m < inner.len() && inner[m] == rest[j - 1];
                assert(out[m + 1] == sorted[j]);
            }
        }
    }
}

/// A stable sort holds exactly the elements of its input.
pub proof fn lemma_stable_sort_elements<T>(items: Seq<T>, before: spec_fn(T, T) -> bool)
    ensures
        forall|j: int| 0 <= j < items.len() ==> stable_sort(items, before).contains(#[trigger] items[j]),
        forall|k: int| 0 <= k < stable_sort(items, before).len() ==> items.contains(#[trigger] stable_sort(items, before)[k]),
    decreases items.len(),
{
    if items.len() > 0 {
        let rest = items.drop_last();
        lemma_stable_sort_elements(rest, before);
        let sorted = stable_sort(rest, before);
        lemma_insert_by_keeps(sorted, items.last(), before);
        lemma_insert_by_elements(sorted, items.last(), before);
        let out = stable_sort(items, before);
        assert forall|j: int| 0 <= j < items.len() implies out.contains(#[trigger] items[j]) by {
            if j == items.len() - 1 {
            } else {
                assert(rest[j] == items[j]);
                assert(sorted.contains(rest[j]));
                let m = choose|m: int| 0 <= m < sorted.len() && sorted[m] == rest[j];
                assert(out.contains(sorted[m]));
            }
        }
        assert forall|k: int| 0 <= k < out.len() implies items.contains(#[trigger] out[k]) by {
            if out[k] == items.last() {
                assert(items[items.len() - 1] == items.last());
            } else {
                let m = choose|m: int| 0 <= m < sorted.len() && out[k] == sorted[m];
                assert(rest.contains(sorted[m]));
                let r = choose|r: int| 0 <= r < rest.len() && rest[r] == sorted[m];
                assert(items[r] == rest[r]);
            }
        }
    }
}

/// Inserting into a sorted sequence under a strict order keeps it sorted.
pub proof fn lemma_insert_by_sorted<T>(sorted: Seq<T>, item: T, before: spec_fn(T, T) -> bool)
    requires
        sorted_by(sorted, before),
        strict_order(before),
    ensures
        sorted_by(insert_by(sorted, item, before), before),
    decreases sorted.len(),
{
    let out = insert_by(sorted, item, before);
    lemma_insert_by_len(sorted, item, before);
    if sorted.len() == 0 {
    } else if before(item, sorted[0]) {
        assert(out == seq![item] + sorted);
        assert forall|i: int, j: int| 0 <= i < j < out.len() implies !before(#[trigger] out[j], #[trigger] out[i]) by {
            if i == 0 {
                assert(out[j] == sorted[j - 1]);
                if before(sorted[j - 1], item) {
                    assert(before(sorted[j - 1], sorted[0]));
                }
            } else {
                assert(out[i] == sorted[i - 1]);
                assert(out[j] == sorted[j - 1]);
            }
        }
    } else {
        let rest = sorted.drop_first();
        assert forall|i: int, j: int| 0 <= i < j < rest.len() implies !before(#[trigger] rest[j], #[trigger] rest[i]) by {
            assert(rest[i] == sorted[i + 1]);
            assert(rest[j] == sorted[j + 1]);
        }
        lemma_insert_by_sorted(rest, item, before);
        lemma_insert_by_elements(rest, item, before);
        let inner = insert_by(rest, item, before);
        assert(out == seq![sorted[0]] + inner);
        assert forall|i: int, j: int| 0 <= i < j < out.len() implies !before(#[trigger] out[j], #[trigger] out[i]) by {
            if i == 0 {
                assert(out[0] == sorted[0]);
                assert(out[j] == inner[j - 1]);
                if inner[j - 1] != item {
                    let m = choose|m: int| 0 <= m < rest.len() && inner[j - 1] == rest[m];
                    assert(rest[m] == sorted[m + 1]);
                }
            } else {
                assert(out[i] == inner[i - 1]);
                assert(out[j] == inner[j - 1]);
            }
        }
    }
}

/// A stable sort under a strict order is sorted.
pub proof fn lemma_stable_sort_sorted<T>(items: Seq<T>, before: spec_fn(T, T) -> bool)
    requires
        strict_order(before),
    ensures
        sorted_by(stable_sort(items, before), before),
    decreases items.len(),
{
    if items.len() > 0 {
        lemma_stable_sort_sorted(items.drop_last(), before);
        lemma_insert_by_sorted(stable_sort(items.drop_last(), before), items.last(), before);
    }
}

} // verus!
