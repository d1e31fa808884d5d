//! The ledger's integer half: the genealogy of the basins the search made
//! and the archive selections the ledger reports against.
//!
//! A parent edge is a `(child, parent)` pair of placement fingerprints. The
//! genealogy keeps each edge once and drops an edge from a layout to itself;
//! what reaches what is then a matter of following edges, up towards the
//! ancestors or down towards the descendants.
use vstd::prelude::*;
use crate::portfolio::archive::{
    frontier_of, lemma_frontier_bounded_and_distinct, lemma_frontier_grows_by_count, lemma_ranked_order_holds_members,
    option_view, sort_ranked, views, ArchivedBasin, BasinView, SearchArchive,
};
use crate::bits::{total_key, total_order_key};
use crate::order::{count_where, insert_by, lemma_count_where_grows, lemma_count_where_misses, lemma_insert_by_at, stable_sort};
use crate::text::{lemma_lex_irreflexive, lemma_lex_total, lemma_lex_transitive, lex_less, str_equal, str_less};

verus! {

/// The fingerprints of a sequence of names.
pub open spec fn name_views(names: Seq<String>) -> Seq<Seq<char>> {
    names.map_values(|name: String| name@)
}

/// The fingerprint pairs of a sequence of edges.
pub open spec fn edge_views(edges: Seq<(String, String)>) -> Seq<(Seq<char>, Seq<char>)> {
    edges.map_values(|edge: (String, String)| (edge.0@, edge.1@))
}

/// The edges kept from `edges`: each edge in first-seen order, without the
/// edges from a layout to itself and without repeats.
pub open spec fn kept_edges(edges: Seq<(Seq<char>, Seq<char>)>) -> Seq<(Seq<char>, Seq<char>)>
    decreases edges.len(),
{
    if edges.len() == 0 {
        Seq::empty()
    } else {
        let kept = kept_edges(edges.drop_last());
        let edge = edges.last();
        if edge.0 == edge.1 || kept.contains(edge) {
            kept
        } else {
            kept.push(edge)
        }
    }
}

fn holds_name(names: &Vec<String>, name: &String) -> (res: bool)
    ensures
        res == name_views(names@).contains(name@),
{
    let ghost views = name_views(names@);
    let mut i: usize = 0;
    while i < names.len()
        invariant
            i <= names.len(),
            views == name_views(names@),
            forall|k: int| 0 <= k < i ==> views[k] != name@,
        decreases names.len() - i,
    {
        if str_equal(names[i].as_str(), name.as_str()) {
            assert(views[i as int] == name@);
            return true;
        }
        i = i + 1;
    }
    false
}

fn holds_edge(edges: &Vec<(String, String)>, child: &String, parent: &String) -> (res: bool)
    ensures
        res == edge_views(edges@).contains((child@, parent@)),
{
    let ghost views = edge_views(edges@);
    let mut i: usize = 0;
    while i < edges.len()
        invariant
            i <= edges.len(),
            views == edge_views(edges@),
            forall|k: int| 0 <= k < i ==> views[k] != (child@, parent@),
        decreases edges.len() - i,
    {
        if str_equal(edges[i].0.as_str(), child.as_str()) && str_equal(edges[i].1.as_str(), parent.as_str()) {
            assert(views[i as int] == (child@, parent@));
            return true;
        }
        i = i + 1;
    }
    false
}

/// The parent edges of a genealogy: `edges` in first-seen order, an edge
/// from a layout to itself dropped, and an edge already kept not kept again.
pub fn parent_edges(edges: &Vec<(String, String)>) -> (res: Vec<(String, String)>)
    ensures
        edge_views(res@) == kept_edges(edge_views(edges@)),
{
    let ghost all = edge_views(edges@);
    let mut kept: Vec<(String, String)> = Vec::new();
    let mut i: usize = 0;
    while i < edges.len()
        invariant
            i <= edges.len(),
            all == edge_views(edges@),
            edge_views(kept@) == kept_edges(all.take(i as int)),
        decreases edges.len() - i,
    {
        let child = &edges[i].0;
        let parent = &edges[i].1;
        assert(all.take(i as int + 1).drop_last() =~= all.take(i as int));
        assert(all.take(i as int + 1).last() == (child@, parent@));
        if !str_equal(child.as_str(), parent.as_str()) && !holds_edge(&kept, child, parent) {
            kept.push((child.clone(), parent.clone()));
            assert(edge_views(kept@) =~= kept_edges(all.take(i as int)).push((child@, parent@)));
        }
        i = i + 1;
    }
    assert(all.take(edges.len() as int) =~= all);
    kept
}

/// The kept edges are exactly the edges between two different layouts,
/// each kept once.
pub proof fn lemma_kept_edges_exact(edges: Seq<(Seq<char>, Seq<char>)>)
    ensures
        kept_edges(edges).no_duplicates(),
        forall|edge: (Seq<char>, Seq<char>)|
            #[trigger] kept_edges(edges).contains(edge) <==> edges.contains(edge) && edge.0 != edge.1,
    decreases edges.len(),
{
    if edges.len() > 0 {
        let rest = edges.drop_last();
        lemma_kept_edges_exact(rest);
        let kept = kept_edges(rest);
        let last = edges.last();
        assert forall|edge: (Seq<char>, Seq<char>)|
            #[trigger] kept_edges(edges).contains(edge) <==> edges.contains(edge) && edge.0 != edge.1 by {
            if edges.contains(edge) && edge != last {
                let k = choose|k: int| 0 <= k < edges.len() && edges[k] == edge;
                assert(k < rest.len());
                assert(rest[k] == edge);
            }
            if rest.contains(edge) {
                let k = choose|k: int| 0 <= k < rest.len() && rest[k] == edge;
                assert(edges[k] == edge);
            }
            assert(edges[edges.len() - 1] == last);
            if !(last.0 == last.1 || kept.contains(last)) {
                if kept.push(last).contains(edge) && edge != last {
                    let k = choose|k: int| 0 <= k < kept.push(last).len() && kept.push(last)[k] == edge;
                    assert(kept[k] == edge);
                }
                if kept.contains(edge) {
                    let k = choose|k: int| 0 <= k < kept.len() && kept[k] == edge;
                    assert(kept.push(last)[k] == edge);
                }
                if edge == last {
                    assert(kept.push(last)[kept.len() as int] == edge);
                }
            }
        }
    }
}

/// Whether one step along `edges` leads from `from` to `to`: up from a child
/// to one of its parents, or down from a parent to one of its children.
pub open spec fn steps(edges: Seq<(Seq<char>, Seq<char>)>, from: Seq<char>, to: Seq<char>, upward: bool) -> bool {
    if upward { edges.contains((from, to)) } else { edges.contains((to, from)) }
}

/// Whether `chain` is a walk along `edges` in one direction.
pub open spec fn is_walk(edges: Seq<(Seq<char>, Seq<char>)>, chain: Seq<Seq<char>>, upward: bool) -> bool {
    &&& chain.len() >= 1
    &&& forall|i: int| 0 <= i < chain.len() - 1 ==> steps(edges, #[trigger] chain[i], chain[i + 1], upward)
}

/// Whether a walk along `edges` in one direction leads from `from` to `to`;
/// every layout reaches itself.
pub open spec fn reaches(edges: Seq<(Seq<char>, Seq<char>)>, from: Seq<char>, to: Seq<char>, upward: bool) -> bool {
    exists|chain: Seq<Seq<char>>| is_walk(edges, chain, upward) && chain[0] == from && chain.last() == to
}

/// Whether `names` holds the far end of every step from a name it holds.
pub open spec fn closed_under(edges: Seq<(Seq<char>, Seq<char>)>, names: Seq<Seq<char>>, upward: bool) -> bool {
    forall|j: int| 0 <= j < edges.len() ==> {
        let (child, parent) = #[trigger] edges[j];
        if upward {
            names.contains(child) ==> names.contains(parent)
        } else {
            names.contains(parent) ==> names.contains(child)
        }
    }
}

proof fn lemma_closed_holds_walk(edges: Seq<(Seq<char>, Seq<char>)>, names: Seq<Seq<char>>, chain: Seq<Seq<char>>, upward: bool)
    requires
        closed_under(edges, names, upward),
        is_walk(edges, chain, upward),
        names.contains(chain[0]),
    ensures
        names.contains(chain.last()),
    decreases chain.len(),
{
    if chain.len() > 1 {
        let shorter = chain.drop_last();
        assert forall|i: int| 0 <= i < shorter.len() - 1 implies steps(edges, #[trigger] shorter[i], shorter[i + 1], upward) by {
            assert(shorter[i] == chain[i] && shorter[i + 1] == chain[i + 1]);
        }
        lemma_closed_holds_walk(edges, names, shorter, upward);
        let n = chain.len() - 1;
        assert(steps(edges, chain[n - 1], chain[n], upward));
        assert(shorter.last() == chain[n - 1]);
        let j = if upward {
            choose|j: int| 0 <= j < edges.len() && edges[j] == (chain[n - 1], chain[n])
        } else {
            choose|j: int| 0 <= j < edges.len() && edges[j] == (chain[n], chain[n - 1])
        };
        assert(edges.contains(edges[j]));
    }
}

/// The far end of a step from a reached name is reached too.
proof fn lemma_reaches_step(edges: Seq<(Seq<char>, Seq<char>)>, from: Seq<char>, mid: Seq<char>, to: Seq<char>, upward: bool)
    requires
        reaches(edges, from, mid, upward),
        steps(edges, mid, to, upward),
    ensures
        reaches(edges, from, to, upward),
{
    let chain = choose|chain: Seq<Seq<char>>| is_walk(edges, chain, upward) && chain[0] == from && chain.last() == mid;
    let longer = chain.push(to);
    assert forall|i: int| 0 <= i < longer.len() - 1 implies steps(edges, #[trigger] longer[i], longer[i + 1], upward) by {
        if i < chain.len() - 1 {
            assert(longer[i] == chain[i] && longer[i + 1] == chain[i + 1]);
        } else {
            assert(longer[i] == mid && longer[i + 1] == to);
        }
    }
    assert(is_walk(edges, longer, upward) && longer[0] == from && longer.last() == to);
}

/// Ancestry and descent are one relation read both ways: `ancestor` is
/// reached going up from `layout` exactly when `layout` is reached going
/// down from `ancestor`.
pub proof fn lemma_ancestry_is_descent_reversed(edges: Seq<(Seq<char>, Seq<char>)>, layout: Seq<char>, ancestor: Seq<char>)
    ensures
        reaches(edges, layout, ancestor, true) <==> reaches(edges, ancestor, layout, false),
{
    if reaches(edges, layout, ancestor, true) {
        let chain = choose|chain: Seq<Seq<char>>| is_walk(edges, chain, true) && chain[0] == layout && chain.last() == ancestor;
        lemma_reversed_walk(edges, chain, true);
        assert(chain.reverse()[0] == ancestor && chain.reverse().last() == layout);
    }
    if reaches(edges, ancestor, layout, false) {
        let chain = choose|chain: Seq<Seq<char>>| is_walk(edges, chain, false) && chain[0] == ancestor && chain.last() == layout;
        lemma_reversed_walk(edges, chain, false);
        assert(chain.reverse()[0] == layout && chain.reverse().last() == ancestor);
    }
}

proof fn lemma_reversed_walk(edges: Seq<(Seq<char>, Seq<char>)>, chain: Seq<Seq<char>>, upward: bool)
    requires
        is_walk(edges, chain, upward),
    ensures
        is_walk(edges, chain.reverse(), !upward),
{
    let back = chain.reverse();
    let n = chain.len();
    assert forall|i: int| 0 <= i < back.len() - 1 implies steps(edges, #[trigger] back[i], back[i + 1], !upward) by {
        assert(back[i] == chain[n - 1 - i]);
        assert(back[i + 1] == chain[n - 2 - i]);
        assert(steps(edges, chain[n - 2 - i], chain[n - 1 - i], upward));
    }
}

proof fn lemma_walk_reaches_over_kept(edges: Seq<(Seq<char>, Seq<char>)>, chain: Seq<Seq<char>>, upward: bool)
    requires
        is_walk(edges, chain, upward),
    ensures
        reaches(kept_edges(edges), chain[0], chain.last(), upward),
    decreases chain.len(),
{
    let kept = kept_edges(edges);
    lemma_kept_edges_exact(edges);
    if chain.len() == 1 {
        let single = seq![chain[0]];
        assert(is_walk(kept, single, upward) && single[0] == chain[0] && single.last() == chain.last());
    } else {
        let shorter = chain.drop_last();
        assert forall|i: int| 0 <= i < shorter.len() - 1 implies steps(edges, #[trigger] shorter[i], shorter[i + 1], upward) by {
            assert(shorter[i] == chain[i] && shorter[i + 1] == chain[i + 1]);
        }
        lemma_walk_reaches_over_kept(edges, shorter, upward);
        let n = chain.len() - 1;
        assert(shorter.last() == chain[n - 1] && shorter[0] == chain[0]);
        assert(steps(edges, chain[n - 1], chain[n], upward));
        if chain[n - 1] != chain[n] {
            let edge = if upward { (chain[n - 1], chain[n]) } else { (chain[n], chain[n - 1]) };
            assert(kept.contains(edge));
            lemma_reaches_step(kept, chain[0], chain[n - 1], chain[n], upward);
        }
    }
}

/// Keeping each edge once and dropping the edges from a layout to itself
/// changes nothing that reaches what: a walk along the kept edges leads
/// exactly where a walk along all the edges does.
pub proof fn lemma_kept_edges_reach_alike(edges: Seq<(Seq<char>, Seq<char>)>, from: Seq<char>, to: Seq<char>, upward: bool)
    ensures
        reaches(kept_edges(edges), from, to, upward) <==> reaches(edges, from, to, upward),
{
    let kept = kept_edges(edges);
    lemma_kept_edges_exact(edges);
    if reaches(edges, from, to, upward) {
        let chain = choose|chain: Seq<Seq<char>>| is_walk(edges, chain, upward) && chain[0] == from && chain.last() == to;
        lemma_walk_reaches_over_kept(edges, chain, upward);
    }
    if reaches(kept, from, to, upward) {
        let chain = choose|chain: Seq<Seq<char>>| is_walk(kept, chain, upward) && chain[0] == from && chain.last() == to;
        assert forall|i: int| 0 <= i < chain.len() - 1 implies steps(edges, #[trigger] chain[i], chain[i + 1], upward) by {
            assert(steps(kept, chain[i], chain[i + 1], upward));
            if upward {
                assert(kept.contains((chain[i], chain[i + 1])));
            } else {
                assert(kept.contains((chain[i + 1], chain[i])));
            }
        }
        assert(is_walk(edges, chain, upward));
    }
}

/// The far end of the step along `edge` in one direction.
pub open spec fn far_end(edge: (Seq<char>, Seq<char>), upward: bool) -> Seq<char> {
    if upward { edge.1 } else { edge.0 }
}

proof fn lemma_found_bounded(found: Seq<Seq<char>>, root: Seq<char>, edges: Seq<(Seq<char>, Seq<char>)>, upward: bool)
    requires
        found.no_duplicates(),
        forall|k: int| 0 <= k < found.len() ==> #[trigger] found[k] == root
            || exists|j: int| 0 <= j < edges.len() && far_end(edges[j], upward) == found[k],
    ensures
        found.len() <= edges.len() + 1,
{
    let ends = seq![root] + edges.map_values(|edge: (Seq<char>, Seq<char>)| far_end(edge, upward));
    found.unique_seq_to_set();
    ends.lemma_cardinality_of_set();
    assert forall|x: Seq<char>| found.to_set().contains(x) implies ends.to_set().contains(x) by {
        let k = choose|k: int| 0 <= k < found.len() && found[k] == x;
        if x == root {
            assert(ends[0] == root);
        } else {
            let j = choose|j: int| 0 <= j < edges.len() && far_end(edges[j], upward) == found[k];
            assert(ends[j + 1] == x);
        }
    }
    vstd::set_lib::lemma_len_subset(found.to_set(), ends.to_set());
}

/// Every layout reachable from `root` along `edges` in one direction, `root`
/// first and each layout once: its ancestors going up, its descendants going
/// down.
pub fn reachable_from(edges: &Vec<(String, String)>, root: &String, upward: bool) -> (res: Vec<String>)
    ensures
        name_views(res@).no_duplicates(),
        name_views(res@)[0] == root@,
        forall|name: Seq<char>|
            #[trigger] name_views(res@).contains(name) <==> reaches(edge_views(edges@), root@, name, upward),
{
    let ghost all = edge_views(edges@);
    let mut found: Vec<String> = Vec::new();
    found.push(root.clone());
    proof {
        let chain = seq![root@];
        assert(is_walk(all, chain, upward) && chain[0] == root@ && chain.last() == root@);
        assert(name_views(found@) =~= seq![root@]);
    }
    let mut changed = true;
    while changed
        invariant
            all == edge_views(edges@),
            found@.len() >= 1,
            name_views(found@)[0] == root@,
            name_views(found@).no_duplicates(),
            forall|k: int| 0 <= k < found@.len() ==> reaches(all, root@, #[trigger] name_views(found@)[k], upward),
            forall|k: int| 0 <= k < found@.len() ==> #[trigger] name_views(found@)[k] == root@
                || exists|j: int| 0 <= j < all.len() && far_end(all[j], upward) == name_views(found@)[k],
            found@.len() <= edges@.len() + 1,
            !changed ==> closed_under(all, name_views(found@), upward),
        decreases 2 * (edges@.len() + 1 - found@.len()) + if changed { 1int } else { 0int },
    {
        changed = false;
        let ghost start = found@.len();
        let mut idx: usize = 0;
        while idx < edges.len()
            invariant
                all == edge_views(edges@),
                idx <= edges.len(),
                found@.len() >= start,
                found@.len() >= 1,
                name_views(found@)[0] == root@,
                name_views(found@).no_duplicates(),
                forall|k: int| 0 <= k < found@.len() ==> reaches(all, root@, #[trigger] name_views(found@)[k], upward),
                forall|k: int| 0 <= k < found@.len() ==> #[trigger] name_views(found@)[k] == root@
                    || exists|j: int| 0 <= j < all.len() && far_end(all[j], upward) == name_views(found@)[k],
                found@.len() <= edges@.len() + 1,
                changed <==> found@.len() > start,
                !changed ==> forall|j: int| 0 <= j < idx ==> {
                    let (child, parent) = #[trigger] all[j];
                    if upward {
                        name_views(found@).contains(child) ==> name_views(found@).contains(parent)
                    } else {
                        name_views(found@).contains(parent) ==> name_views(found@).contains(child)
                    }
                },
            decreases edges.len() - idx,
        {
            let (near, far) = if upward { (&edges[idx].0, &edges[idx].1) } else { (&edges[idx].1, &edges[idx].0) };
            assert(all[idx as int] == (edges@[idx as int].0@, edges@[idx as int].1@));
            if holds_name(&found, near) && !holds_name(&found, far) {
                let ghost before = name_views(found@);
                proof {
                    let k = choose|k: int| 0 <= k < before.len() && before[k] == near@;
                    assert(reaches(all, root@, before[k], upward));
                    lemma_reaches_step(all, root@, near@, far@, upward);
                }
                found.push(far.clone());
                proof {
                    let after = name_views(found@);
                    assert(after =~= before.push(far@));
                    assert(after[0] == before[0]);
                    assert forall|a: int, b: int| 0 <= a < b < after.len() implies after[a] != after[b] by {
                        if b == before.len() {
                            assert(before.contains(before[a]));
                        } else {
                            assert(after[a] == before[a] && after[b] == before[b]);
                        }
                    }
                    assert forall|k: int| 0 <= k < found@.len() implies reaches(all, root@, #[trigger] after[k], upward) by {
                        if k < before.len() {
                            assert(after[k] == before[k]);
                        }
                    }
                    assert forall|k: int| 0 <= k < found@.len() implies #[trigger] after[k] == root@
                        || exists|j: int| 0 <= j < all.len() && far_end(all[j], upward) == after[k] by {
                        if k < before.len() {
                            assert(after[k] == before[k]);
                        } else {
                            assert(far_end(all[idx as int], upward) == after[k]);
                        }
                    }
                    lemma_found_bounded(after, root@, all, upward);
                }
                changed = true;
            }
            idx = idx + 1;
        }
    }
    proof {
        let views = name_views(found@);
        assert forall|name: Seq<char>| #[trigger] views.contains(name) <==> reaches(all, root@, name, upward) by {
            if reaches(all, root@, name, upward) {
                let chain = choose|chain: Seq<Seq<char>>| is_walk(all, chain, upward) && chain[0] == root@ && chain.last() == name;
                assert(views[0] == root@);
                lemma_closed_holds_walk(all, views, chain, upward);
            }
            if views.contains(name) {
                let k = choose|k: int| 0 <= k < views.len() && views[k] == name;
                assert(reaches(all, root@, views[k], upward));
            }
        }
    }
    found
}

/// Whether a walk of at most `count` steps along `edges` in one direction
/// leads from `from` to `to`.
pub open spec fn reaches_within(edges: Seq<(Seq<char>, Seq<char>)>, from: Seq<char>, to: Seq<char>, upward: bool, count: nat) -> bool {
    exists|chain: Seq<Seq<char>>|
        is_walk(edges, chain, upward) && chain[0] == from && chain.last() == to && chain.len() <= count + 1
}

/// Whether the fewest steps from `from` to `to` are exactly `count`.
pub open spec fn at_distance(edges: Seq<(Seq<char>, Seq<char>)>, from: Seq<char>, to: Seq<char>, upward: bool, count: nat) -> bool {
    reaches_within(edges, from, to, upward, count)
        && (count == 0 || !reaches_within(edges, from, to, upward, (count - 1) as nat))
}

proof fn lemma_within_step(edges: Seq<(Seq<char>, Seq<char>)>, from: Seq<char>, mid: Seq<char>, to: Seq<char>, upward: bool, count: nat)
    requires
        reaches_within(edges, from, mid, upward, count),
        steps(edges, mid, to, upward),
    ensures
        reaches_within(edges, from, to, upward, count + 1),
{
    let chain = choose|chain: Seq<Seq<char>>|
        is_walk(edges, chain, upward) && chain[0] == from && chain.last() == mid && chain.len() <= count + 1;
    let longer = chain.push(to);
    assert forall|i: int| 0 <= i < longer.len() - 1 implies steps(edges, #[trigger] longer[i], longer[i + 1], upward) by {
        if i < chain.len() - 1 {
            assert(longer[i] == chain[i] && longer[i + 1] == chain[i + 1]);
        } else {
            assert(longer[i] == mid && longer[i + 1] == to);
        }
    }
    assert(is_walk(edges, longer, upward) && longer[0] == from && longer.last() == to && longer.len() <= count + 2);
}

proof fn lemma_within_monotone(edges: Seq<(Seq<char>, Seq<char>)>, from: Seq<char>, to: Seq<char>, upward: bool, count: nat, more: nat)
    requires
        reaches_within(edges, from, to, upward, count),
        count <= more,
    ensures
        reaches_within(edges, from, to, upward, more),
        reaches(edges, from, to, upward),
{
}

proof fn lemma_within_zero(edges: Seq<(Seq<char>, Seq<char>)>, from: Seq<char>, to: Seq<char>, upward: bool)
    ensures
        reaches_within(edges, from, to, upward, 0) <==> to == from,
{
    if to == from {
        let chain = seq![from];
        assert(is_walk(edges, chain, upward) && chain[0] == from && chain.last() == to);
    }
}

proof fn lemma_predecessor(edges: Seq<(Seq<char>, Seq<char>)>, from: Seq<char>, to: Seq<char>, upward: bool, count: nat)
    requires
        at_distance(edges, from, to, upward, count + 1),
    ensures
        exists|mid: Seq<char>| at_distance(edges, from, mid, upward, count) && #[trigger] steps(edges, mid, to, upward),
{
    let chain = choose|chain: Seq<Seq<char>>|
        is_walk(edges, chain, upward) && chain[0] == from && chain.last() == to && chain.len() <= count + 2;
    if chain.len() < count + 2 {
        assert(reaches_within(edges, from, to, upward, count));
    }
    let mid = chain[count as int];
    let prefix = chain.take(count as int + 1);
    assert forall|i: int| 0 <= i < prefix.len() - 1 implies steps(edges, #[trigger] prefix[i], prefix[i + 1], upward) by {
        assert(prefix[i] == chain[i] && prefix[i + 1] == chain[i + 1]);
    }
    assert(is_walk(edges, prefix, upward) && prefix[0] == from && prefix.last() == mid);
    assert(steps(edges, chain[count as int], chain[count as int + 1], upward));
    assert(chain[count as int + 1] == to);
    if count > 0 && reaches_within(edges, from, mid, upward, (count - 1) as nat) {
        lemma_within_step(edges, from, mid, to, upward, (count - 1) as nat);
    }
    assert(at_distance(edges, from, mid, upward, count));
}

/// The fewest steps along `edges` in one direction from `root` to `target`,
/// or `None` when no walk leads there: how many generations separate two
/// layouts.
pub fn generations(edges: &Vec<(String, String)>, root: &String, target: &String, upward: bool) -> (res: Option<usize>)
    ensures
        match res {
            Some(count) => at_distance(edge_views(edges@), root@, target@, upward, count as nat),
            None => !reaches(edge_views(edges@), root@, target@, upward),
        },
{
    let ghost all = edge_views(edges@);
    proof {
        lemma_within_zero(all, root@, target@, upward);
    }
    if str_equal(root.as_str(), target.as_str()) {
        return Some(0);
    }
    let mut found: Vec<String> = Vec::new();
    found.push(root.clone());
    let mut layer: Vec<String> = Vec::new();
    layer.push(root.clone());
    let mut depth: usize = 0;
    proof {
        assert(name_views(found@) =~= seq![root@]);
        assert(name_views(layer@) =~= seq![root@]);
        assert forall|x: Seq<char>| #[trigger] name_views(found@).contains(x) <==> reaches_within(all, root@, x, upward, 0) by {
            lemma_within_zero(all, root@, x, upward);
            if x == root@ {
                assert(name_views(found@)[0] == x);
            }
        }
    }
    loop
        invariant
            all == edge_views(edges@),
            found@.len() >= 1,
            depth + 1 <= found@.len(),
            name_views(found@).no_duplicates(),
            forall|k: int| 0 <= k < found@.len() ==> #[trigger] name_views(found@)[k] == root@
                || exists|j: int| 0 <= j < all.len() && far_end(all[j], upward) == name_views(found@)[k],
            found@.len() <= edges@.len() + 1,
            forall|x: Seq<char>| #[trigger] name_views(found@).contains(x) <==> reaches_within(all, root@, x, upward, depth as nat),
            forall|x: Seq<char>| #[trigger] name_views(layer@).contains(x) <==> at_distance(all, root@, x, upward, depth as nat),
            !reaches_within(all, root@, target@, upward, depth as nat),
        decreases edges@.len() + 1 - found@.len(),
    {
        let ghost start = name_views(found@);
        let ghost d = depth as nat;
        let mut next: Vec<String> = Vec::new();
        let mut idx: usize = 0;
        while idx < edges.len()
            invariant
                all == edge_views(edges@),
                idx <= edges.len(),
                name_views(found@) == start + name_views(next@),
                found@.len() <= edges@.len() + 1,
                name_views(found@).no_duplicates(),
                forall|k: int| 0 <= k < found@.len() ==> #[trigger] name_views(found@)[k] == root@
                    || exists|j: int| 0 <= j < all.len() && far_end(all[j], upward) == name_views(found@)[k],
                forall|x: Seq<char>| #[trigger] start.contains(x) <==> reaches_within(all, root@, x, upward, d),
                forall|x: Seq<char>| #[trigger] name_views(layer@).contains(x) <==> at_distance(all, root@, x, upward, d),
                forall|k: int| 0 <= k < next@.len() ==> at_distance(all, root@, #[trigger] name_views(next@)[k], upward, d + 1),
                forall|j: int| 0 <= j < idx ==> {
                    let edge = #[trigger] all[j];
                    let near = if upward { edge.0 } else { edge.1 };
                    name_views(layer@).contains(near) ==> name_views(found@).contains(far_end(edge, upward))
                },
            decreases edges.len() - idx,
        {
            let (near, far) = if upward { (&edges[idx].0, &edges[idx].1) } else { (&edges[idx].1, &edges[idx].0) };
            assert(all[idx as int] == (edges@[idx as int].0@, edges@[idx as int].1@));
            let ghost found_before = name_views(found@);
            let in_layer = holds_name(&layer, near);
            let in_found = holds_name(&found, far);
            if in_layer && !in_found {
                let ghost before = name_views(found@);
                let ghost before_next = name_views(next@);
                proof {
                    assert(steps(all, near@, far@, upward));
                    lemma_within_step(all, root@, near@, far@, upward, d);
                    if reaches_within(all, root@, far@, upward, d) {
                        assert(start.contains(far@));
                        let k = choose|k: int| 0 <= k < start.len() && start[k] == far@;
                        assert(before[k] == far@);
                    }
                }
                found.push(far.clone());
                next.push(far.clone());
                proof {
                    let after = name_views(found@);
                    assert(after =~= before.push(far@));
                    assert(name_views(next@) =~= before_next.push(far@));
                    assert(after =~= start + name_views(next@));
                    assert forall|a: int, b: int| 0 <= a < b < after.len() implies after[a] != after[b] by {
                        if b == before.len() {
                            assert(before.contains(before[a]));
                        } else {
                            assert(after[a] == before[a] && after[b] == before[b]);
                        }
                    }
                    assert forall|k: int| 0 <= k < found@.len() implies #[trigger] after[k] == root@
                        || exists|j: int| 0 <= j < all.len() && far_end(all[j], upward) == after[k] by {
                        if k < before.len() {
                            assert(after[k] == before[k]);
                        } else {
                            assert(far_end(all[idx as int], upward) == after[k]);
                        }
                    }
                    assert forall|k: int| 0 <= k < next@.len() implies at_distance(all, root@, #[trigger] name_views(next@)[k], upward, d + 1) by {
                        if k < before_next.len() {
                            assert(name_views(next@)[k] == before_next[k]);
                        }
                    }
                    lemma_found_bounded(after, root@, all, upward);
                }
            }
            proof {
                let here = name_views(found@);
                assert forall|x: Seq<char>| found_before.contains(x) implies #[trigger] here.contains(x) by {
                    let k = choose|k: int| 0 <= k < found_before.len() && found_before[k] == x;
                    assert(here[k] == x);
                }
                if in_layer && !in_found {
                    assert(here[here.len() - 1] == far@);
                }
                assert forall|j: int| 0 <= j < idx + 1 implies {
                    let edge = #[trigger] all[j];
                    let near = if upward { edge.0 } else { edge.1 };
                    name_views(layer@).contains(near) ==> name_views(found@).contains(far_end(edge, upward))
                } by {
                    let edge = all[j];
                    if j < idx {
                        let near_j = if upward { edge.0 } else { edge.1 };
                        if name_views(layer@).contains(near_j) {
                            assert(found_before.contains(far_end(edge, upward)));
                        }
                    }
                }
            }
            idx = idx + 1;
        }
        proof {
            let here = name_views(found@);
            let nv = name_views(next@);
            assert forall|x: Seq<char>| at_distance(all, root@, x, upward, d + 1) implies #[trigger] nv.contains(x) by {
                lemma_predecessor(all, root@, x, upward, d);
                let mid = choose|mid: Seq<char>| at_distance(all, root@, mid, upward, d) && #[trigger] steps(all, mid, x, upward);
                assert(name_views(layer@).contains(mid));
                let j = if upward {
                    choose|j: int| 0 <= j < all.len() && all[j] == (mid, x)
                } else {
                    choose|j: int| 0 <= j < all.len() && all[j] == (x, mid)
                };
                assert(all.contains(all[j]));
                assert(here.contains(x));
                let k = choose|k: int| 0 <= k < here.len() && here[k] == x;
                if k < start.len() {
                    assert(start[k] == x);
                    assert(start.contains(x));
                } else {
                    assert(nv[k - start.len()] == x);
                }
            }
            assert forall|x: Seq<char>| #[trigger] nv.contains(x) implies at_distance(all, root@, x, upward, d + 1) by {
                let k = choose|k: int| 0 <= k < nv.len() && nv[k] == x;
                assert(at_distance(all, root@, nv[k], upward, d + 1));
            }
        }
        if next.len() == 0 {
            proof {
                assert forall|j: int| 0 <= j < all.len() implies {
                    let (child, parent) = #[trigger] all[j];
                    if upward {
                        start.contains(child) ==> start.contains(parent)
                    } else {
                        start.contains(parent) ==> start.contains(child)
                    }
                } by {
                    let edge = all[j];
                    let near = if upward { edge.0 } else { edge.1 };
                    let far = far_end(edge, upward);
                    assert(steps(all, near, far, upward));
                    assert(name_views(found@) =~= start);
                    if start.contains(near) {
                        if d > 0 && reaches_within(all, root@, near, upward, (d - 1) as nat) {
                            lemma_within_step(all, root@, near, far, upward, (d - 1) as nat);
                        } else {
                            assert(name_views(layer@).contains(near));
                        }
                    }
                }
                if reaches(all, root@, target@, upward) {
                    let chain = choose|chain: Seq<Seq<char>>| is_walk(all, chain, upward) && chain[0] == root@ && chain.last() == target@;
                    assert(start.contains(root@)) by {
                        lemma_within_zero(all, root@, root@, upward);
                        lemma_within_monotone(all, root@, root@, upward, 0, d);
                    }
                    lemma_closed_holds_walk(all, start, chain, upward);
                }
            }
            return None;
        }
        depth = depth + 1;
        if holds_name(&next, target) {
            return Some(depth);
        }
        proof {
            assert forall|x: Seq<char>| #[trigger] name_views(found@).contains(x) <==> reaches_within(all, root@, x, upward, depth as nat) by {
                let here = name_views(found@);
                if here.contains(x) {
                    let k = choose|k: int| 0 <= k < here.len() && here[k] == x;
                    if k < start.len() {
                        assert(start[k] == x);
                        assert(start.contains(x));
                        lemma_within_monotone(all, root@, x, upward, d, d + 1);
                    } else {
                        assert(name_views(next@)[k - start.len()] == x);
                    }
                }
                if reaches_within(all, root@, x, upward, d + 1) {
                    if reaches_within(all, root@, x, upward, d) {
                        assert(start.contains(x));
                        let k = choose|k: int| 0 <= k < start.len() && start[k] == x;
                        assert(here[k] == x);
                    } else {
                        assert(at_distance(all, root@, x, upward, d + 1));
                        assert(name_views(next@).contains(x));
                        let k = choose|k: int| 0 <= k < name_views(next@).len() && name_views(next@)[k] == x;
                        assert(here[start.len() + k] == x);
                    }
                }
            }
        }
        layer = next;
    }
}

/// The parents an operator call named for the layout it produced.
#[derive(Debug)]
pub struct CallParents {
    /// The fingerprint of the layout the call produced, when it produced one.
    pub result_fingerprint: Option<String>,
    pub parent_fingerprint: Option<String>,
    pub secondary_parent_fingerprint: Option<String>,
}

/// The edge from `child` to `parent`, when there is a parent.
pub open spec fn optional_edge(child: Seq<char>, parent: Option<Seq<char>>) -> Seq<(Seq<char>, Seq<char>)> {
    match parent {
        Some(parent) => seq![(child, parent)],
        None => Seq::empty(),
    }
}

/// The edges the archive's members name: each member to its parent, then to
/// its second parent.
pub open spec fn member_edges(members: Seq<BasinView>) -> Seq<(Seq<char>, Seq<char>)>
    decreases members.len(),
{
    if members.len() == 0 {
        Seq::empty()
    } else {
        let member = members.last();
        member_edges(members.drop_last())
            + optional_edge(member.fingerprint, member.parent_fingerprint)
            + optional_edge(member.fingerprint, member.secondary_parent_fingerprint)
    }
}

/// The edges the operator calls name: each produced layout to the call's
/// parent, then to its second parent; a call that produced nothing names
/// none.
pub open spec fn call_edges(calls: Seq<CallParents>) -> Seq<(Seq<char>, Seq<char>)>
    decreases calls.len(),
{
    if calls.len() == 0 {
        Seq::empty()
    } else {
        let call = calls.last();
        call_edges(calls.drop_last()) + match call.result_fingerprint {
            Some(child) => optional_edge(child@, option_view(call.parent_fingerprint))
                + optional_edge(child@, option_view(call.secondary_parent_fingerprint)),
            None => Seq::empty(),
        }
    }
}

fn push_optional_edge(out: &mut Vec<(String, String)>, child: &String, parent: &Option<String>)
    ensures
        edge_views(final(out)@) == edge_views(old(out)@) + optional_edge(child@, option_view(*parent)),
{
    match parent {
        Some(parent) => {
            out.push((child.clone(), parent.clone()));
            assert(edge_views(out@) =~= edge_views(old(out)@) + seq![(child@, parent@)]);
        },
        None => {
            assert(edge_views(out@) =~= edge_views(old(out)@) + Seq::<(Seq<char>, Seq<char>)>::empty());
        },
    }
}

/// Every edge the genealogy is built from: the members' own parent fields,
/// then every operator call's, because a call whose output the archive
/// refused as a duplicate still descended from its parents.
pub fn genealogy_edges(members: &[ArchivedBasin], calls: &Vec<CallParents>) -> (res: Vec<(String, String)>)
    ensures
        edge_views(res@) == member_edges(views(members@)) + call_edges(calls@),
{
    let ghost basins = views(members@);
    let mut out: Vec<(String, String)> = Vec::new();
    let mut i: usize = 0;
    while i < members.len()
        invariant
            i <= members.len(),
            basins == views(members@),
            edge_views(out@) == member_edges(basins.take(i as int)),
        decreases members.len() - i,
    {
        let member = &members[i];
        assert(basins.take(i as int + 1).drop_last() =~= basins.take(i as int));
        assert(basins.take(i as int + 1).last() == member@);
        push_optional_edge(&mut out, &member.fingerprint, &member.parent_fingerprint);
        push_optional_edge(&mut out, &member.fingerprint, &member.secondary_parent_fingerprint);
        i = i + 1;
    }
    assert(basins.take(members.len() as int) =~= basins);
    let ghost from_members = edge_views(out@);
    let mut k: usize = 0;
    while k < calls.len()
        invariant
            k <= calls.len(),
            edge_views(out@) == from_members + call_edges(calls@.take(k as int)),
        decreases calls.len() - k,
    {
        let call = &calls[k];
        let ghost before = edge_views(out@);
        assert(calls@.take(k as int + 1).drop_last() =~= calls@.take(k as int));
        assert(calls@.take(k as int + 1).last() == *call);
        match &call.result_fingerprint {
            Some(child) => {
                push_optional_edge(&mut out, child, &call.parent_fingerprint);
                push_optional_edge(&mut out, child, &call.secondary_parent_fingerprint);
                assert(edge_views(out@) =~= from_members + call_edges(calls@.take(k as int + 1)));
            },
            None => {
                assert(edge_views(out@) =~= from_members + call_edges(calls@.take(k as int + 1)));
            },
        }
        k = k + 1;
    }
    assert(calls@.take(calls.len() as int) =~= calls@);
    out
}

/// Whether `call` named `fingerprint` as one of its parents.
pub open spec fn names_parent(call: CallParents, fingerprint: Seq<char>) -> bool {
    option_view(call.parent_fingerprint) == Some(fingerprint)
        || option_view(call.secondary_parent_fingerprint) == Some(fingerprint)
}

/// How many of `calls` named `fingerprint` as a parent.
pub open spec fn calls_naming(calls: Seq<CallParents>, fingerprint: Seq<char>) -> nat
    decreases calls.len(),
{
    if calls.len() == 0 {
        0
    } else {
        calls_naming(calls.drop_last(), fingerprint) + if names_parent(calls.last(), fingerprint) { 1nat } else { 0nat }
    }
}

fn names_option(value: &Option<String>, fingerprint: &String) -> (res: bool)
    ensures
        res == (option_view(*value) == Some(fingerprint@)),
{
    match value {
        Some(text) => str_equal(text.as_str(), fingerprint.as_str()),
        None => false,
    }
}

/// How many operator calls took the basin carrying `fingerprint` as a
/// parent, first or second.
pub fn actions_received(fingerprint: &String, calls: &Vec<CallParents>) -> (res: usize)
    ensures
        res == calls_naming(calls@, fingerprint@),
{
    let mut count: usize = 0;
    let mut i: usize = 0;
    while i < calls.len()
        invariant
            i <= calls.len(),
            count == calls_naming(calls@.take(i as int), fingerprint@),
            count <= i,
        decreases calls.len() - i,
    {
        assert(calls@.take(i as int + 1).drop_last() =~= calls@.take(i as int));
        assert(calls@.take(i as int + 1).last() == calls@[i as int]);
        if names_option(&calls[i].parent_fingerprint, fingerprint)
            || names_option(&calls[i].secondary_parent_fingerprint, fingerprint)
        {
            count = count + 1;
        }
        i = i + 1;
    }
    assert(calls@.take(calls.len() as int) =~= calls@);
    count
}

/// How many of `members` no operator call took as a parent.
pub open spec fn members_never_parents(members: Seq<BasinView>, calls: Seq<CallParents>) -> nat
    decreases members.len(),
{
    if members.len() == 0 {
        0
    } else {
        members_never_parents(members.drop_last(), calls)
            + if calls_naming(calls, members.last().fingerprint) == 0 { 1nat } else { 0nat }
    }
}

/// How many archive members received no action at all.
pub fn members_without_action(members: &[ArchivedBasin], calls: &Vec<CallParents>) -> (res: usize)
    ensures
        res == members_never_parents(views(members@), calls@),
{
    let ghost basins = views(members@);
    let mut count: usize = 0;
    let mut i: usize = 0;
    while i < members.len()
        invariant
            i <= members.len(),
            basins == views(members@),
            count == members_never_parents(basins.take(i as int), calls@),
            count <= i,
        decreases members.len() - i,
    {
        assert(basins.take(i as int + 1).drop_last() =~= basins.take(i as int));
        assert(basins.take(i as int + 1).last() == members@[i as int]@);
        if actions_received(&members[i].fingerprint, calls) == 0 {
            count = count + 1;
        }
        i = i + 1;
    }
    assert(basins.take(members.len() as int) =~= basins);
    count
}

/// The genealogy of the search: every parent edge between two different
/// layouts, each kept once, in the order they were first named.
#[derive(Debug)]
pub struct Lineage {
    pub parents: Vec<(String, String)>,
}

/// The genealogy named by the archive's members and the operator calls.
pub fn lineage(members: &[ArchivedBasin], calls: &Vec<CallParents>) -> (res: Lineage)
    ensures
        edge_views(res.parents@) == kept_edges(member_edges(views(members@)) + call_edges(calls@)),
{
    let edges = genealogy_edges(members, calls);
    Lineage { parents: parent_edges(&edges) }
}

impl Lineage {
    /// `root` and every layout it descended from, each once, `root` first.
    pub fn ancestors(&self, root: &String) -> (res: Vec<String>)
        ensures
            name_views(res@).no_duplicates(),
            name_views(res@)[0] == root@,
            forall|name: Seq<char>|
                #[trigger] name_views(res@).contains(name) <==> reaches(edge_views(self.parents@), root@, name, true),
    {
        reachable_from(&self.parents, root, true)
    }

    /// How many generations down from `ancestor` the layout `layout` was
    /// born, or `None` when it did not descend from it.
    pub fn generations_to(&self, ancestor: &String, layout: &String) -> (res: Option<usize>)
        ensures
            match res {
                Some(count) => at_distance(edge_views(self.parents@), ancestor@, layout@, false, count as nat),
                None => !reaches(edge_views(self.parents@), ancestor@, layout@, false),
            },
    {
        generations(&self.parents, ancestor, layout, false)
    }

    /// `root` and every layout that descended from it, each once, `root`
    /// first.
    pub fn descendants(&self, root: &String) -> (res: Vec<String>)
        ensures
            name_views(res@).no_duplicates(),
            name_views(res@)[0] == root@,
            forall|name: Seq<char>|
                #[trigger] name_views(res@).contains(name) <==> reaches(edge_views(self.parents@), root@, name, false),
    {
        reachable_from(&self.parents, root, false)
    }
}

/// Whether `first` ranks before `second` in the ledger's depth ranking:
/// shallower under the total order `f64::total_cmp` uses, then by
/// fingerprint.
pub open spec fn ranks_shallower(first: BasinView, second: BasinView) -> bool {
    ||| total_key(first.raw_depth_bits) < total_key(second.raw_depth_bits)
    ||| total_key(first.raw_depth_bits) == total_key(second.raw_depth_bits)
        && lex_less(first.fingerprint, second.fingerprint)
}

/// The members that rank before `basin`.
pub open spec fn shallower_than(basin: BasinView) -> spec_fn(BasinView) -> bool {
    |other: BasinView| ranks_shallower(other, basin)
}

/// Each member's depth rank: how many members rank before it, which is its
/// position in the depth ranking when every fingerprint is held once.
pub fn depth_ranks(members: &[ArchivedBasin]) -> (res: Vec<usize>)
    ensures
        res@.len() == members@.len(),
        forall|i: int| 0 <= i < members@.len()
            ==> #[trigger] res@[i] == count_where(views(members@), shallower_than(views(members@)[i])),
{
    let ghost basins = views(members@);
    let mut ranks: Vec<usize> = Vec::new();
    let mut i: usize = 0;
    while i < members.len()
        invariant
            i <= members.len(),
            basins == views(members@),
            ranks@.len() == i,
            forall|k: int| 0 <= k < i ==> #[trigger] ranks@[k] == count_where(basins, shallower_than(basins[k])),
        decreases members.len() - i,
    {
        let member = &members[i];
        let key = total_order_key(member.raw_depth_bits);
        assert(basins[i as int] == member@);
        let mut count: usize = 0;
        let mut j: usize = 0;
        while j < members.len()
            invariant
                j <= members.len(),
                i < members.len(),
                basins == views(members@),
                basins[i as int] == member@,
                key == total_key(member.raw_depth_bits),
                count == count_where(basins.take(j as int), shallower_than(member@)),
                count <= j,
            decreases members.len() - j,
        {
            let other = &members[j];
            assert(basins.take(j as int + 1).drop_last() =~= basins.take(j as int));
            assert(basins.take(j as int + 1).last() == other@);
            let other_key = total_order_key(other.raw_depth_bits);
            if other_key < key || (other_key == key && str_less(other.fingerprint.as_str(), member.fingerprint.as_str())) {
                count = count + 1;
            }
            j = j + 1;
        }
        assert(basins.take(members.len() as int) =~= basins);
        ranks.push(count);
        i = i + 1;
    }
    ranks
}

/// With every fingerprint held once, the depth ranks are positions: each is
/// below the number of members, and no two members share one.
pub proof fn lemma_depth_ranks_are_positions(members: Seq<BasinView>)
    requires
        forall|i: int, j: int| 0 <= i < j < members.len()
            ==> (#[trigger] members[i]).fingerprint != (#[trigger] members[j]).fingerprint,
    ensures
        forall|i: int| 0 <= i < members.len()
            ==> #[trigger] count_where(members, shallower_than(members[i])) < members.len(),
        forall|i: int, j: int| 0 <= i < members.len() && 0 <= j < members.len() && i != j
            ==> count_where(members, shallower_than(#[trigger] members[i]))
                != count_where(members, shallower_than(#[trigger] members[j])),
{
    assert forall|i: int| 0 <= i < members.len()
        implies #[trigger] count_where(members, shallower_than(members[i])) < members.len() by {
        lemma_lex_irreflexive(members[i].fingerprint);
        lemma_count_where_misses(members, shallower_than(members[i]), i);
    }
    assert forall|i: int, j: int| 0 <= i < members.len() && 0 <= j < members.len() && i != j
        implies count_where(members, shallower_than(#[trigger] members[i]))
            != count_where(members, shallower_than(#[trigger] members[j])) by {
        let (first, second) = if ranks_shallower(members[i], members[j]) { (i, j) } else { (j, i) };
        if !ranks_shallower(members[i], members[j]) {
            if i < j {
                assert(members[i].fingerprint != members[j].fingerprint);
            } else {
                assert(members[j].fingerprint != members[i].fingerprint);
            }
            lemma_lex_total(members[i].fingerprint, members[j].fingerprint);
        }
        let low = members[first];
        let high = members[second];
        assert(ranks_shallower(low, high));
        assert forall|k: int| 0 <= k < members.len() && shallower_than(low)(#[trigger] members[k])
            implies shallower_than(high)(members[k]) by {
            if lex_less(members[k].fingerprint, low.fingerprint) && lex_less(low.fingerprint, high.fingerprint) {
                lemma_lex_transitive(members[k].fingerprint, low.fingerprint, high.fingerprint);
            }
        }
        lemma_lex_irreflexive(low.fingerprint);
        assert(shallower_than(high)(members[first]) && !shallower_than(low)(members[first]));
        lemma_count_where_grows(members, shallower_than(low), shallower_than(high));
    }
}

/// One archive member on the incumbent's ancestry, as reported.
#[derive(Debug)]
pub struct LineageStep {
    pub fingerprint: String,
    pub operator: String,
    /// Raw source depth in millimetres, as the bits of its `f64`.
    pub raw_depth_bits: u64,
    pub birth_work_units: u64,
}

/// Whether `step` reports `basin`.
pub open spec fn reports_step(step: LineageStep, basin: BasinView) -> bool {
    &&& step.fingerprint@ == basin.fingerprint
    &&& step.operator@ == basin.operator.reported_name()
    &&& step.raw_depth_bits == basin.raw_depth_bits
    &&& step.birth_work_units == basin.birth_work_units
}

/// Born with fewer work units spent.
pub open spec fn born_before() -> spec_fn(BasinView, BasinView) -> bool {
    |first: BasinView, second: BasinView| first.birth_work_units < second.birth_work_units
}

/// Whether a basin's fingerprint is one of `names`.
pub open spec fn named_in(names: Seq<Seq<char>>) -> spec_fn(BasinView) -> bool {
    |basin: BasinView| names.contains(basin.fingerprint)
}

/// The archive members among `ancestors`, in birth order, members born with
/// equal work keeping their archive order.
pub open spec fn lineage_order(members: Seq<BasinView>, ancestors: Seq<Seq<char>>) -> Seq<BasinView> {
    stable_sort(members.filter(named_in(ancestors)), born_before())
}

/// The incumbent's lineage as the ledger reports it: the archive members
/// whose fingerprints are among `ancestors`, in birth order.
pub fn lineage_steps(members: &[ArchivedBasin], ancestors: &Vec<String>) -> (res: Vec<LineageStep>)
    ensures
        res@.len() == lineage_order(views(members@), name_views(ancestors@)).len(),
        forall|k: int| 0 <= k < res@.len()
            ==> reports_step(#[trigger] res@[k], lineage_order(views(members@), name_views(ancestors@))[k]),
{
    let ghost basins = views(members@);
    let ghost names = name_views(ancestors@);
    let mut out: Vec<LineageStep> = Vec::new();
    let mut i: usize = 0;
    while i < members.len()
        invariant
            i <= members.len(),
            basins == views(members@),
            names == name_views(ancestors@),
            out@.len() == lineage_order(basins.take(i as int), names).len(),
            forall|k: int| 0 <= k < out@.len()
                ==> reports_step(#[trigger] out@[k], lineage_order(basins.take(i as int), names)[k]),
        decreases members.len() - i,
    {
        let member = &members[i];
        let ghost prefix = basins.take(i as int);
        let ghost extended = basins.take(i as int + 1);
        assert(extended.drop_last() =~= prefix);
        assert(extended.last() == member@);
        let ghost sorted = lineage_order(prefix, names);
        proof {
            reveal(Seq::filter);
        }
        if holds_name(ancestors, &member.fingerprint) {
            let ghost kept = prefix.filter(named_in(names));
            assert(extended.filter(named_in(names)) == kept.push(member@));
            assert(kept.push(member@).drop_last() =~= kept);
            assert(lineage_order(extended, names) == insert_by(sorted, member@, born_before()));
            let mut pos: usize = 0;
            let mut found = false;
            while pos < out.len() && !found
                invariant
                    pos <= out@.len(),
                    out@.len() == sorted.len(),
                    forall|k: int| 0 <= k < out@.len() ==> reports_step(#[trigger] out@[k], sorted[k]),
                    forall|j: int| 0 <= j < pos ==> !born_before()(member@, #[trigger] sorted[j]),
                    found ==> pos < sorted.len() && born_before()(member@, sorted[pos as int]),
                decreases out@.len() - pos + if found { 0int } else { 1int },
            {
                assert(reports_step(out@[pos as int], sorted[pos as int]));
                if member.birth_work_units < out[pos].birth_work_units {
                    found = true;
                } else {
                    pos = pos + 1;
                }
            }
            proof {
                lemma_insert_by_at(sorted, member@, born_before(), pos as int);
            }
            let step = LineageStep {
                fingerprint: member.fingerprint.clone(),
                operator: member.operator.name(),
                raw_depth_bits: member.raw_depth_bits,
                birth_work_units: member.birth_work_units,
            };
            let ghost before_out = out@;
            out.insert(pos, step);
            proof {
                let target = sorted.insert(pos as int, member@);
                assert forall|k: int| 0 <= k < out@.len() implies reports_step(#[trigger] out@[k], target[k]) by {
                    if k < pos {
                        assert(out@[k] == before_out[k] && target[k] == sorted[k]);
                    } else if k > pos {
                        assert(out@[k] == before_out[k - 1] && target[k] == sorted[k - 1]);
                    }
                }
            }
        } else {
            assert(extended.filter(named_in(names)) == prefix.filter(named_in(names)));
        }
        i = i + 1;
    }
    assert(basins.take(members.len() as int) =~= basins);
    out
}

/// The fingerprints of a selection of basins, in its order.
pub open spec fn fingerprints(basins: Seq<BasinView>) -> Seq<Seq<char>> {
    basins.map_values(|basin: BasinView| basin.fingerprint)
}

/// The three archive selections the ledger reports against: the descent
/// frontier, the crossover frontier (at least two states) and the frontier
/// over the whole archive (at least one state), as fingerprints.
#[derive(Debug)]
pub struct LedgerSelection {
    pub descent: Vec<String>,
    pub crossover: Vec<String>,
    pub full: Vec<String>,
}

fn frontier_fingerprints(archive: &SearchArchive, count: usize) -> (res: Vec<String>)
    ensures
        name_views(res@) == fingerprints(frontier_of(sort_ranked(archive@.members), count as nat, archive@.threshold)),
{
    let frontier = archive.distinct_frontier(count);
    let ghost chosen = views(frontier@);
    let mut out: Vec<String> = Vec::new();
    let mut i: usize = 0;
    while i < frontier.len()
        invariant
            i <= frontier.len(),
            chosen == views(frontier@),
            out@.len() == i,
            name_views(out@) == fingerprints(chosen.take(i as int)),
        decreases frontier.len() - i,
    {
        assert(chosen[i as int] == frontier@[i as int]@);
        let ghost before = out@;
        out.push(frontier[i].fingerprint.clone());
        proof {
            let target = fingerprints(chosen.take(i as int + 1));
            assert forall|j: int| 0 <= j < i + 1 implies #[trigger] name_views(out@)[j] == target[j] by {
                assert(target[j] == chosen[j].fingerprint);
                if j < i {
                    assert(out@[j] == before[j]);
                    assert(name_views(before)[j] == fingerprints(chosen.take(i as int))[j]);
                }
            }
            assert(name_views(out@) =~= target);
        }
        i = i + 1;
    }
    assert(chosen.take(frontier.len() as int) =~= chosen);
    out
}

/// The ledger's three selections of `archive`.
pub fn ledger_selection(archive: &SearchArchive, descent_states: usize, crossover_states: usize) -> (res: LedgerSelection)
    ensures
        name_views(res.descent@)
            == fingerprints(frontier_of(sort_ranked(archive@.members), descent_states as nat, archive@.threshold)),
        name_views(res.crossover@) == fingerprints(frontier_of(
            sort_ranked(archive@.members),
            if crossover_states >= 2 { crossover_states as nat } else { 2nat },
            archive@.threshold,
        )),
        name_views(res.full@) == fingerprints(frontier_of(
            sort_ranked(archive@.members),
            if archive@.members.len() >= 1 { archive@.members.len() } else { 1nat },
            archive@.threshold,
        )),
{
    let crossover_count = if crossover_states >= 2 { crossover_states } else { 2 };
    let member_count = archive.basins().len();
    let full_count = if member_count >= 1 { member_count } else { 1 };
    LedgerSelection {
        descent: frontier_fingerprints(archive, descent_states),
        crossover: frontier_fingerprints(archive, crossover_count),
        full: frontier_fingerprints(archive, full_count),
    }
}

/// Every selection is the start of the whole-archive selection: whatever
/// its count, the basins a frontier of `members` takes are the first basins
/// the frontier over the whole archive takes. So a member inside the
/// crossover selection is inside the whole-archive one, and a member the
/// whole-archive selection leaves out was passed over for similarity.
pub proof fn lemma_selection_starts_the_full_one(members: Seq<BasinView>, count: nat, threshold: u64)
    ensures
        ({
            let ordered = sort_ranked(members);
            let full_count = if members.len() >= 1 { members.len() } else { 1nat };
            let part = frontier_of(ordered, count, threshold);
            let full = frontier_of(ordered, full_count, threshold);
            part.len() <= full.len() && full.take(part.len() as int) == part
        }),
{
    let ordered = sort_ranked(members);
    let full_count = if members.len() >= 1 { members.len() } else { 1nat };
    lemma_ranked_order_holds_members(members);
    if count <= full_count {
        lemma_frontier_grows_by_count(ordered, count, full_count, threshold);
    } else {
        lemma_frontier_grows_by_count(ordered, full_count, count, threshold);
        lemma_frontier_bounded_and_distinct(ordered, count, threshold);
        let part = frontier_of(ordered, count, threshold);
        let full = frontier_of(ordered, full_count, threshold);
        assert(part.len() <= full_count);
        if full.len() < full_count {
            assert(part == full);
        } else {
            assert(full.len() == part.len());
            assert(part.take(full.len() as int) =~= part);
        }
        assert(full.take(part.len() as int) =~= part);
    }
}

/// Why a member is outside the crossover selection.
#[derive(Clone, Copy, Debug, PartialEq, Eq, Structural)]
pub enum Exclusion {
    /// The whole-archive frontier reaches it: the crossover count cut it off.
    TopK,
    /// Not even the whole-archive frontier reaches it: a basin kept before it
    /// is similar to it.
    Similarity,
}

/// Why the member carrying `fingerprint` is outside the crossover
/// selection, or `None` when it is inside.
pub fn exclusion_of(fingerprint: &String, selection: &LedgerSelection) -> (res: Option<Exclusion>)
    ensures
        res == if name_views(selection.crossover@).contains(fingerprint@) {
            None
        } else if name_views(selection.full@).contains(fingerprint@) {
            Some(Exclusion::TopK)
        } else {
            Some(Exclusion::Similarity)
        },
{
    if holds_name(&selection.crossover, fingerprint) {
        None
    } else if holds_name(&selection.full, fingerprint) {
        Some(Exclusion::TopK)
    } else {
        Some(Exclusion::Similarity)
    }
}

} // verus!
