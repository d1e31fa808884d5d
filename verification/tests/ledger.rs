use polygon_nesting_core::portfolio::archive::{ArchivedBasin, Placement, SearchArchive};
use polygon_nesting_core::portfolio::kinds::BasinOperator;
use polygon_nesting_core::portfolio::ledger::{
    actions_received, depth_ranks, lineage_steps, exclusion_of, genealogy_edges, generations, ledger_selection, lineage, members_without_action,
    parent_edges, reachable_from, CallParents, Exclusion, Lineage,
};

fn edge(child: &str, parent: &str) -> (String, String) {
    (child.to_owned(), parent.to_owned())
}

fn names(list: &[String]) -> Vec<&str> {
    list.iter().map(|name| name.as_str()).collect()
}

fn sorted(list: &[String]) -> Vec<&str> {
    let mut out = names(list);
    out.sort();
    out
}

fn placement(id: &str, x: f64) -> Placement {
    Placement {
        piece_id: id.to_owned(),
        rotation_deg_bits: 0.0f64.to_bits(),
        mirrored: false,
        translate_short_axis_bits: x.to_bits(),
        translate_long_axis_bits: 0.0f64.to_bits(),
    }
}

fn basin(fingerprint: &str, depth: f64, x: f64, parent: Option<&str>, second: Option<&str>) -> ArchivedBasin {
    ArchivedBasin {
        fingerprint: fingerprint.to_owned(),
        raw_depth_bits: depth.to_bits(),
        birth_seconds_bits: 0.0f64.to_bits(),
        birth_work_units: 0,
        operator: BasinOperator::Mode(22),
        parent_fingerprint: parent.map(str::to_owned),
        secondary_parent_fingerprint: second.map(str::to_owned),
        exact_valid: true,
        descents: 0,
        placements: vec![placement("a", x)],
    }
}

#[test]
fn parent_edges_drop_self_edges_and_repeats() {
    let edges = vec![edge("b", "a"), edge("b", "b"), edge("c", "b"), edge("b", "a"), edge("c", "a")];
    let kept = parent_edges(&edges);
    assert_eq!(kept, vec![edge("b", "a"), edge("c", "b"), edge("c", "a")]);
}

#[test]
fn ancestors_and_descendants_follow_the_edges() {
    let edges = vec![edge("b", "a"), edge("c", "b"), edge("d", "c"), edge("d", "x"), edge("e", "a")];
    let up = reachable_from(&edges, &"d".to_owned(), true);
    assert_eq!(up[0], "d");
    assert_eq!(sorted(&up), vec!["a", "b", "c", "d", "x"]);
    let down = reachable_from(&edges, &"a".to_owned(), false);
    assert_eq!(down[0], "a");
    assert_eq!(sorted(&down), vec!["a", "b", "c", "d", "e"]);
    let alone = reachable_from(&edges, &"z".to_owned(), true);
    assert_eq!(names(&alone), vec!["z"]);
}

#[test]
fn a_cycle_of_edges_still_terminates() {
    let edges = vec![edge("a", "b"), edge("b", "c"), edge("c", "a")];
    assert_eq!(sorted(&reachable_from(&edges, &"a".to_owned(), true)), vec!["a", "b", "c"]);
    assert_eq!(sorted(&reachable_from(&edges, &"a".to_owned(), false)), vec!["a", "b", "c"]);
}

#[test]
fn the_genealogy_counts_refused_calls_too() {
    let members = vec![basin("root", 200.0, 0.0, None, None), basin("child", 190.0, 1.0, Some("root"), Some("root"))];
    let calls = vec![
        CallParents {
            result_fingerprint: Some("refused".to_owned()),
            parent_fingerprint: Some("child".to_owned()),
            secondary_parent_fingerprint: None,
        },
        CallParents { result_fingerprint: None, parent_fingerprint: Some("root".to_owned()), secondary_parent_fingerprint: None },
        CallParents {
            result_fingerprint: Some("child".to_owned()),
            parent_fingerprint: Some("child".to_owned()),
            secondary_parent_fingerprint: Some("other".to_owned()),
        },
    ];
    let edges = genealogy_edges(&members, &calls);
    assert_eq!(
        edges,
        vec![edge("child", "root"), edge("child", "root"), edge("refused", "child"), edge("child", "child"), edge("child", "other")]
    );
    let genealogy = lineage(&members, &calls);
    assert_eq!(genealogy.parents, vec![edge("child", "root"), edge("refused", "child"), edge("child", "other")]);
    assert_eq!(sorted(&genealogy.ancestors(&"refused".to_owned())), vec!["child", "other", "refused", "root"]);
    assert_eq!(sorted(&genealogy.descendants(&"root".to_owned())), vec!["child", "refused", "root"]);
}

#[test]
fn the_ledger_selections_are_the_archive_frontiers() {
    let mut archive = SearchArchive::new(8, 1, 0.5f64.to_bits());
    archive.offer(basin("best", 100.0, 1.0, None, None));
    archive.offer(basin("twin", 105.0, 1.0, None, None));
    archive.offer(basin("second", 110.0, 2.0, None, None));
    archive.offer(basin("third", 120.0, 3.0, None, None));
    archive.offer(basin("fourth", 130.0, 4.0, None, None));
    let selection = ledger_selection(&archive, 1, 0);
    assert_eq!(names(&selection.descent), vec!["best"]);
    assert_eq!(names(&selection.crossover), vec!["best", "second"]);
    assert_eq!(names(&selection.full), vec!["best", "second", "third", "fourth"]);
    assert_eq!(exclusion_of(&"best".to_owned(), &selection), None);
    assert_eq!(exclusion_of(&"third".to_owned(), &selection), Some(Exclusion::TopK));
    assert_eq!(exclusion_of(&"twin".to_owned(), &selection), Some(Exclusion::Similarity));
    assert!(selection.full.starts_with(&selection.crossover));
    assert!(selection.full.starts_with(&selection.descent));
    let wider = ledger_selection(&archive, 0, 3);
    assert!(wider.full.starts_with(&wider.crossover));
    let widest = ledger_selection(&archive, 9, 9);
    assert_eq!(widest.crossover, widest.full);
    assert!(wider.descent.is_empty());
    assert_eq!(names(&wider.crossover), vec!["best", "second", "third"]);
}

#[test]
fn an_empty_archive_selects_nothing() {
    let archive = SearchArchive::new(4, 1, 0.5f64.to_bits());
    let selection = ledger_selection(&archive, 3, 3);
    assert!(selection.descent.is_empty() && selection.crossover.is_empty() && selection.full.is_empty());
    assert_eq!(exclusion_of(&"gone".to_owned(), &selection), Some(Exclusion::Similarity));
}

#[test]
fn generations_count_the_fewest_steps() {
    let edges = vec![edge("b", "a"), edge("c", "b"), edge("d", "c"), edge("d", "a"), edge("e", "d")];
    assert_eq!(generations(&edges, &"a".to_owned(), &"a".to_owned(), false), Some(0));
    assert_eq!(generations(&edges, &"a".to_owned(), &"b".to_owned(), false), Some(1));
    assert_eq!(generations(&edges, &"a".to_owned(), &"d".to_owned(), false), Some(1));
    assert_eq!(generations(&edges, &"a".to_owned(), &"e".to_owned(), false), Some(2));
    assert_eq!(generations(&edges, &"e".to_owned(), &"a".to_owned(), true), Some(2));
    assert_eq!(generations(&edges, &"b".to_owned(), &"a".to_owned(), false), None);
    assert_eq!(generations(&edges, &"a".to_owned(), &"z".to_owned(), false), None);
    let genealogy = Lineage { parents: parent_edges(&edges) };
    assert_eq!(genealogy.generations_to(&"b".to_owned(), &"e".to_owned()), Some(3));
}

#[test]
fn ancestry_and_descent_are_one_relation() {
    let edges = vec![edge("b", "a"), edge("c", "b"), edge("d", "x"), edge("c", "d")];
    let layouts = ["a", "b", "c", "d", "x", "y"];
    for layout in layouts {
        let up = reachable_from(&edges, &layout.to_owned(), true);
        for other in layouts {
            let down = reachable_from(&edges, &other.to_owned(), false);
            assert_eq!(
                up.iter().any(|name| name == other),
                down.iter().any(|name| name == layout),
                "{other} above {layout}"
            );
        }
    }
}

#[test]
fn actions_are_counted_per_parent() {
    let call = |first: Option<&str>, second: Option<&str>| CallParents {
        result_fingerprint: None,
        parent_fingerprint: first.map(str::to_owned),
        secondary_parent_fingerprint: second.map(str::to_owned),
    };
    let calls = vec![call(Some("a"), None), call(Some("b"), Some("a")), call(None, Some("c")), call(Some("a"), Some("a"))];
    assert_eq!(actions_received(&"a".to_owned(), &calls), 3);
    assert_eq!(actions_received(&"b".to_owned(), &calls), 1);
    assert_eq!(actions_received(&"c".to_owned(), &calls), 1);
    assert_eq!(actions_received(&"d".to_owned(), &calls), 0);
    let members = vec![
        basin("a", 100.0, 0.0, None, None),
        basin("d", 110.0, 1.0, None, None),
        basin("e", 120.0, 2.0, None, None),
    ];
    assert_eq!(members_without_action(&members, &calls), 2);
    assert_eq!(members_without_action(&members, &Vec::new()), 3);
}

#[test]
fn the_incumbent_lineage_is_in_birth_order() {
    let born = |fingerprint: &str, units: u64| {
        let mut member = basin(fingerprint, 100.0 + units as f64, units as f64, None, None);
        member.birth_work_units = units;
        member
    };
    let members = vec![born("late", 30), born("early", 10), born("outsider", 5), born("middle", 20), born("tied", 10)];
    let ancestors = vec!["tied".to_owned(), "late".to_owned(), "early".to_owned(), "middle".to_owned(), "gone".to_owned()];
    let steps = lineage_steps(&members, &ancestors);
    let order: Vec<&str> = steps.iter().map(|step| step.fingerprint.as_str()).collect();
    assert_eq!(order, vec!["early", "tied", "middle", "late"]);
    assert_eq!(steps[0].birth_work_units, 10);
    assert_eq!(steps[0].operator, "mode22");
    assert_eq!(steps[3].raw_depth_bits, 130.0f64.to_bits());
    assert!(lineage_steps(&members, &Vec::new()).is_empty());
}

#[test]
fn depth_ranks_are_positions_in_the_depth_order() {
    let members = vec![
        basin("m", 120.0, 0.0, None, None),
        basin("b", 100.0, 1.0, None, None),
        basin("a", 120.0, 2.0, None, None),
        basin("z", -0.0, 3.0, None, None),
        basin("y", 0.0, 4.0, None, None),
    ];
    assert_eq!(depth_ranks(&members), vec![4, 2, 3, 0, 1]);
    assert!(depth_ranks(&Vec::new()).is_empty());
}
