use polygon_nesting_core::round_envelope_gate::{
    placement_pieces, trim, ArmedKernel, BoundaryRow, Census, KernelMode, PairRow,
};

fn pair(first: usize, second: usize, admissible: bool, critical: Option<i64>) -> PairRow {
    PairRow {
        first_index: first,
        second_index: second,
        first_piece_id: format!("p{first}"),
        second_piece_id: format!("p{second}"),
        admissible,
        critical_two_r_micron: critical,
        critical_saturated: false,
        certified_by_box: false,
        narrow_segment_pairs: 0,
    }
}

fn boundary(index: usize, admissible: bool, critical: Option<i64>) -> BoundaryRow {
    BoundaryRow { index, piece_id: format!("p{index}"), admissible, critical_radius_micron: critical }
}

fn census(pairs: Vec<PairRow>, boundaries: Vec<BoundaryRow>) -> Census {
    Census {
        label: "test".to_owned(),
        envelope: "round".to_owned(),
        expansion_mm_bits: 0.5f64.to_bits(),
        radius_micron: 500,
        sheet_inset_mm_bits: 1.0f64.to_bits(),
        inset_box_micron: [0, 0, 1_000, 2_000],
        certified: false,
        admissible: false,
        pair_count: pairs.len(),
        pair_failure_count: 0,
        boundary_failure_count: 0,
        pairs,
        boundaries,
        box_certified_pairs: 0,
        narrow_segment_pairs: 0,
        envelope_vertex_total: 0,
    }
}

#[test]
fn the_trim_keeps_every_failure_and_the_tightest_rest() {
    let mut report = census(
        vec![
            pair(0, 1, true, Some(900)),
            pair(0, 2, false, None),
            pair(1, 2, true, Some(300)),
            pair(0, 3, false, Some(-20)),
            pair(2, 3, true, Some(300)),
        ],
        vec![boundary(0, true, Some(50)), boundary(1, false, None), boundary(2, true, Some(10))],
    );
    trim(&mut report, 1);
    let pairs = report.pairs.iter().map(|row| (row.first_index, row.second_index)).collect::<Vec<_>>();
    assert_eq!(pairs, vec![(0, 2), (0, 3)], "two failures outnumber a top of one");
    let boundaries = report.boundaries.iter().map(|row| row.index).collect::<Vec<_>>();
    assert_eq!(boundaries, vec![1]);
    assert_eq!(report.pair_count, 5, "the counts are the census's, not the trimmed list's");

    let mut wide = census(
        vec![pair(0, 1, true, Some(900)), pair(1, 2, true, Some(300)), pair(2, 3, true, Some(300))],
        Vec::new(),
    );
    trim(&mut wide, 2);
    let pairs = wide.pairs.iter().map(|row| (row.first_index, row.second_index)).collect::<Vec<_>>();
    assert_eq!(pairs, vec![(1, 2), (2, 3)], "tightest first, ties by index");
    trim(&mut wide, 10);
    assert_eq!(wide.pairs.len(), 2);
}

#[test]
fn every_placement_names_its_piece_or_the_census_is_refused() {
    let pieces = vec!["a".to_owned(), "b".to_owned(), "a".to_owned()];
    let placed = vec!["b".to_owned(), "a".to_owned()];
    assert_eq!(placement_pieces(&pieces, &placed), Ok(vec![1, 2]));
    let stray = vec!["a".to_owned(), "zz".to_owned(), "yy".to_owned()];
    assert_eq!(placement_pieces(&pieces, &stray), Err("unknown piece zz".to_owned()));
    assert_eq!(placement_pieces(&pieces, &[]), Ok(Vec::new()));
}

#[test]
fn the_kernel_arming_restores_what_it_found() {
    let mut mode = KernelMode::Off;
    let outer = ArmedKernel::install(&mut mode, KernelMode::Union);
    assert_eq!(mode, KernelMode::Union);
    let inner = ArmedKernel::install(&mut mode, KernelMode::Exclusive);
    assert_eq!(mode, KernelMode::Exclusive);
    inner.restore(&mut mode);
    assert_eq!(mode, KernelMode::Union);
    outer.restore(&mut mode);
    assert_eq!(mode, KernelMode::Off);
}
