use polygon_nesting_core::portfolio::archive::Placement;
use polygon_nesting_core::portfolio::crossover::{cut_groups, hybrid_at};

fn pose(id: &str, short: f64, long: f64) -> Placement {
    Placement {
        piece_id: id.to_owned(),
        rotation_deg_bits: 0.0f64.to_bits(),
        mirrored: false,
        translate_short_axis_bits: short.to_bits(),
        translate_long_axis_bits: long.to_bits(),
    }
}

fn long_axis(placement: &Placement) -> f64 {
    f64::from_bits(placement.translate_long_axis_bits)
}

#[test]
fn the_hybrid_at_a_threshold_takes_a_below_it_and_b_on_or_above_it() {
    let left = vec![pose("a", 0.0, 1.0), pose("b", 10.0, 1.0), pose("c", 20.0, 1.0)];
    let right = vec![pose("a", 0.0, 9.0), pose("b", 10.0, 9.0), pose("c", 20.0, 9.0)];
    let (hybrid, from_left, from_right) = hybrid_at(&left, &right, 10.0f64.to_bits()).expect("hybrid");
    assert_eq!((from_left, from_right), (1, 2));
    assert_eq!(long_axis(&hybrid[0]), 1.0);
    assert_eq!(long_axis(&hybrid[1]), 9.0);
    assert_eq!(long_axis(&hybrid[2]), 9.0);
    assert_eq!(hybrid[2].piece_id, "c");
}

#[test]
fn a_piece_the_right_parent_lacks_refuses_the_hybrid() {
    let left = vec![pose("a", 0.0, 1.0), pose("z", 20.0, 1.0)];
    let right = vec![pose("a", 0.0, 9.0)];
    assert!(hybrid_at(&left, &right, 10.0f64.to_bits()).is_none());
    let (hybrid, from_left, from_right) = hybrid_at(&left, &right, 30.0f64.to_bits()).expect("all below");
    assert_eq!((from_left, from_right), (2, 0));
    assert_eq!(long_axis(&hybrid[1]), 1.0);
}

#[test]
fn a_nan_threshold_sends_every_piece_right() {
    let left = vec![pose("a", 0.0, 1.0)];
    let right = vec![pose("a", 0.0, 9.0)];
    let (_, from_left, from_right) = hybrid_at(&left, &right, f64::NAN.to_bits()).expect("hybrid");
    assert_eq!((from_left, from_right), (0, 1));
    let zero = hybrid_at(&left, &right, (-0.0f64).to_bits()).expect("hybrid");
    assert_eq!(zero.1, 0, "zero is not below negative zero");
}

#[test]
fn the_right_pose_is_the_last_one_of_its_piece() {
    let left = vec![pose("a", 5.0, 1.0)];
    let right = vec![pose("a", 0.0, 3.0), pose("a", 0.0, 4.0)];
    let (hybrid, _, _) = hybrid_at(&left, &right, 0.0f64.to_bits()).expect("hybrid");
    assert_eq!(long_axis(&hybrid[0]), 4.0);
}

#[test]
fn the_cut_groups_are_one_per_occupied_position_in_order() {
    let left = vec![pose("d", 30.0, 0.0), pose("a", 0.0, 0.0), pose("c", 20.0, 0.0), pose("b", 10.0, 0.0)];
    let right = left
        .iter()
        .map(|placement| pose(&placement.piece_id, f64::from_bits(placement.translate_short_axis_bits), 7.0))
        .collect::<Vec<_>>();
    let groups = cut_groups(&left, &right);
    let positions = groups.iter().map(|group| f64::from_bits(group.0)).collect::<Vec<_>>();
    assert_eq!(positions, vec![0.0, 10.0, 20.0, 30.0]);
    assert!(groups.iter().all(|group| group.1 == 1));
}

#[test]
fn agreeing_pieces_and_shared_positions_are_counted_once() {
    let left = vec![pose("a", 0.0, 0.0), pose("b", 10.0, 0.0), pose("c", 20.0, 0.0), pose("e", 10.0, 3.0)];
    let right = vec![pose("a", 0.0, 5.0), pose("b", 10.0, 0.0), pose("c", 20.0, 5.0)];
    let groups = cut_groups(&left, &right);
    assert_eq!(groups.len(), 3);
    assert_eq!(groups[0].1, 1);
    assert_eq!(groups[1].1, 1, "b agrees and e has no pose in the right parent");
    assert_eq!(groups[2].1, 1);
    assert_eq!(f64::from_bits(groups[1].0), 10.0);
    let negative = vec![pose("a", -0.0, 0.0), pose("b", 0.0, 0.0)];
    assert_eq!(cut_groups(&negative, &right).len(), 2, "the two zeros are two positions");
}

#[test]
fn a_cut_moved_across_agreeing_pieces_repeats_the_hybrid() {
    let left = vec![pose("a", 0.0, 0.0), pose("b", 10.0, 0.0), pose("c", 20.0, 0.0)];
    let right = vec![pose("a", 0.0, 5.0), pose("b", 10.0, 0.0), pose("c", 20.0, 5.0)];
    let below = hybrid_at(&left, &right, 5.0f64.to_bits()).expect("hybrid");
    let above = hybrid_at(&left, &right, 15.0f64.to_bits()).expect("hybrid");
    assert_ne!((below.1, below.2), (above.1, above.2), "the cut did move a piece");
    let poses = |hybrid: &Vec<Placement>| {
        hybrid
            .iter()
            .map(|placement| (placement.piece_id.clone(), placement.translate_short_axis_bits, placement.translate_long_axis_bits))
            .collect::<Vec<_>>()
    };
    assert_eq!(poses(&below.0), poses(&above.0));
    let groups = cut_groups(&left, &right);
    assert_eq!(groups.iter().map(|group| group.1).collect::<Vec<_>>(), vec![1, 0, 1]);
}
