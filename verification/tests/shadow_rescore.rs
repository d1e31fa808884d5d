use polygon_nesting_core::shadow_rescore::{
    derived_ulp_distance, record_agreement, record_disagreement, record_magnitude_only, reset,
    snapshot, ShadowRescoreSnapshot,
};

#[test]
fn the_tallies_count_each_kind_and_keep_the_first_rendering() {
    let mut tally = ShadowRescoreSnapshot::default();
    record_agreement(&mut tally, 0);
    record_agreement(&mut tally, 3);
    record_magnitude_only(&mut tally, "first magnitude".to_owned(), 7);
    record_magnitude_only(&mut tally, "second magnitude".to_owned(), 2);
    record_disagreement(&mut tally, "first structure".to_owned());
    record_disagreement(&mut tally, "second structure".to_owned());
    let seen = snapshot(&tally);
    assert_eq!(seen.checks, 6);
    assert_eq!(seen.derived_gap_audits, 1);
    assert_eq!(seen.max_derived_ulps, 3);
    assert_eq!(seen.magnitude_only_audits, 2);
    assert_eq!(seen.max_magnitude_ulps, 7);
    assert_eq!(seen.structural_disagreements, 2);
    assert_eq!(seen.first_structural_disagreement.as_deref(), Some("first structure"));
    assert_eq!(seen.first_magnitude_disagreement.as_deref(), Some("first magnitude"));
    assert_eq!(seen, tally);
    reset(&mut tally);
    assert_eq!(tally, ShadowRescoreSnapshot::default());
}

#[test]
fn the_counters_wrap_as_an_atomic_add_does() {
    let mut tally = ShadowRescoreSnapshot { checks: u64::MAX, ..ShadowRescoreSnapshot::default() };
    record_agreement(&mut tally, 0);
    assert_eq!(tally.checks, 0);
}

#[test]
fn the_ulp_distance_reads_the_bit_patterns() {
    let one = 1.0f64;
    let next = f64::from_bits(one.to_bits() + 1);
    assert_eq!(derived_ulp_distance(one.to_bits(), one.to_bits()), 0);
    assert_eq!(derived_ulp_distance(one.to_bits(), next.to_bits()), 1);
    assert_eq!(derived_ulp_distance(next.to_bits(), one.to_bits()), 1);
    assert_eq!(derived_ulp_distance(0.0f64.to_bits(), (-0.0f64).to_bits()), 0);
    assert_eq!(derived_ulp_distance(one.to_bits(), (-1.0f64).to_bits()), u64::MAX);
    assert_eq!(derived_ulp_distance(f64::NAN.to_bits(), f64::NAN.to_bits()), u64::MAX);
    assert_eq!(derived_ulp_distance(f64::INFINITY.to_bits(), f64::INFINITY.to_bits()), 0);
    assert_eq!(derived_ulp_distance(f64::INFINITY.to_bits(), f64::MAX.to_bits()), u64::MAX);
}
