use citegraph::Connectivity;

#[test]
fn factor_must_exceed_one() {
    assert!(Connectivity::new(13, 4).is_some());
    assert!(Connectivity::new(2, 1).is_some());
    assert!(Connectivity::new(1, 1).is_none());
    assert!(Connectivity::new(3, 4).is_none());
    assert!(Connectivity::new(5, 0).is_none());
}

#[test]
fn threshold_takes_the_floor_of_the_power() {
    // 3.25^0 = 1, 3.25^1 = 3.25, 3.25^2 = 10.5625, 3.25^3 = 34.328...
    let c = Connectivity::new(13, 4).unwrap();
    assert_eq!(c.threshold(0), Some(1));
    assert_eq!(c.threshold(1), Some(3));
    assert_eq!(c.threshold(2), Some(10));
    assert_eq!(c.threshold(3), Some(34));
}

#[test]
fn threshold_grows_with_the_round() {
    let c = Connectivity::new(8, 5).unwrap();
    let mut last = 0u64;
    for round in 0..20 {
        let t = c.threshold(round).unwrap();
        assert!(t >= last);
        last = t;
    }
}

#[test]
fn threshold_overflows_to_none() {
    let c = Connectivity::new(1u64 << 32, 1).unwrap();
    assert_eq!(c.threshold(0), Some(1));
    assert_eq!(c.threshold(1), Some(1u64 << 32));
    assert_eq!(c.threshold(2), None);
}

#[test]
fn threshold_is_exact_for_wide_fractions() {
    // 3.25 written as millionths gives the same bars as 13/4, even
    // where the raw powers are far beyond a machine word
    let c = Connectivity::new(3_250_000, 1_000_000).unwrap();
    assert_eq!(c.threshold(0), Some(1));
    assert_eq!(c.threshold(1), Some(3));
    assert_eq!(c.threshold(2), Some(10));
    assert_eq!(c.threshold(3), Some(34));
    assert_eq!(c.threshold(4), Some(111));
}

#[test]
fn threshold_survives_overflowing_powers() {
    // 2^33 over 2^32 is just 2: the bar stays small however large the
    // raw powers grow, and turns None exactly when it passes the
    // machine-word bound
    let c = Connectivity::new(1u64 << 33, 1u64 << 32).unwrap();
    assert_eq!(c.threshold(10), Some(1024));
    assert_eq!(c.threshold(63), Some(1u64 << 63));
    assert_eq!(c.threshold(64), None);
}
