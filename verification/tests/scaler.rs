use clifford::{derive_extent, is_between, real_from_decimal, scale, PRECISION};

#[test]
fn derive_extent_gives_window_pixel_span() {
    let ppu = real_from_decimal("1000", PRECISION);
    let x_min = real_from_decimal("-1.2", PRECISION);
    let x_max = real_from_decimal("1.2", PRECISION);
    let y_min = real_from_decimal("-2.0", PRECISION);
    let y_max = real_from_decimal("2.3", PRECISION);
    assert_eq!(derive_extent(&x_min, &x_max, &ppu, PRECISION), Some(2400));
    assert_eq!(derive_extent(&y_min, &y_max, &ppu, PRECISION), Some(4300));
    // An empty window spans no pixels.
    assert_eq!(derive_extent(&x_max, &x_max, &ppu, PRECISION), Some(0));
}

#[test]
fn scale_at_min_is_zero() {
    let lo = real_from_decimal("-2.5", PRECISION);
    let hi = real_from_decimal("2.5", PRECISION);
    let x = real_from_decimal("-2.5", PRECISION);
    assert_eq!(scale(&lo, &hi, 0, 49, &x, PRECISION), Some(0));
}

#[test]
fn scale_at_max_hits_top_of_range() {
    let lo = real_from_decimal("-2.5", PRECISION);
    let hi = real_from_decimal("2.5", PRECISION);
    let x = real_from_decimal("2.5", PRECISION);
    assert_eq!(scale(&lo, &hi, 0, 49, &x, PRECISION), Some(49));
}

#[test]
fn scale_midpoint_truncates_toward_zero() {
    let lo = real_from_decimal("-2.5", PRECISION);
    let hi = real_from_decimal("2.5", PRECISION);
    let x = real_from_decimal("0", PRECISION);
    // (0 - (-2.5)) / 5 * 49 = 24.5, truncated to 24.
    assert_eq!(scale(&lo, &hi, 0, 49, &x, PRECISION), Some(24));
}

#[test]
fn scale_does_not_clamp_and_inclusion_test_rejects() {
    let lo = real_from_decimal("-2.5", PRECISION);
    let hi = real_from_decimal("2.5", PRECISION);
    let x = real_from_decimal("3.0", PRECISION);
    // (3 + 2.5) / 5 * 49 = 53.9, truncated to 53: outside the pixel range,
    // and the inclusion test, not the scaler, must reject it.
    let s = scale(&lo, &hi, 0, 49, &x, PRECISION);
    assert_eq!(s, Some(53));
    assert!(!is_between(0, 49, s.unwrap()));
}

#[test]
fn scale_with_nonzero_output_min() {
    let lo = real_from_decimal("0", PRECISION);
    let hi = real_from_decimal("1", PRECISION);
    let x = real_from_decimal("0.5", PRECISION);
    // 10 + trunc(0.5 * 10) = 15.
    assert_eq!(scale(&lo, &hi, 10, 20, &x, PRECISION), Some(15));
}

#[test]
fn scale_degenerate_interval_has_no_value() {
    let lo = real_from_decimal("1.25", PRECISION);
    let hi = real_from_decimal("1.25", PRECISION);
    let x = real_from_decimal("1.25", PRECISION);
    assert_eq!(scale(&lo, &hi, 0, 49, &x, PRECISION), None);
}

#[test]
fn is_between_is_inclusive_on_both_ends() {
    assert!(is_between(0, 49, 0));
    assert!(is_between(0, 49, 49));
    assert!(is_between(0, 49, 17));
    assert!(!is_between(0, 49, -1));
    assert!(!is_between(0, 49, 50));
}
