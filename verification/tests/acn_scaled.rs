use lib::acn_scaled::{acn_scaled_sint_from_offset, acn_scaled_sint_offset, acn_scaled_sint_range};

#[test]
fn scaled_range_spans_the_bounds() {
    assert_eq!(acn_scaled_sint_range(-10, 10), 20);
    assert_eq!(acn_scaled_sint_range(i64::MIN, i64::MAX), u64::MAX);
    assert_eq!(acn_scaled_sint_range(5, -5), u64::MAX - 9);
}

#[test]
fn scaled_offset_roundtrip() {
    assert_eq!(acn_scaled_sint_offset(-3, -10), 7);
    assert_eq!(acn_scaled_sint_from_offset(-10, 7), -3);
    assert_eq!(acn_scaled_sint_from_offset(i64::MIN, u64::MAX), i64::MAX);
    for &(v, m) in &[(0i64, i64::MIN), (i64::MIN, i64::MAX), (42, 17), (-1, 0)] {
        assert_eq!(acn_scaled_sint_from_offset(m, acn_scaled_sint_offset(v, m)), v);
    }
}
