use temporal_pattern::progress::counter_width;

#[test]
fn counter_width_is_floor_of_log10() {
    assert_eq!(counter_width(0), 0);
    assert_eq!(counter_width(1), 0);
    assert_eq!(counter_width(9), 0);
    assert_eq!(counter_width(10), 1);
    assert_eq!(counter_width(99), 1);
    assert_eq!(counter_width(100), 2);
    assert_eq!(counter_width(250), 2);
    assert_eq!(counter_width(999), 2);
    assert_eq!(counter_width(1000), 3);
    assert_eq!(counter_width(u64::MAX), 19);
}
