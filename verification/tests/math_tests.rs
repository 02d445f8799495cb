use oversampler::math::sinc_filter_len;

#[test]
fn engine_bandwidth_gives_51_taps() {
    // The transition bandwidth the oversampling engine is built with,
    // 8/100: ceil(4 / 0.08) = 50, forced odd to 51.
    assert_eq!(sinc_filter_len(8, 100), 51);
}

#[test]
fn length_is_forced_odd() {
    // ceil(4 / 2) = 2 is even, so the length becomes 3.
    assert_eq!(sinc_filter_len(2, 1), 3);
    // ceil(4 / 1) = 4 is even, so the length becomes 5.
    assert_eq!(sinc_filter_len(1, 1), 5);
    // ceil(4 / (4/10)) = 10 is even, so the length becomes 11.
    assert_eq!(sinc_filter_len(4, 10), 11);
}

#[test]
fn length_is_odd_for_many_bandwidths() {
    let mut num: u64 = 1;
    while num <= 200 {
        let mut den: u64 = 1;
        while den <= 50 {
            assert_eq!(sinc_filter_len(num, den) % 2, 1);
            den += 1;
        }
        num += 7;
    }
}

#[test]
fn zero_bandwidth_is_clamped() {
    // A collapsed bandwidth is clamped to the 1e-10 floor:
    // ceil(4e10) = 40_000_000_000, forced odd.
    assert_eq!(sinc_filter_len(0, 1), 40_000_000_001);
}
