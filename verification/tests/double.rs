use codex_account_switcher::double::double_at_most;

#[test]
fn doubles_compare_like_the_machine_does() {
    let doubles = [
        0.0f64,
        -0.0,
        0.5,
        -0.5,
        1.0,
        -1.0,
        1.5,
        -1.5,
        f64::MIN_POSITIVE,
        -f64::MIN_POSITIVE,
        f64::from_bits(1),
        1_700_000_000.25,
        1_700_000_000.0,
        4_102_444_800.0,
        4_503_599_627_370_495.5,
        9_007_199_254_740_992.0,
        -9_007_199_254_740_992.0,
        9.3e18,
        -9.3e18,
        1e19,
        -1e19,
        1e300,
        -1e300,
        f64::MAX,
        f64::MIN,
        f64::INFINITY,
        f64::NEG_INFINITY,
        f64::NAN,
    ];
    let times = [
        0i64,
        1,
        -1,
        2,
        -2,
        1_699_999_999,
        1_700_000_000,
        1_700_000_001,
        4_102_444_799,
        4_102_444_800,
        4_503_599_627_370_495,
        9_007_199_254_740_992,
        -9_007_199_254_740_992,
    ];
    for x in doubles {
        for n in times {
            assert_eq!(double_at_most(x.to_bits(), n), x <= n as f64, "{x} {n}");
        }
    }
    assert!(!double_at_most(1e19f64.to_bits(), i64::MAX));
    assert!(double_at_most((-1e19f64).to_bits(), i64::MIN));
    assert!(double_at_most(9.0e18f64.to_bits(), i64::MAX));
}
