use fraud_detector::format::{feature_to_string, format_features};

#[test]
fn whole_values_are_integers() {
    assert_eq!(feature_to_string(0), "0");
    assert_eq!(feature_to_string(10000), "1");
    assert_eq!(feature_to_string(-10000), "-1");
    assert_eq!(feature_to_string(30000), "3");
}

#[test]
fn fractions_lose_trailing_zeros() {
    assert_eq!(feature_to_string(5000), "0.5");
    assert_eq!(feature_to_string(1500), "0.15");
    assert_eq!(feature_to_string(1234), "0.1234");
    assert_eq!(feature_to_string(1230), "0.123");
    assert_eq!(feature_to_string(5), "0.0005");
    assert_eq!(feature_to_string(12345), "1.2345");
    assert_eq!(feature_to_string(-5), "-0.0005");
    assert_eq!(feature_to_string(-15000), "-1.5");
}

#[test]
fn extreme_values() {
    assert_eq!(feature_to_string(i64::MIN), "-922337203685477.5808");
    assert_eq!(feature_to_string(i64::MAX), "922337203685477.5807");
}

#[test]
fn vector_is_joined_by_commas() {
    let features = [
        Some(5000),
        Some(0),
        Some(10000),
        Some(-10000),
        None,
        Some(1500),
        Some(1),
        Some(0),
        Some(0),
        Some(10000),
        Some(0),
        Some(10000),
        Some(8500),
        Some(3333),
    ];
    assert_eq!(format_features(&features), "0.5,0,1,-1,NaN,0.15,0.0001,0,0,1,0,1,0.85,0.3333");
}

#[test]
fn matches_float_rounding_and_printing() {
    // The text of a value is what rounding it to four decimals and printing
    // the result gives.
    for v in [0.0f32, 0.5, 0.123456, 0.99995, 0.00004, 0.7, 1.0, 0.33333334, 0.0417, 0.08333333] {
        let rounded = (v * 10000.0).round() / 10000.0;
        let expected = if rounded == rounded.trunc() {
            format!("{}", rounded as i64)
        } else {
            let s = format!("{:.4}", rounded);
            s.trim_end_matches('0').to_string()
        };
        assert_eq!(feature_to_string((v * 10000.0).round() as i64), expected);
    }
}
