use fraud_detector::order::order_key;

fn key(x: f64) -> u64 {
    order_key(x.to_bits())
}

#[test]
fn keys_order_like_values() {
    let values = [
        f64::NEG_INFINITY,
        -1.0e300,
        -2.5,
        -1.0,
        -1.0e-300,
        0.0,
        1.0e-300,
        0.5,
        1.0,
        3.0e10,
        f64::INFINITY,
    ];
    for i in 0..values.len() {
        for j in 0..values.len() {
            assert_eq!(key(values[i]) < key(values[j]), values[i] < values[j]);
            assert_eq!(key(values[i]) == key(values[j]), values[i] == values[j]);
        }
    }
}

#[test]
fn both_zeros_share_a_key() {
    assert_eq!(key(-0.0), key(0.0));
    assert_eq!(key(0.0), 0x8000_0000_0000_0000);
}

#[test]
fn key_values() {
    assert_eq!(key(1.0), 0x3FF0_0000_0000_0000 + 0x8000_0000_0000_0000);
    assert_eq!(key(-1.0), u64::MAX - 0xBFF0_0000_0000_0000);
}
