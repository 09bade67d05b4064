use fraud_detector::repository::{header_ok, FraudRepository};
use fraud_detector::vector::{Label, VECTOR_DIM};

fn file_bytes(records: &[([f64; VECTOR_DIM], u8)], count: u32, dim: u16) -> Vec<u8> {
    let mut bytes = Vec::new();
    bytes.extend_from_slice(&count.to_le_bytes());
    bytes.extend_from_slice(&dim.to_le_bytes());
    for (vector, label) in records {
        for x in vector {
            bytes.extend_from_slice(&x.to_le_bytes());
        }
        bytes.push(*label);
    }
    bytes
}

fn record(base: f64) -> [f64; VECTOR_DIM] {
    let mut v = [0.0; VECTOR_DIM];
    for (i, x) in v.iter_mut().enumerate() {
        *x = base + i as f64 * 0.25;
    }
    v
}

#[test]
fn header_is_checked() {
    let good = file_bytes(&[], 0, 14);
    assert!(header_ok(&good));
    let wrong_dim = file_bytes(&[], 0, 13);
    assert!(!header_ok(&wrong_dim));
    let short = vec![1u8, 0, 0, 0, 14];
    assert!(!header_ok(&short));
}

#[test]
fn records_are_read_back() {
    let records = [(record(1.0), 1u8), (record(-3.5), 0u8), (record(0.125), 2u8)];
    let repo = FraudRepository::new(file_bytes(&records, 3, 14));
    assert_eq!(repo.len(), 3);
    assert!(repo.is_complete());
    for (i, (vector, _)) in records.iter().enumerate() {
        let bits = repo.get_vector(i);
        for d in 0..VECTOR_DIM {
            assert_eq!(f64::from_bits(bits[d]), vector[d]);
            assert_eq!(repo.get_component(i, d), vector[d].to_bits());
        }
    }
    assert_eq!(repo.get_label(0), Label::Fraud);
    assert_eq!(repo.get_label(1), Label::Legit);
    // Only the byte 1 marks fraud.
    assert_eq!(repo.get_label(2), Label::Legit);
}

#[test]
fn count_comes_from_the_header() {
    let records = [(record(1.0), 1u8)];
    let repo = FraudRepository::new(file_bytes(&records, 70_000, 14));
    assert_eq!(repo.len(), 70_000);
    assert!(!repo.is_complete());
    assert!(repo.has_record_at(0));
    assert!(!repo.has_record_at(1));
}

#[test]
fn keys_follow_component_order() {
    let records = [(record(2.0), 0u8), (record(-2.0), 0u8)];
    let repo = FraudRepository::new(file_bytes(&records, 2, 14));
    assert!(repo.get_key(1, 3) < repo.get_key(0, 3));
}

#[test]
fn written_records_read_back_bit_for_bit() {
    let records = [
        ([f64::NAN, -0.0, 0.0, f64::INFINITY, -1.5, 2.25, 1e-300, -1e300, 3.0, 4.0, 5.0, 6.0, 7.0, 8.0], 1u8),
        ([0.125; VECTOR_DIM], 0u8),
        ([-7.0; VECTOR_DIM], 2u8),
    ];
    let bytes = file_bytes(&records, 3, VECTOR_DIM as u16);
    assert!(header_ok(&bytes));
    let repo = FraudRepository::new(bytes);
    assert_eq!(repo.len(), 3);
    assert!(repo.is_complete());
    for (j, (vector, label)) in records.iter().enumerate() {
        assert!(repo.has_record_at(j));
        let bits = repo.get_vector(j);
        for d in 0..VECTOR_DIM {
            assert_eq!(bits[d], vector[d].to_bits());
        }
        let expected = if *label == 1 { Label::Fraud } else { Label::Legit };
        assert!(repo.get_label(j) == expected);
    }
    assert!(!repo.has_record_at(3));
}
