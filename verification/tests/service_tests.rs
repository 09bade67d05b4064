use fraud_detector::hnsw::HNSW;
use fraud_detector::kdtree::KdTree;
use fraud_detector::repository::FraudRepository;
use fraud_detector::service::{is_unknown_merchant, FraudService, DEFAULT_MCC_RISK};

fn empty_repository() -> FraudRepository {
    let mut bytes = Vec::new();
    bytes.extend_from_slice(&0u32.to_le_bytes());
    bytes.extend_from_slice(&14u16.to_le_bytes());
    FraudRepository::new(bytes)
}

#[test]
fn service_parameters() {
    let service = FraudService::new(KdTree::new(empty_repository()));
    assert_eq!(service.max_amount, 10000);
    assert_eq!(service.max_installments, 12);
    assert_eq!(service.amount_vs_avg_ratio, 10);
    assert_eq!(service.max_minutes, 1440);
    assert_eq!(service.max_km, 1000);
    assert_eq!(service.max_tx_count_24h, 20);
    assert_eq!(service.max_merchant_avg_amount, 10000);
    assert_eq!(service.mcc_risk.len(), 10);
}

#[test]
fn mcc_risks() {
    let service = FraudService::new(KdTree::new(empty_repository()));
    assert_eq!(service.mcc_risk_of(&"5411".to_string()), 1500);
    assert_eq!(service.mcc_risk_of(&"7995".to_string()), 8500);
    assert_eq!(service.mcc_risk_of(&"5999".to_string()), 5000);
    assert_eq!(service.mcc_risk_of(&"0000".to_string()), DEFAULT_MCC_RISK);
    assert_eq!(service.mcc_risk_of(&"".to_string()), 5000);
    assert_eq!(1500u32 as f32 / 10000.0, 0.15f32);
}

#[test]
fn unknown_merchants() {
    let known = vec!["m-1".to_string(), "m-2".to_string()];
    assert!(!is_unknown_merchant(&"m-2".to_string(), &known));
    assert!(is_unknown_merchant(&"m-3".to_string(), &known));
    assert!(is_unknown_merchant(&"m-1".to_string(), &[]));
}

#[test]
fn hnsw_holds_the_repository() {
    let _index = HNSW::new(empty_repository());
}

#[test]
fn every_code_of_the_table_is_found_once() {
    let service = FraudService::new(KdTree::new(empty_repository()));
    for (i, entry) in service.mcc_risk.iter().enumerate() {
        for other in &service.mcc_risk[i + 1..] {
            assert_ne!(entry.mcc, other.mcc);
        }
        assert_eq!(service.mcc_risk_of(&entry.mcc), entry.risk);
    }
}
