use ckb_mock_tx_types::{MockTransaction, ReprMockTransaction};
use key_vault::Util;
use key_vault::digest::TxDigestError;

fn default_repr_json() -> Vec<u8> {
    let repr: ReprMockTransaction = MockTransaction::default().into();
    serde_json::to_vec(&repr).expect("serializing a default mock transaction")
}

#[test]
fn well_formed_buffer_parses() {
    let bytes = default_repr_json();
    let r = Util::parse_mock_transaction(&bytes);
    assert!(r.is_ok());
}

#[test]
fn parse_success_is_repeatable() {
    let bytes = default_repr_json();
    let first = Util::parse_mock_transaction(&bytes);
    let second = Util::parse_mock_transaction(&bytes);
    assert!(first.is_ok());
    assert!(second.is_ok());
}

#[test]
fn malformed_buffer_is_a_deserialization_error() {
    let bytes = b"not a mock transaction".to_vec();
    let r = Util::parse_mock_transaction(&bytes);
    match r {
        Err(TxDigestError::Deserialization(msg)) => assert!(!msg.is_empty()),
        _ => panic!("malformed bytes must fail deserialization"),
    }
}

#[test]
fn empty_buffer_is_a_deserialization_error() {
    let bytes: Vec<u8> = Vec::new();
    let r = Util::parse_mock_transaction(&bytes);
    assert!(matches!(r, Err(TxDigestError::Deserialization(_))));
}

#[test]
fn truncated_json_is_a_deserialization_error() {
    let mut bytes = default_repr_json();
    bytes.truncate(bytes.len() / 2);
    let r = Util::parse_mock_transaction(&bytes);
    assert!(matches!(r, Err(TxDigestError::Deserialization(_))));
}

#[test]
fn wrong_schema_is_a_deserialization_error() {
    let bytes = b"{\"mock_info\": 5}".to_vec();
    let r = Util::parse_mock_transaction(&bytes);
    assert!(matches!(r, Err(TxDigestError::Deserialization(_))));
}
