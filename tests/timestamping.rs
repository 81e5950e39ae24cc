use memorydb::storage::Patch;
use memorydb::timestamping::{
    MessageError, RawTransaction, TimestampTx, TimestampingService, TimestampingTxGenerator,
    TIMESTAMPING_SERVICE, TIMESTAMPING_TRANSACTION_MESSAGE_ID,
};

fn body(key: u8, offset: u32, len: u32, tail: &[u8]) -> Vec<u8> {
    let mut b = vec![key; 32];
    b.extend_from_slice(&offset.to_le_bytes());
    b.extend_from_slice(&len.to_le_bytes());
    b.extend_from_slice(tail);
    b
}

#[test]
fn service_id_is_timestamping() {
    assert_eq!(TimestampingService::new().service_id(), 129);
    assert_eq!(TIMESTAMPING_SERVICE, 129);
    assert_eq!(TIMESTAMPING_TRANSACTION_MESSAGE_ID, 128);
}

#[test]
fn tx_from_raw_decodes() {
    let s = TimestampingService::new();
    let raw = RawTransaction::new(128, body(7, 40, 3, &[1, 2, 3]));
    let tx = s.tx_from_raw(raw).ok().unwrap();
    assert_eq!(tx.pub_key, vec![7; 32]);
    assert_eq!(tx.data, vec![1, 2, 3]);
}

#[test]
fn tx_from_raw_empty_data() {
    let s = TimestampingService::new();
    let tx = s.tx_from_raw(RawTransaction::new(128, body(1, 40, 0, &[]))).ok().unwrap();
    assert!(tx.data.is_empty());
}

#[test]
fn tx_from_raw_wrong_type() {
    let s = TimestampingService::new();
    let r = s.tx_from_raw(RawTransaction::new(5, body(7, 40, 0, &[])));
    assert!(matches!(r, Err(MessageError::IncorrectMessageType { message_type: 5 })));
}

#[test]
fn tx_from_raw_short_payload() {
    let s = TimestampingService::new();
    let r = s.tx_from_raw(RawTransaction::new(128, vec![0; 39]));
    assert!(matches!(
        r,
        Err(MessageError::UnexpectedlyShortPayload { actual_size: 39, minimum_size: 40 })
    ));
}

#[test]
fn tx_from_raw_bad_segment_reference() {
    let r = TimestampTx::from_raw(RawTransaction::new(128, body(0, 39, 1, &[1])));
    assert!(matches!(
        r,
        Err(MessageError::IncorrectSegmentReference { position: 32, value: 39 })
    ));
}

#[test]
fn tx_from_raw_bad_segment_size() {
    let r = TimestampTx::from_raw(RawTransaction::new(128, body(0, 40, 2, &[1])));
    assert!(matches!(r, Err(MessageError::IncorrectSegmentSize { position: 36, value: 2 })));
    let r = TimestampTx::from_raw(RawTransaction::new(128, body(0, u32::MAX, u32::MAX, &[])));
    assert!(matches!(r, Err(MessageError::IncorrectSegmentSize { .. })));
}

#[test]
fn execute_succeeds() {
    let tx = TimestampTx::new(&[3; 32], &[1]);
    assert!(tx.execute(&Patch::new()).is_ok());
}

#[test]
fn generator_makes_data_of_requested_size() {
    let key = vec![9u8; 32];
    let mut g = TimestampingTxGenerator::new(8, &key);
    let a = g.next().unwrap();
    let b = g.next().unwrap();
    assert_eq!(a.pub_key, key);
    assert_eq!(a.data.len(), 8);
    assert_eq!(b.data.len(), 8);
    assert_ne!(a.data, vec![0; 8]);
    assert_ne!(a.data, b.data);
}

#[test]
fn generator_is_deterministic() {
    let key = vec![1u8; 32];
    let mut g1 = TimestampingTxGenerator::new(16, &key);
    let mut g2 = TimestampingTxGenerator::new(16, &key);
    assert_eq!(g1.next().unwrap().data, g2.next().unwrap().data);
}
