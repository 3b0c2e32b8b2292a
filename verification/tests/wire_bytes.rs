//! Byte-level decoding of statements, log entries and checkpoints.

use attestation_verification::encode::encode;
use attestation_verification::model::Value;
use attestation_verification::wire::{decode_checkpoint, decode_log_entry, decode_statement};

#[test]
fn statement_roundtrips_through_bytes() {
    let wire = encode(&Value::Array(vec![
        Value::Bytes(b"issuer-a".to_vec()),
        Value::Bytes(vec![0xaa; 8]),
        Value::Uint(3),
        Value::Uint(100),
        Value::Uint(200),
        Value::Bytes(vec![1, 2, 3, 4, 5, 6, 7, 8]),
    ]));
    let stmt = decode_statement(&wire).unwrap();
    assert_eq!(stmt.issuer_id, b"issuer-a".to_vec());
    assert_eq!(stmt.subject_digest, vec![0xaa; 8]);
    assert_eq!(stmt.claim_type, 3);
    assert_eq!(stmt.not_before, 100);
    assert_eq!(stmt.not_after, 200);
    assert_eq!(stmt.signature, vec![1, 2, 3, 4, 5, 6, 7, 8]);
}

#[test]
fn misshapen_statement_bytes_are_rejected() {
    // Too few fields.
    let wire = encode(&Value::Array(vec![Value::Uint(1)]));
    assert!(decode_statement(&wire).is_err());
    // A field of the wrong kind.
    let wire = encode(&Value::Array(vec![
        Value::Uint(0),
        Value::Bytes(vec![]),
        Value::Uint(3),
        Value::Uint(100),
        Value::Uint(200),
        Value::Bytes(vec![]),
    ]));
    assert!(decode_statement(&wire).is_err());
    // Not a value at all.
    assert!(decode_statement(&[0xff]).is_err());
}

#[test]
fn log_entry_roundtrips_through_bytes() {
    let wire = encode(&Value::Array(vec![
        Value::Bytes(vec![9; 8]),
        Value::Uint(5),
        Value::Uint(12),
        Value::Array(vec![
            Value::Bytes(vec![1; 8]),
            Value::Bytes(vec![2; 8]),
        ]),
    ]));
    let entry = decode_log_entry(&wire).unwrap();
    assert_eq!(entry.leaf_hash, vec![9; 8]);
    assert_eq!(entry.leaf_index, 5);
    assert_eq!(entry.tree_size, 12);
    assert_eq!(entry.audit_path, vec![vec![1; 8], vec![2; 8]]);
}

#[test]
fn log_entry_with_non_bytes_path_element_is_rejected() {
    let wire = encode(&Value::Array(vec![
        Value::Bytes(vec![9; 8]),
        Value::Uint(5),
        Value::Uint(12),
        Value::Array(vec![Value::Uint(7)]),
    ]));
    assert!(decode_log_entry(&wire).is_err());
}

#[test]
fn checkpoint_roundtrips_through_bytes() {
    let wire = encode(&Value::Array(vec![
        Value::Bytes(vec![7; 8]),
        Value::Uint(12),
        Value::Uint(4_000),
        Value::Bytes(vec![3; 8]),
    ]));
    let cp = decode_checkpoint(&wire).unwrap();
    assert_eq!(cp.root_hash, vec![7; 8]);
    assert_eq!(cp.tree_size, 12);
    assert_eq!(cp.timestamp, 4_000);
    assert_eq!(cp.signature, vec![3; 8]);
}

#[test]
fn misshapen_checkpoint_bytes_are_rejected() {
    let wire = encode(&Value::Uint(1));
    assert!(decode_checkpoint(&wire).is_err());
    let wire = encode(&Value::Array(vec![
        Value::Bytes(vec![]),
        Value::Uint(1),
        Value::Uint(2),
        Value::Uint(3),
    ]));
    assert!(decode_checkpoint(&wire).is_err());
}
