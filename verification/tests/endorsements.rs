//! Endorsement statement validation.

use attestation_verification::digest::compute_tag;
use attestation_verification::endorsement::{
    statement_signing_bytes, validate, EndorsementError, EndorsementStatement, TrustedIssuer,
};

fn signed_statement(issuer_key: &[u8], nb: u64, na: u64) -> EndorsementStatement {
    let mut stmt = EndorsementStatement {
        issuer_id: b"issuer-a".to_vec(),
        subject_digest: vec![0xaa; 8],
        claim_type: 3,
        not_before: nb,
        not_after: na,
        signature: vec![],
    };
    let msg = statement_signing_bytes(&stmt);
    stmt.signature = compute_tag(issuer_key, &msg);
    stmt
}

fn issuers(issuer_key: &[u8]) -> Vec<TrustedIssuer> {
    vec![
        TrustedIssuer {
            id: b"issuer-other".to_vec(),
            key: b"other-key".to_vec(),
        },
        TrustedIssuer {
            id: b"issuer-a".to_vec(),
            key: issuer_key.to_vec(),
        },
    ]
}

#[test]
fn valid_statement_yields_claim() {
    let key = b"issuer-key";
    let stmt = signed_statement(key, 100, 200);
    let claim = validate(&stmt, &issuers(key), 150).unwrap();
    assert_eq!(claim.subject_digest, vec![0xaa; 8]);
    assert_eq!(claim.issuer_id, b"issuer-a".to_vec());
    assert_eq!(claim.claim_type, 3);
    assert_eq!(claim.not_before, 100);
    assert_eq!(claim.not_after, 200);
}

#[test]
fn window_edges_are_inclusive() {
    let key = b"issuer-key";
    let stmt = signed_statement(key, 100, 200);
    assert!(validate(&stmt, &issuers(key), 100).is_ok());
    assert!(validate(&stmt, &issuers(key), 200).is_ok());
}

#[test]
fn before_window_is_not_yet_valid() {
    let key = b"issuer-key";
    let stmt = signed_statement(key, 100, 200);
    assert_eq!(
        validate(&stmt, &issuers(key), 99).unwrap_err(),
        EndorsementError::NotYetValid
    );
}

#[test]
fn after_window_is_expired() {
    let key = b"issuer-key";
    let stmt = signed_statement(key, 100, 200);
    assert_eq!(
        validate(&stmt, &issuers(key), 201).unwrap_err(),
        EndorsementError::Expired
    );
}

#[test]
fn unknown_issuer_is_rejected_before_anything_else() {
    let key = b"issuer-key";
    let mut stmt = signed_statement(key, 100, 200);
    stmt.issuer_id = b"nobody".to_vec();
    assert_eq!(
        validate(&stmt, &issuers(key), 150).unwrap_err(),
        EndorsementError::UnknownIssuer
    );
}

#[test]
fn tampered_signature_is_rejected() {
    let key = b"issuer-key";
    let mut stmt = signed_statement(key, 100, 200);
    stmt.signature[3] ^= 1;
    assert_eq!(
        validate(&stmt, &issuers(key), 150).unwrap_err(),
        EndorsementError::BadSignature
    );
}

#[test]
fn tampered_content_invalidates_the_signature() {
    let key = b"issuer-key";
    let mut stmt = signed_statement(key, 100, 200);
    stmt.claim_type = 4;
    assert_eq!(
        validate(&stmt, &issuers(key), 150).unwrap_err(),
        EndorsementError::BadSignature
    );
}

#[test]
fn bad_signature_takes_precedence_over_window() {
    // Outside the window and badly signed: the signature check comes first.
    let key = b"issuer-key";
    let mut stmt = signed_statement(key, 100, 200);
    stmt.signature = vec![0; 8];
    assert_eq!(
        validate(&stmt, &issuers(key), 999).unwrap_err(),
        EndorsementError::BadSignature
    );
}
