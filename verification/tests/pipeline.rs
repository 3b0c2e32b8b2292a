//! End-to-end verification of a two-layer chain with an endorsed,
//! logged application layer.

use attestation_verification::attest::{
    layer_signing_bytes, verify, CheckFailure, Endorsement, Policy, Verdict,
};
use attestation_verification::digest::{compute_tag, leaf_hash};
use attestation_verification::encode::encode;
use attestation_verification::endorsement::{
    statement_signing_bytes, EndorsementStatement, TrustedIssuer,
};
use attestation_verification::evidence::{decode, DecodeError, Evidence, EvidenceLayer};
use attestation_verification::endorsement::EndorsementError;
use attestation_verification::model::Value;
use attestation_verification::translog::InclusionError;
use attestation_verification::translog::{checkpoint_signing_bytes, LogCheckpoint, LogEntry};

const ROOT_KEY: &[u8] = b"trusted-root-key";
const APP_KEY: &[u8] = b"application-key";
const ISSUER_KEY: &[u8] = b"issuer-key";
const LOG_KEY: &[u8] = b"log-key";
const APP_DIGEST: [u8; 4] = [0xde, 0xad, 0xbe, 0xef];

fn layer_wire_value(l: &EvidenceLayer) -> Value {
    let bound = |b: &Option<u64>| match b {
        None => Value::Array(vec![]),
        Some(n) => Value::Array(vec![Value::Uint(*n)]),
    };
    Value::Array(vec![
        Value::Bytes(l.issuer_key.clone()),
        Value::Bytes(l.subject_key.clone()),
        Value::Array(
            l.measurements
                .iter()
                .map(|m| Value::Bytes(m.clone()))
                .collect(),
        ),
        Value::Bytes(l.signature.clone()),
        bound(&l.not_before),
        bound(&l.not_after),
    ])
}

/// A two-layer chain: the root layer, and an application layer whose
/// content is signed by the root layer's subject key.
fn make_evidence() -> Evidence {
    let root_layer = EvidenceLayer {
        issuer_key: ROOT_KEY.to_vec(),
        subject_key: b"stage0-key".to_vec(),
        measurements: vec![vec![0x01, 0x02]],
        signature: vec![0; 8],
        not_before: None,
        not_after: None,
    };
    let mut app_layer = EvidenceLayer {
        issuer_key: b"stage0-key".to_vec(),
        subject_key: APP_KEY.to_vec(),
        measurements: vec![APP_DIGEST.to_vec()],
        signature: vec![],
        not_before: Some(10),
        not_after: None,
    };
    let msg = layer_signing_bytes(&app_layer);
    app_layer.signature = compute_tag(b"stage0-key", &msg);
    Evidence {
        layers: vec![root_layer, app_layer],
    }
}

fn make_endorsement() -> Endorsement {
    let mut stmt = EndorsementStatement {
        issuer_id: b"issuer-a".to_vec(),
        subject_digest: APP_DIGEST.to_vec(),
        claim_type: 1,
        not_before: 100,
        not_after: 10_000,
        signature: vec![],
    };
    let msg = statement_signing_bytes(&stmt);
    stmt.signature = compute_tag(ISSUER_KEY, &msg);
    let leaf = leaf_hash(&statement_signing_bytes(&stmt));
    Endorsement {
        statement: stmt,
        log_entry: LogEntry {
            leaf_hash: leaf,
            leaf_index: 0,
            tree_size: 1,
            audit_path: vec![],
        },
    }
}

fn make_checkpoint(endorsement: &Endorsement) -> LogCheckpoint {
    // A one-leaf log: the root is the entry's leaf hash.
    let root = endorsement.log_entry.leaf_hash.clone();
    let msg = checkpoint_signing_bytes(&root, 1, 500);
    let sig = compute_tag(LOG_KEY, &msg);
    LogCheckpoint {
        root_hash: root,
        tree_size: 1,
        timestamp: 500,
        signature: sig,
    }
}

fn make_policy() -> Policy {
    Policy {
        trusted_root_key: ROOT_KEY.to_vec(),
        issuers: vec![TrustedIssuer {
            id: b"issuer-a".to_vec(),
            key: ISSUER_KEY.to_vec(),
        }],
        log_key: LOG_KEY.to_vec(),
        endorsed_layers: vec![1],
        fail_fast: false,
        max_checkpoint_age: Some(1_000),
    }
}

const NOW: u64 = 600;

fn failures_of(v: Verdict) -> Vec<CheckFailure> {
    match v {
        Verdict::Failure { failures } => failures,
        Verdict::Success { .. } => panic!("expected failure"),
    }
}

#[test]
fn evidence_decodes_from_wire_bytes() {
    let ev = make_evidence();
    let wire = encode(&Value::Array(vec![
        layer_wire_value(&ev.layers[0]),
        layer_wire_value(&ev.layers[1]),
    ]));
    let decoded = decode(&wire).unwrap();
    assert_eq!(decoded.layers.len(), 2);
    assert_eq!(decoded.layers[0].issuer_key, ROOT_KEY.to_vec());
    assert_eq!(decoded.layers[1].subject_key, APP_KEY.to_vec());
    assert_eq!(decoded.layers[1].measurements, vec![APP_DIGEST.to_vec()]);
    assert_eq!(decoded.layers[1].not_before, Some(10));
    assert_eq!(decoded.layers[1].not_after, None);
    assert_eq!(decoded.layers[1].signature, ev.layers[1].signature);
}

#[test]
fn empty_chain_is_rejected() {
    let wire = encode(&Value::Array(vec![]));
    assert_eq!(decode(&wire).unwrap_err(), DecodeError::EmptyChain);
}

#[test]
fn non_array_evidence_is_malformed() {
    let wire = encode(&Value::Uint(7));
    assert_eq!(decode(&wire).unwrap_err(), DecodeError::Malformed);
    assert_eq!(decode(&[0xff]).unwrap_err(), DecodeError::Malformed);
}

#[test]
fn short_layer_is_malformed() {
    let wire = encode(&Value::Array(vec![Value::Array(vec![Value::Uint(1)])]));
    assert_eq!(
        decode(&wire).unwrap_err(),
        DecodeError::MalformedLayer { index: 0 }
    );
}

#[test]
fn two_layer_chain_verifies_end_to_end() {
    let ev = make_evidence();
    let endo = make_endorsement();
    let cp = make_checkpoint(&endo);
    let verdict = verify(&ev, &vec![endo], &cp, &make_policy(), NOW);
    match verdict {
        Verdict::Success { layers } => {
            assert_eq!(layers.len(), 2);
            assert_eq!(layers[0].index, 0);
            assert!(layers[0].claim.is_none());
            assert_eq!(layers[1].index, 1);
            let claim = layers[1].claim.as_ref().unwrap();
            assert_eq!(claim.subject_digest, APP_DIGEST.to_vec());
            assert_eq!(claim.issuer_id, b"issuer-a".to_vec());
            let inc = layers[1].inclusion.unwrap();
            assert_eq!(inc.leaf_index, 0);
            assert_eq!(inc.tree_size, 1);
        }
        Verdict::Failure { failures } => panic!("unexpected failures: {:?}", failures),
    }
}

#[test]
fn mismatched_subject_digest_is_a_missing_endorsement() {
    let ev = make_evidence();
    let mut endo = make_endorsement();
    endo.statement.subject_digest = vec![0x00; 4];
    let msg = statement_signing_bytes(&endo.statement);
    endo.statement.signature = compute_tag(ISSUER_KEY, &msg);
    endo.log_entry.leaf_hash = leaf_hash(&msg);
    let cp = make_checkpoint(&endo);
    let failures = failures_of(verify(&ev, &vec![endo], &cp, &make_policy(), NOW));
    assert_eq!(failures, vec![CheckFailure::MissingEndorsement { layer: 1 }]);
}

#[test]
fn invalid_checkpoint_signature_fails_inclusion() {
    let ev = make_evidence();
    let endo = make_endorsement();
    let mut cp = make_checkpoint(&endo);
    cp.signature[0] ^= 0x55;
    let failures = failures_of(verify(&ev, &vec![endo], &cp, &make_policy(), NOW));
    assert_eq!(
        failures,
        vec![CheckFailure::InclusionInvalid {
            layer: 1,
            error: InclusionError::CheckpointSignatureInvalid,
        }]
    );
}

#[test]
fn tampered_interlayer_signature_breaks_the_chain() {
    let mut ev = make_evidence();
    ev.layers[1].signature[0] ^= 0x01;
    let endo = make_endorsement();
    let cp = make_checkpoint(&endo);
    let failures = failures_of(verify(&ev, &vec![endo], &cp, &make_policy(), NOW));
    assert_eq!(failures, vec![CheckFailure::ChainBroken { layer: 1 }]);
}

#[test]
fn mismatched_issuer_subject_keys_break_the_chain() {
    let mut ev = make_evidence();
    ev.layers[1].issuer_key = b"someone-else".to_vec();
    let endo = make_endorsement();
    let cp = make_checkpoint(&endo);
    let failures = failures_of(verify(&ev, &vec![endo], &cp, &make_policy(), NOW));
    assert_eq!(failures, vec![CheckFailure::ChainBroken { layer: 1 }]);
}

#[test]
fn untrusted_root_fails_immediately() {
    let mut ev = make_evidence();
    ev.layers[0].issuer_key = b"evil-root".to_vec();
    let endo = make_endorsement();
    let cp = make_checkpoint(&endo);
    let failures = failures_of(verify(&ev, &vec![endo], &cp, &make_policy(), NOW));
    assert_eq!(failures, vec![CheckFailure::RootMismatch]);
}

#[test]
fn expired_endorsement_is_reported_for_the_layer() {
    let ev = make_evidence();
    let endo = make_endorsement();
    let mut cp = make_checkpoint(&endo);
    // Validate far past the endorsement window; keep the checkpoint fresh.
    cp.timestamp = 20_000;
    let msg = checkpoint_signing_bytes(&cp.root_hash, 1, 20_000);
    cp.signature = compute_tag(LOG_KEY, &msg);
    let failures = failures_of(verify(&ev, &vec![endo], &cp, &make_policy(), 20_001));
    assert_eq!(
        failures,
        vec![CheckFailure::EndorsementInvalid {
            layer: 1,
            error: EndorsementError::Expired,
        }]
    );
}

#[test]
fn fail_fast_reports_only_the_first_failure() {
    let ev = make_evidence();
    let cp = make_checkpoint(&make_endorsement());
    let mut policy = make_policy();
    policy.endorsed_layers = vec![0, 1];
    // No endorsements at all: both required layers fail.
    let all = failures_of(verify(&ev, &vec![], &cp, &policy, NOW));
    assert_eq!(
        all,
        vec![
            CheckFailure::MissingEndorsement { layer: 0 },
            CheckFailure::MissingEndorsement { layer: 1 },
        ]
    );
    policy.fail_fast = true;
    let first = failures_of(verify(&ev, &vec![], &cp, &policy, NOW));
    assert_eq!(first, vec![CheckFailure::MissingEndorsement { layer: 0 }]);
}

#[test]
fn out_of_range_endorsed_layer_is_missing() {
    let ev = make_evidence();
    let endo = make_endorsement();
    let cp = make_checkpoint(&endo);
    let mut policy = make_policy();
    policy.endorsed_layers = vec![1, 9];
    let failures = failures_of(verify(&ev, &vec![endo], &cp, &policy, NOW));
    assert_eq!(failures, vec![CheckFailure::MissingEndorsement { layer: 9 }]);
}
