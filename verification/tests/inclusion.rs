//! Transparency-log inclusion proofs against signed checkpoints.

use attestation_verification::digest::{compute_tag, leaf_hash, node_hash, verify_sig};
use attestation_verification::translog::{
    checkpoint_signing_bytes, verify_inclusion, InclusionError, LogCheckpoint, LogEntry,
};

fn signed_checkpoint(root: &[u8], size: u64, ts: u64, log_key: &[u8]) -> LogCheckpoint {
    let root_vec = root.to_vec();
    let msg = checkpoint_signing_bytes(&root_vec, size, ts);
    let sig = compute_tag(log_key, &msg);
    LogCheckpoint {
        root_hash: root_vec,
        tree_size: size,
        timestamp: ts,
        signature: sig,
    }
}

#[test]
fn signature_tag_roundtrip() {
    let tag = compute_tag(b"key", b"message");
    assert_eq!(tag.len(), 8);
    assert!(verify_sig(b"key", b"message", &tag));
    assert!(!verify_sig(b"key", b"other message", &tag));
    assert!(!verify_sig(b"other key", b"message", &tag));
}

#[test]
fn leaf_and_node_hashes_are_domain_separated() {
    // The same bytes hashed as a leaf and folded as a node must differ.
    let l = leaf_hash(b"ab");
    let n = node_hash(b"a", b"b");
    assert_ne!(l, n);
}

#[test]
fn single_leaf_tree_verifies() {
    let log_key = b"log-key".to_vec();
    let leaf = leaf_hash(b"entry-0");
    let cp = signed_checkpoint(&leaf, 1, 1000, &log_key);
    let entry = LogEntry {
        leaf_hash: leaf,
        leaf_index: 0,
        tree_size: 1,
        audit_path: vec![],
    };
    let res = verify_inclusion(&entry, &cp, &log_key, 1000, None).unwrap();
    assert_eq!(res.leaf_index, 0);
    assert_eq!(res.tree_size, 1);
}

#[test]
fn two_leaf_tree_verifies_both_positions() {
    let log_key = b"log-key".to_vec();
    let h0 = leaf_hash(b"entry-0");
    let h1 = leaf_hash(b"entry-1");
    let root = node_hash(&h0, &h1);
    let cp = signed_checkpoint(&root, 2, 50, &log_key);

    let e0 = LogEntry {
        leaf_hash: h0.clone(),
        leaf_index: 0,
        tree_size: 2,
        audit_path: vec![h1.clone()],
    };
    assert!(verify_inclusion(&e0, &cp, &log_key, 50, None).is_ok());

    let e1 = LogEntry {
        leaf_hash: h1,
        leaf_index: 1,
        tree_size: 2,
        audit_path: vec![h0],
    };
    assert!(verify_inclusion(&e1, &cp, &log_key, 50, None).is_ok());
}

#[test]
fn three_leaf_tree_verifies() {
    // Tree of size 3 splits as [0, 1] | [2].
    let log_key = b"log-key".to_vec();
    let h0 = leaf_hash(b"a");
    let h1 = leaf_hash(b"b");
    let h2 = leaf_hash(b"c");
    let left = node_hash(&h0, &h1);
    let root = node_hash(&left, &h2);
    let cp = signed_checkpoint(&root, 3, 7, &log_key);

    // Leaf 1: sibling h0 at the bottom, then h2 at the top.
    let e1 = LogEntry {
        leaf_hash: h1,
        leaf_index: 1,
        tree_size: 3,
        audit_path: vec![h0, h2.clone()],
    };
    assert!(verify_inclusion(&e1, &cp, &log_key, 7, None).is_ok());

    // Leaf 2: one sibling, the whole left subtree.
    let e2 = LogEntry {
        leaf_hash: h2,
        leaf_index: 2,
        tree_size: 3,
        audit_path: vec![left],
    };
    assert!(verify_inclusion(&e2, &cp, &log_key, 7, None).is_ok());
}

#[test]
fn mismatched_root_is_proof_invalid() {
    let log_key = b"log-key".to_vec();
    let leaf = leaf_hash(b"entry-0");
    let other = leaf_hash(b"something else");
    let cp = signed_checkpoint(&other, 1, 0, &log_key);
    let entry = LogEntry {
        leaf_hash: leaf,
        leaf_index: 0,
        tree_size: 1,
        audit_path: vec![],
    };
    assert_eq!(
        verify_inclusion(&entry, &cp, &log_key, 0, None).unwrap_err(),
        InclusionError::ProofInvalid
    );
}

#[test]
fn wrong_path_length_is_proof_invalid() {
    let log_key = b"log-key".to_vec();
    let leaf = leaf_hash(b"entry-0");
    let cp = signed_checkpoint(&leaf, 1, 0, &log_key);
    let entry = LogEntry {
        leaf_hash: leaf.clone(),
        leaf_index: 0,
        tree_size: 1,
        audit_path: vec![leaf],
    };
    assert_eq!(
        verify_inclusion(&entry, &cp, &log_key, 0, None).unwrap_err(),
        InclusionError::ProofInvalid
    );
}

#[test]
fn index_outside_tree_is_rejected() {
    let log_key = b"log-key".to_vec();
    let leaf = leaf_hash(b"entry-0");
    let cp = signed_checkpoint(&leaf, 1, 0, &log_key);
    let entry = LogEntry {
        leaf_hash: leaf,
        leaf_index: 1,
        tree_size: 1,
        audit_path: vec![],
    };
    assert_eq!(
        verify_inclusion(&entry, &cp, &log_key, 0, None).unwrap_err(),
        InclusionError::IndexOutOfRange
    );
}

#[test]
fn bad_checkpoint_signature_is_rejected() {
    let log_key = b"log-key".to_vec();
    let leaf = leaf_hash(b"entry-0");
    let mut cp = signed_checkpoint(&leaf, 1, 0, &log_key);
    cp.signature[0] ^= 0xff;
    let entry = LogEntry {
        leaf_hash: leaf,
        leaf_index: 0,
        tree_size: 1,
        audit_path: vec![],
    };
    assert_eq!(
        verify_inclusion(&entry, &cp, &log_key, 0, None).unwrap_err(),
        InclusionError::CheckpointSignatureInvalid
    );
}

#[test]
fn stale_checkpoint_is_rejected_only_with_age_limit() {
    let log_key = b"log-key".to_vec();
    let leaf = leaf_hash(b"entry-0");
    let cp = signed_checkpoint(&leaf, 1, 100, &log_key);
    let entry = LogEntry {
        leaf_hash: leaf,
        leaf_index: 0,
        tree_size: 1,
        audit_path: vec![],
    };
    // 400 seconds old with a limit of 300: stale.
    assert_eq!(
        verify_inclusion(&entry, &cp, &log_key, 500, Some(300)).unwrap_err(),
        InclusionError::CheckpointStale
    );
    // Within the limit: accepted.
    assert!(verify_inclusion(&entry, &cp, &log_key, 350, Some(300)).is_ok());
    // No limit configured: age never rejects.
    assert!(verify_inclusion(&entry, &cp, &log_key, 500, None).is_ok());
    // A checkpoint from the future is not stale.
    assert!(verify_inclusion(&entry, &cp, &log_key, 0, Some(300)).is_ok());
}
