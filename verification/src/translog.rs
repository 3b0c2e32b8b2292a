//! Transparency-log inclusion proofs.
//!
//! An endorsement counts only once it is durably, publicly recorded. The
//! log hands out a Merkle audit path for the entry and signs a checkpoint
//! over its current root; verification recomputes the root from the leaf
//! hash, the path and the tree shape, then checks the checkpoint's
//! signature and age. Leaf and interior-node hashes use distinct domain
//! bytes, so a leaf can never be confused with a node.

use vstd::prelude::*;
use crate::model::{Value, ValueModel, view_pairs};
use crate::encode::{enc, encode};
use crate::digest::{node_hash_spec, node_hash, sig_tag, verify_sig};
use crate::bytes::{lex_cmp, lemma_lex_trichotomy};

verus! {

/// A reference to a logged entry: its leaf hash, position, the tree size
/// the proof was made for, and the audit path (siblings bottom-up).
#[derive(Debug)]
pub struct LogEntry {
    pub leaf_hash: Vec<u8>,
    pub leaf_index: u64,
    pub tree_size: u64,
    pub audit_path: Vec<Vec<u8>>,
}

/// A signed snapshot of the log.
#[derive(Debug)]
pub struct LogCheckpoint {
    pub root_hash: Vec<u8>,
    pub tree_size: u64,
    pub timestamp: u64,
    pub signature: Vec<u8>,
}

/// Why an inclusion proof was rejected.
#[derive(Clone, Copy, Debug, PartialEq, Eq, Structural)]
pub enum InclusionError {
    /// The recomputed root does not match the checkpoint's root, the path
    /// has the wrong shape, or the entry was proved against another tree
    /// size.
    ProofInvalid,
    /// The checkpoint is not signed by the log key.
    CheckpointSignatureInvalid,
    /// The checkpoint is older than the allowed age.
    CheckpointStale,
    /// The leaf index lies outside the checkpointed tree.
    IndexOutOfRange,
}

/// Evidence that an entry is recorded under a checkpoint.
#[derive(Clone, Copy, Debug, PartialEq, Eq, Structural)]
pub struct InclusionResult {
    pub leaf_index: u64,
    pub tree_size: u64,
}

/// The views of a sequence of byte vectors.
pub open spec fn views_of(s: Seq<Vec<u8>>) -> Seq<Seq<u8>> {
    s.map_values(|v: Vec<u8>| v@)
}

/// The largest power of two strictly below `n`, for `n >= 2`.
pub open spec fn lp2(n: nat) -> nat
    decreases n,
{
    if n <= 2 {
        1
    } else {
        2 * lp2((n + 1) / 2)
    }
}

pub proof fn lemma_lp2_bounds(n: nat)
    requires
        n >= 2,
    ensures
        1 <= lp2(n) < n,
    decreases n,
{
    if n > 2 {
        lemma_lp2_bounds((n + 1) / 2);
    }
}

/// The root obtained by folding the audit path over the leaf, splitting
/// the tree at the largest power of two below its size.
pub open spec fn root_of(leaf: Seq<u8>, index: nat, size: nat, path: Seq<Seq<u8>>) -> Option<
    Seq<u8>,
>
    recommends
        size >= 1,
        index < size,
    decreases size,
    when size >= 1 && index < size
    via root_of_dec
{
    if size == 1 {
        if path.len() == 0 {
            Some(leaf)
        } else {
            None
        }
    } else if path.len() == 0 {
        None
    } else {
        let sib = path.last();
        let rest = path.drop_last();
        let k = lp2(size);
        if index < k {
            match root_of(leaf, index, k, rest) {
                None => None,
                Some(h) => Some(node_hash_spec(h, sib)),
            }
        } else {
            match root_of(leaf, (index - k) as nat, (size - k) as nat, rest) {
                None => None,
                Some(h) => Some(node_hash_spec(sib, h)),
            }
        }
    }
}

#[via_fn]
proof fn root_of_dec(leaf: Seq<u8>, index: nat, size: nat, path: Seq<Seq<u8>>) {
    if size > 1 {
        lemma_lp2_bounds(size);
    }
}

/// Whether a checkpoint from `ts` has aged out at `now`.
pub open spec fn stale(now: u64, ts: u64, max_age: Option<u64>) -> bool {
    match max_age {
        None => false,
        Some(a) => now > ts + a,
    }
}

/// The bytes a log checkpoint signs: the canonical encoding of a map of
/// its root hash, tree size and timestamp.
pub open spec fn checkpoint_msg(root: Seq<u8>, size: u64, ts: u64) -> Seq<u8> {
    enc(ValueModel::Dict(seq![
        (ValueModel::Uint(0u64), ValueModel::Bytes(root)),
        (ValueModel::Uint(1u64), ValueModel::Uint(size)),
        (ValueModel::Uint(2u64), ValueModel::Uint(ts)),
    ]))
}

/// The full outcome of an inclusion check, in check order.
pub open spec fn inclusion_outcome(
    entry_leaf: Seq<u8>,
    entry_index: u64,
    entry_size: u64,
    path: Seq<Seq<u8>>,
    root: Seq<u8>,
    size: u64,
    ts: u64,
    sig: Seq<u8>,
    log_key: Seq<u8>,
    now: u64,
    max_age: Option<u64>,
) -> Result<InclusionResult, InclusionError> {
    if entry_index >= size {
        Err(InclusionError::IndexOutOfRange)
    } else if entry_size != size || root_of(entry_leaf, entry_index as nat, size as nat, path)
        != Some(root) {
        Err(InclusionError::ProofInvalid)
    } else if sig != sig_tag(log_key, checkpoint_msg(root, size, ts)) {
        Err(InclusionError::CheckpointSignatureInvalid)
    } else if stale(now, ts, max_age) {
        Err(InclusionError::CheckpointStale)
    } else {
        Ok(InclusionResult { leaf_index: entry_index, tree_size: size })
    }
}

/// An inclusion proof whose recomputed root mismatches the checkpoint
/// root is rejected as `ProofInvalid`.
pub proof fn lemma_root_mismatch_rejected(
    entry_leaf: Seq<u8>,
    entry_index: u64,
    entry_size: u64,
    path: Seq<Seq<u8>>,
    root: Seq<u8>,
    size: u64,
    ts: u64,
    sig: Seq<u8>,
    log_key: Seq<u8>,
    now: u64,
    max_age: Option<u64>,
)
    requires
        entry_index < size,
        root_of(entry_leaf, entry_index as nat, size as nat, path) != Some(root),
    ensures
        inclusion_outcome(entry_leaf, entry_index, entry_size, path, root, size, ts, sig,
            log_key, now, max_age) == Err::<InclusionResult, InclusionError>(
            InclusionError::ProofInvalid,
        ),
{
}

fn lp2_exec(n: u64) -> (r: u64)
    requires
        n >= 2,
    ensures
        r as nat == lp2(n as nat),
        1 <= r < n,
    decreases n,
{
    if n <= 2 {
        1
    } else {
        let m = n / 2 + n % 2;
        assert(m as nat == (n as nat + 1) / 2);
        let r2 = lp2_exec(m);
        2 * r2
    }
}

/// Recomputes the root from the first `n` path elements.
fn compute_root(leaf: &Vec<u8>, index: u64, size: u64, path: &Vec<Vec<u8>>, n: usize) -> (r:
    Option<Vec<u8>>)
    requires
        size >= 1,
        index < size,
        n <= path@.len(),
    ensures
        match r {
            Some(h) => root_of(leaf@, index as nat, size as nat, views_of(path@.take(n as int)))
                == Some(h@),
            None => root_of(leaf@, index as nat, size as nat, views_of(path@.take(n as int)))
                is None,
        },
    decreases size,
{
    let ghost vs = views_of(path@.take(n as int));
    assert(vs.len() == n);
    if size == 1 {
        if n == 0 {
            let mut out: Vec<u8> = Vec::new();
            let mut i: usize = 0;
            while i < leaf.len()
                invariant
                    i <= leaf.len(),
                    out@ == leaf@.take(i as int),
                decreases leaf.len() - i,
            {
                out.push(leaf[i]);
                assert(leaf@.take(i + 1) =~= leaf@.take(i as int).push(leaf@[i as int]));
                i = i + 1;
            }
            assert(leaf@.take(leaf@.len() as int) =~= leaf@);
            Some(out)
        } else {
            None
        }
    } else if n == 0 {
        None
    } else {
        let sib = &path[n - 1];
        proof {
            assert(vs.last() == path@.take(n as int)[n - 1]@);
            assert(path@.take(n as int)[n - 1] == path@[n - 1]);
            assert(vs.drop_last() =~= views_of(path@.take(n - 1)));
        }
        let k = lp2_exec(size);
        if index < k {
            match compute_root(leaf, index, k, path, n - 1) {
                None => None,
                Some(h) => Some(node_hash(h.as_slice(), sib.as_slice())),
            }
        } else {
            match compute_root(leaf, index - k, size - k, path, n - 1) {
                None => None,
                Some(h) => Some(node_hash(sib.as_slice(), h.as_slice())),
            }
        }
    }
}

/// The bytes the checkpoint signs.
pub fn checkpoint_signing_bytes(root: &Vec<u8>, size: u64, ts: u64) -> (out: Vec<u8>)
    ensures
        out@ == checkpoint_msg(root@, size, ts),
{
    let mut root_copy: Vec<u8> = Vec::new();
    let mut i: usize = 0;
    while i < root.len()
        invariant
            i <= root.len(),
            root_copy@ == root@.take(i as int),
        decreases root.len() - i,
    {
        root_copy.push(root[i]);
        assert(root@.take(i + 1) =~= root@.take(i as int).push(root@[i as int]));
        i = i + 1;
    }
    assert(root@.take(root@.len() as int) =~= root@);
    let ghost rootv = root_copy@;
    let mut ps: Vec<(Value, Value)> = Vec::new();
    ps.push((Value::Uint(0), Value::Bytes(root_copy)));
    ps.push((Value::Uint(1), Value::Uint(size)));
    ps.push((Value::Uint(2), Value::Uint(ts)));
    proof {
        crate::model::lemma_view_pairs_index(ps@);
        assert(ps@.len() == 3);
        assert(ps@[1] == (Value::Uint(1u64), Value::Uint(size)));
        assert(ps@[2] == (Value::Uint(2u64), Value::Uint(ts)));
        assert(ps@[0].1 is Bytes);
        assert(ps@[0].1->Bytes_0@ == rootv);
        assert(crate::model::view_val(ps@[0].0) == ValueModel::Uint(0u64));
        assert(crate::model::view_val(ps@[0].1) == ValueModel::Bytes(rootv));
        assert(crate::model::view_val(ps@[1].0) == ValueModel::Uint(1u64));
        assert(crate::model::view_val(ps@[1].1) == ValueModel::Uint(size));
        assert(crate::model::view_val(ps@[2].0) == ValueModel::Uint(2u64));
        assert(crate::model::view_val(ps@[2].1) == ValueModel::Uint(ts));
        assert(view_pairs(ps@) =~= seq![
            (ValueModel::Uint(0u64), ValueModel::Bytes(root@)),
            (ValueModel::Uint(1u64), ValueModel::Uint(size)),
            (ValueModel::Uint(2u64), ValueModel::Uint(ts)),
        ]);
    }
    let v = Value::Dict(ps);
    encode(&v)
}

/// Checks an entry's inclusion proof against a signed checkpoint.
///
/// The checks run in a fixed order — index range, root recomputation,
/// checkpoint signature, checkpoint age — and the first failing check
/// names the error.
pub fn verify_inclusion(
    entry: &LogEntry,
    checkpoint: &LogCheckpoint,
    log_key: &[u8],
    now: u64,
    max_checkpoint_age: Option<u64>,
) -> (r: Result<InclusionResult, InclusionError>)
    ensures
        r == inclusion_outcome(entry.leaf_hash@, entry.leaf_index, entry.tree_size,
            views_of(entry.audit_path@), checkpoint.root_hash@, checkpoint.tree_size,
            checkpoint.timestamp, checkpoint.signature@, log_key@, now, max_checkpoint_age),
{
    if entry.leaf_index >= checkpoint.tree_size {
        return Err(InclusionError::IndexOutOfRange);
    }
    if entry.tree_size != checkpoint.tree_size {
        return Err(InclusionError::ProofInvalid);
    }
    let n = entry.audit_path.len();
    proof {
        assert(entry.audit_path@.take(n as int) =~= entry.audit_path@);
    }
    let root = match compute_root(&entry.leaf_hash, entry.leaf_index, checkpoint.tree_size,
        &entry.audit_path, n) {
        None => {
            return Err(InclusionError::ProofInvalid);
        },
        Some(h) => h,
    };
    let same = lex_cmp(root.as_slice(), checkpoint.root_hash.as_slice());
    proof {
        lemma_lex_trichotomy(root@, checkpoint.root_hash@);
    }
    if same != 0 {
        return Err(InclusionError::ProofInvalid);
    }
    let msg = checkpoint_signing_bytes(&checkpoint.root_hash, checkpoint.tree_size,
        checkpoint.timestamp);
    if !verify_sig(log_key, msg.as_slice(), checkpoint.signature.as_slice()) {
        return Err(InclusionError::CheckpointSignatureInvalid);
    }
    match max_checkpoint_age {
        Some(a) => {
            if now > checkpoint.timestamp && now - checkpoint.timestamp > a {
                return Err(InclusionError::CheckpointStale);
            }
        },
        None => {},
    }
    Ok(InclusionResult { leaf_index: entry.leaf_index, tree_size: checkpoint.tree_size })
}

} // verus!
