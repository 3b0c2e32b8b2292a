//! The attestation verifier.
//!
//! `verify` walks the certificate chain from the configured root and
//! checks every inter-layer signature. For each layer the policy marks
//! as requiring endorsement, it locates a matching endorsement
//! statement, validates the statement, and validates the statement's
//! transparency-log inclusion proof. A broken root or chain link stops
//! all later checks, since nothing beyond the break can be trusted.

use vstd::prelude::*;
use crate::model::{Value, ValueModel, view_list, view_pairs};
use crate::encode::{enc, encode};
use crate::digest::{sig_tag, verify_sig, leaf_hash_spec, leaf_hash};
use crate::bytes::{lex_cmp, lemma_lex_trichotomy, copy_bytes};
use crate::evidence::{Evidence, EvidenceLayer};
use crate::endorsement::{EndorsementStatement, TrustedIssuer, EndorsementError, ValidatedClaim,
    validate, validate_err, statement_msg, statement_signing_bytes};
use crate::translog::{LogEntry, LogCheckpoint, InclusionError, InclusionResult, views_of,
    inclusion_outcome, verify_inclusion};

verus! {

/// An endorsement statement together with its transparency-log entry.
#[derive(Debug)]
pub struct Endorsement {
    pub statement: EndorsementStatement,
    pub log_entry: LogEntry,
}

/// The caller-held trust configuration: keys, trusted issuers, which
/// layers must be endorsed, and how failures are reported.
#[derive(Debug)]
pub struct Policy {
    /// The key the root layer must be issued by.
    pub trusted_root_key: Vec<u8>,
    /// Issuers whose endorsements are accepted.
    pub issuers: Vec<TrustedIssuer>,
    /// The transparency log's public key.
    pub log_key: Vec<u8>,
    /// Indices of the layers that require an endorsement.
    pub endorsed_layers: Vec<u64>,
    /// Stop at the first endorsement failure instead of collecting all.
    pub fail_fast: bool,
    /// Greatest accepted checkpoint age; `None` disables the staleness
    /// check.
    pub max_checkpoint_age: Option<u64>,
}

/// One failed sub-check.
#[derive(Clone, Copy, Debug, PartialEq, Eq, Structural)]
pub enum CheckFailure {
    /// The root layer's issuer key is not the trusted root key.
    RootMismatch,
    /// The link into this layer has a bad signature or mismatched keys.
    ChainBroken { layer: u64 },
    /// No endorsement statement covers this layer's measurements.
    MissingEndorsement { layer: u64 },
    /// The layer's endorsement statement failed validation.
    EndorsementInvalid { layer: u64, error: EndorsementError },
    /// The endorsement's log inclusion proof failed validation.
    InclusionInvalid { layer: u64, error: InclusionError },
}

/// A layer the verifier accepted, with its endorsement evidence when the
/// policy required one.
#[derive(Debug)]
pub struct VerifiedLayer {
    pub index: u64,
    pub claim: Option<ValidatedClaim>,
    pub inclusion: Option<InclusionResult>,
}

/// The verifier's immutable outcome.
#[derive(Debug)]
pub enum Verdict {
    Success { layers: Vec<VerifiedLayer> },
    Failure { failures: Vec<CheckFailure> },
}

/// The wire model of a measurement list.
pub open spec fn measurement_models(ms: Seq<Vec<u8>>) -> Seq<ValueModel> {
    ms.map_values(|b: Vec<u8>| ValueModel::Bytes(b@))
}

/// The wire model of an optional bound.
pub open spec fn bound_model(b: Option<u64>) -> ValueModel {
    match b {
        None => ValueModel::Array(Seq::empty()),
        Some(n) => ValueModel::Array(seq![ValueModel::Uint(n)]),
    }
}

/// The bytes a layer is signed over: the canonical encoding of its
/// content, the signature excluded.
pub open spec fn layer_msg(l: EvidenceLayer) -> Seq<u8> {
    enc(ValueModel::Dict(seq![
        (ValueModel::Uint(0u64), ValueModel::Bytes(l.issuer_key@)),
        (ValueModel::Uint(1u64), ValueModel::Bytes(l.subject_key@)),
        (ValueModel::Uint(2u64), ValueModel::Array(measurement_models(l.measurements@))),
        (ValueModel::Uint(3u64), bound_model(l.not_before)),
        (ValueModel::Uint(4u64), bound_model(l.not_after)),
    ]))
}

/// Whether the link from `prev` into `cur` holds: contiguous keys and a
/// signature by `prev`'s subject key over `cur`'s content.
pub open spec fn link_ok(prev: EvidenceLayer, cur: EvidenceLayer) -> bool {
    &&& cur.issuer_key@ == prev.subject_key@
    &&& cur.signature@ == sig_tag(prev.subject_key@, layer_msg(cur))
}

/// The first broken link at or after position `i`.
pub open spec fn first_break(layers: Seq<EvidenceLayer>, i: int) -> Option<int>
    recommends
        1 <= i,
    decreases layers.len() - i,
{
    if i >= layers.len() || i < 1 {
        None
    } else if !link_ok(layers[i - 1], layers[i]) {
        Some(i)
    } else {
        first_break(layers, i + 1)
    }
}

/// Whether the root layer is issued by the trusted root key.
pub open spec fn root_ok(layers: Seq<EvidenceLayer>, policy: Policy) -> bool {
    layers[0].issuer_key@ == policy.trusted_root_key@
}

/// Whether an endorsement covers one of the layer's measurements.
pub open spec fn matches_layer(e: Endorsement, l: EvidenceLayer) -> bool {
    exists|j: int| 0 <= j < l.measurements@.len() && e.statement.subject_digest@
        == (#[trigger] l.measurements@[j])@
}

/// The first endorsement at or after `i` that covers the layer.
pub open spec fn find_endorsement(endos: Seq<Endorsement>, l: EvidenceLayer, i: int) -> Option<
    int,
>
    decreases endos.len() - i,
{
    if i >= endos.len() || i < 0 {
        None
    } else if matches_layer(endos[i], l) {
        Some(i)
    } else {
        find_endorsement(endos, l, i + 1)
    }
}

/// The leaf hash the log must hold for a statement.
pub open spec fn statement_leaf(s: EndorsementStatement) -> Seq<u8> {
    leaf_hash_spec(statement_msg(s.issuer_id@, s.subject_digest@, s.claim_type, s.not_before,
        s.not_after))
}

/// The outcome of the inclusion check for one endorsement.
pub open spec fn entry_outcome(e: Endorsement, cp: LogCheckpoint, policy: Policy, now: u64) -> Result<
    InclusionResult,
    InclusionError,
> {
    inclusion_outcome(e.log_entry.leaf_hash@, e.log_entry.leaf_index, e.log_entry.tree_size,
        views_of(e.log_entry.audit_path@), cp.root_hash@, cp.tree_size, cp.timestamp,
        cp.signature@, policy.log_key@, now, policy.max_checkpoint_age)
}

/// The failure, if any, of the endorsement checks for layer `idx`.
pub open spec fn layer_check(
    layers: Seq<EvidenceLayer>,
    endos: Seq<Endorsement>,
    cp: LogCheckpoint,
    policy: Policy,
    now: u64,
    idx: u64,
) -> Option<CheckFailure> {
    if idx >= layers.len() {
        Some(CheckFailure::MissingEndorsement { layer: idx })
    } else {
        match find_endorsement(endos, layers[idx as int], 0) {
            None => Some(CheckFailure::MissingEndorsement { layer: idx }),
            Some(j) => {
                let e = endos[j];
                match validate_err(e.statement, policy.issuers@, now) {
                    Some(err) => Some(CheckFailure::EndorsementInvalid { layer: idx, error: err }),
                    None => if e.log_entry.leaf_hash@ != statement_leaf(e.statement) {
                        Some(CheckFailure::InclusionInvalid {
                            layer: idx,
                            error: InclusionError::ProofInvalid,
                        })
                    } else {
                        match entry_outcome(e, cp, policy, now) {
                            Err(err) => Some(CheckFailure::InclusionInvalid {
                                layer: idx,
                                error: err,
                            }),
                            Ok(_) => None,
                        }
                    },
                }
            },
        }
    }
}

/// The failures of the first `k` endorsement requirements, in order.
pub open spec fn endo_failures(
    layers: Seq<EvidenceLayer>,
    endos: Seq<Endorsement>,
    cp: LogCheckpoint,
    policy: Policy,
    now: u64,
    k: int,
) -> Seq<CheckFailure>
    decreases k,
{
    if k <= 0 {
        Seq::empty()
    } else {
        endo_failures(layers, endos, cp, policy, now, k - 1) + match layer_check(layers, endos,
            cp, policy, now, policy.endorsed_layers@[k - 1]) {
            Some(f) => seq![f],
            None => Seq::empty(),
        }
    }
}

/// Every failure of the whole verification, in check order.
pub open spec fn all_failures(
    layers: Seq<EvidenceLayer>,
    endos: Seq<Endorsement>,
    cp: LogCheckpoint,
    policy: Policy,
    now: u64,
) -> Seq<CheckFailure> {
    if !root_ok(layers, policy) {
        seq![CheckFailure::RootMismatch]
    } else {
        match first_break(layers, 1) {
            Some(i) => seq![CheckFailure::ChainBroken { layer: i as u64 }],
            None => endo_failures(layers, endos, cp, policy, now,
                policy.endorsed_layers@.len() as int),
        }
    }
}

/// Earlier failure lists are prefixes of later ones.
proof fn lemma_endo_prefix(
    layers: Seq<EvidenceLayer>,
    endos: Seq<Endorsement>,
    cp: LogCheckpoint,
    policy: Policy,
    now: u64,
    k: int,
    k2: int,
)
    requires
        0 <= k <= k2,
    ensures
        endo_failures(layers, endos, cp, policy, now, k2).len() >= endo_failures(layers, endos,
            cp, policy, now, k).len(),
        forall|i: int| 0 <= i < endo_failures(layers, endos, cp, policy, now, k).len()
            ==> endo_failures(layers, endos, cp, policy, now, k2)[i] == endo_failures(layers,
            endos, cp, policy, now, k)[i],
    decreases k2 - k,
{
    if k < k2 {
        lemma_endo_prefix(layers, endos, cp, policy, now, k, k2 - 1);
    }
}

/// When no failure was collected, every endorsement requirement passed.
proof fn lemma_endo_empty(
    layers: Seq<EvidenceLayer>,
    endos: Seq<Endorsement>,
    cp: LogCheckpoint,
    policy: Policy,
    now: u64,
    k: int,
)
    requires
        0 <= k < policy.endorsed_layers@.len(),
        endo_failures(layers, endos, cp, policy, now, policy.endorsed_layers@.len() as int).len()
            == 0,
    ensures
        layer_check(layers, endos, cp, policy, now, policy.endorsed_layers@[k]) is None,
{
    lemma_endo_prefix(layers, endos, cp, policy, now, k + 1,
        policy.endorsed_layers@.len() as int);
    lemma_endo_prefix(layers, endos, cp, policy, now, k, k + 1);
}

/// A chain with a broken link at `i` and a good root fails as
/// `ChainBroken` at or before `i`, and with no other failure listed.
/// With `verify`'s contract, a nonempty failure list rules out
/// `Success`, so one tampered inter-layer signature is enough to reject
/// the whole chain.
pub proof fn lemma_tampered_link(
    layers: Seq<EvidenceLayer>,
    endos: Seq<Endorsement>,
    cp: LogCheckpoint,
    policy: Policy,
    now: u64,
    i: int,
)
    requires
        1 <= i < layers.len(),
        root_ok(layers, policy),
        !link_ok(layers[i - 1], layers[i]),
    ensures
        all_failures(layers, endos, cp, policy, now).len() == 1,
        all_failures(layers, endos, cp, policy, now)[0] is ChainBroken,
        all_failures(layers, endos, cp, policy, now)[0]->ChainBroken_layer <= i,
{
    lemma_first_break_some(layers, 1, i);
}

proof fn lemma_first_break_some(layers: Seq<EvidenceLayer>, a: int, i: int)
    requires
        1 <= a <= i < layers.len(),
        !link_ok(layers[i - 1], layers[i]),
    ensures
        first_break(layers, a) is Some,
        a <= first_break(layers, a)->0 <= i,
    decreases i - a,
{
    if link_ok(layers[a - 1], layers[a]) {
        lemma_first_break_some(layers, a + 1, i);
    }
}

/// Builds the wire value of an optional bound.
fn bound_value(b: &Option<u64>) -> (v: Value)
    ensures
        v@ == bound_model(*b),
{
    match b {
        None => {
            let es: Vec<Value> = Vec::new();
            proof {
                crate::model::lemma_view_list_index(es@);
                assert(view_list(es@) =~= Seq::<ValueModel>::empty());
            }
            Value::Array(es)
        },
        Some(n) => {
            let mut es: Vec<Value> = Vec::new();
            es.push(Value::Uint(*n));
            proof {
                crate::model::lemma_view_list_index(es@);
                assert(es@[0] == Value::Uint(*n));
                assert(view_list(es@) =~= seq![ValueModel::Uint(*n as u64)]);
            }
            Value::Array(es)
        },
    }
}

/// The bytes `l` is signed over.
pub fn layer_signing_bytes(l: &EvidenceLayer) -> (out: Vec<u8>)
    ensures
        out@ == layer_msg(*l),
{
    let mut ms: Vec<Value> = Vec::new();
    let mut i: usize = 0;
    while i < l.measurements.len()
        invariant
            i <= l.measurements@.len(),
            view_list(ms@).len() == i,
            forall|k: int| 0 <= k < i ==> view_list(ms@)[k] == ValueModel::Bytes(
                (#[trigger] l.measurements@[k])@,
            ),
        decreases l.measurements@.len() - i,
    {
        let b = copy_bytes(&l.measurements[i]);
        proof {
            crate::model::lemma_view_list_push(ms@, Value::Bytes(b));
        }
        ms.push(Value::Bytes(b));
        i = i + 1;
    }
    proof {
        assert(view_list(ms@) =~= measurement_models(l.measurements@));
    }
    let issuer = copy_bytes(&l.issuer_key);
    let subject = copy_bytes(&l.subject_key);
    let ghost iv = issuer@;
    let ghost sv = subject@;
    let ghost mm = view_list(ms@);
    let nb = bound_value(&l.not_before);
    let na = bound_value(&l.not_after);
    let ghost nbv = nb@;
    let ghost nav = na@;
    let mut ps: Vec<(Value, Value)> = Vec::new();
    ps.push((Value::Uint(0), Value::Bytes(issuer)));
    ps.push((Value::Uint(1), Value::Bytes(subject)));
    ps.push((Value::Uint(2), Value::Array(ms)));
    ps.push((Value::Uint(3), nb));
    ps.push((Value::Uint(4), na));
    proof {
        crate::model::lemma_view_pairs_index(ps@);
        assert(ps@.len() == 5);
        assert(ps@[0].1 is Bytes && ps@[0].1->Bytes_0@ == iv);
        assert(ps@[1].1 is Bytes && ps@[1].1->Bytes_0@ == sv);
        assert(ps@[2].1 is Array && view_list(ps@[2].1->Array_0@) == mm);
        assert(crate::model::view_val(ps@[0].0) == ValueModel::Uint(0u64));
        assert(crate::model::view_val(ps@[0].1) == ValueModel::Bytes(iv));
        assert(crate::model::view_val(ps@[1].0) == ValueModel::Uint(1u64));
        assert(crate::model::view_val(ps@[1].1) == ValueModel::Bytes(sv));
        assert(crate::model::view_val(ps@[2].0) == ValueModel::Uint(2u64));
        assert(crate::model::view_val(ps@[2].1) == ValueModel::Array(mm));
        assert(crate::model::view_val(ps@[3].0) == ValueModel::Uint(3u64));
        assert(crate::model::view_val(ps@[3].1) == nbv);
        assert(crate::model::view_val(ps@[4].0) == ValueModel::Uint(4u64));
        assert(crate::model::view_val(ps@[4].1) == nav);
        assert(view_pairs(ps@) =~= seq![
            (ValueModel::Uint(0u64), ValueModel::Bytes(l.issuer_key@)),
            (ValueModel::Uint(1u64), ValueModel::Bytes(l.subject_key@)),
            (ValueModel::Uint(2u64), ValueModel::Array(measurement_models(l.measurements@))),
            (ValueModel::Uint(3u64), bound_model(l.not_before)),
            (ValueModel::Uint(4u64), bound_model(l.not_after)),
        ]);
    }
    let v = Value::Dict(ps);
    encode(&v)
}

/// Whether the statement's subject digest equals one of the layer's
/// measurement digests.
fn statement_covers(stmt: &EndorsementStatement, l: &EvidenceLayer) -> (r: bool)
    ensures
        r == exists|j: int| 0 <= j < l.measurements@.len() && stmt.subject_digest@
            == (#[trigger] l.measurements@[j])@,
{
    let mut i: usize = 0;
    while i < l.measurements.len()
        invariant
            i <= l.measurements@.len(),
            forall|j: int| 0 <= j < i ==> stmt.subject_digest@ != (#[trigger] l.measurements@[j])@,
        decreases l.measurements@.len() - i,
    {
        let c = lex_cmp(stmt.subject_digest.as_slice(), l.measurements[i].as_slice());
        proof {
            lemma_lex_trichotomy(stmt.subject_digest@, l.measurements@[i as int]@);
        }
        if c == 0 {
            assert(stmt.subject_digest@ == l.measurements@[i as int]@);
            return true;
        }
        i = i + 1;
    }
    false
}

proof fn lemma_find_skip(endos: Seq<Endorsement>, l: EvidenceLayer, i: int)
    requires
        0 <= i <= endos.len(),
        forall|j: int| 0 <= j < i ==> !matches_layer(#[trigger] endos[j], l),
    ensures
        find_endorsement(endos, l, 0) == find_endorsement(endos, l, i),
    decreases i,
{
    if i > 0 {
        lemma_find_skip(endos, l, i - 1);
    }
}

/// The first endorsement covering the layer.
fn find_covering(endos: &Vec<Endorsement>, l: &EvidenceLayer) -> (r: Option<usize>)
    ensures
        match r {
            Some(j) => j < endos@.len() && find_endorsement(endos@, *l, 0) == Some(j as int),
            None => find_endorsement(endos@, *l, 0) is None,
        },
{
    let mut i: usize = 0;
    while i < endos.len()
        invariant
            i <= endos@.len(),
            forall|j: int| 0 <= j < i ==> !matches_layer(#[trigger] endos@[j], *l),
        decreases endos@.len() - i,
    {
        if statement_covers(&endos[i].statement, l) {
            proof {
                lemma_find_skip(endos@, *l, i as int);
            }
            return Some(i);
        }
        i = i + 1;
    }
    proof {
        lemma_find_skip(endos@, *l, endos@.len() as int);
    }
    None
}


/// Whether `x` occurs in `list`.
fn contains_u64(list: &Vec<u64>, x: u64) -> (r: bool)
    ensures
        r == list@.contains(x),
{
    let mut found = false;
    let mut w: usize = 0;
    let n = list.len();
    while w < n
        invariant
            w <= n,
            n == list@.len(),
            found == exists|q: int| 0 <= q < w && list@[q] == x,
        decreases n - w,
    {
        if list[w] == x {
            assert(list@[w as int] == x);
            found = true;
        }
        w = w + 1;
    }
    proof {
        if found {
            let q = choose|q: int| 0 <= q < n && list@[q] == x;
            assert(list@.contains(x));
        } else {
            if list@.contains(x) {
                let q = choose|q: int| 0 <= q < list@.len() && list@[q] == x;
            }
        }
    }
    found
}

/// Runs the endorsement and inclusion checks for the layer at `idx`,
/// mirroring `layer_check`.
fn check_layer(
    evidence: &Evidence,
    endorsements: &Vec<Endorsement>,
    checkpoint: &LogCheckpoint,
    policy: &Policy,
    now: u64,
    idx: u64,
) -> (r: Option<CheckFailure>)
    ensures
        r == layer_check(evidence.layers@, endorsements@, *checkpoint, *policy, now, idx),
{
    if idx >= evidence.layers.len() as u64 {
        return Some(CheckFailure::MissingEndorsement { layer: idx });
    }
    let l = &evidence.layers[idx as usize];
    let j = match find_covering(endorsements, l) {
        None => {
            return Some(CheckFailure::MissingEndorsement { layer: idx });
        },
        Some(j) => j,
    };
    let e = &endorsements[j];
    match validate(&e.statement, &policy.issuers, now) {
        Err(err) => {
            return Some(CheckFailure::EndorsementInvalid { layer: idx, error: err });
        },
        Ok(_) => {},
    }
    let msg = statement_signing_bytes(&e.statement);
    let expected_leaf = leaf_hash(msg.as_slice());
    let c = lex_cmp(e.log_entry.leaf_hash.as_slice(), expected_leaf.as_slice());
    proof {
        lemma_lex_trichotomy(e.log_entry.leaf_hash@, expected_leaf@);
    }
    if c != 0 {
        return Some(CheckFailure::InclusionInvalid {
            layer: idx,
            error: InclusionError::ProofInvalid,
        });
    }
    match verify_inclusion(&e.log_entry, checkpoint, policy.log_key.as_slice(), now,
        policy.max_checkpoint_age) {
        Err(err) => Some(CheckFailure::InclusionInvalid { layer: idx, error: err }),
        Ok(_) => None,
    }
}

/// Verifies an evidence chain against the policy at time `now`.
///
/// The verdict is `Success` exactly when every check passes; otherwise it
/// lists the failures in check order — all of them, or only the first
/// when the policy says to stop early.
#[verifier::rlimit(100)]
pub fn verify(
    evidence: &Evidence,
    endorsements: &Vec<Endorsement>,
    checkpoint: &LogCheckpoint,
    policy: &Policy,
    now: u64,
) -> (v: Verdict)
    requires
        evidence.layers@.len() >= 1,
    ensures
        match v {
            Verdict::Failure { failures } => {
                &&& all_failures(evidence.layers@, endorsements@, *checkpoint, *policy, now).len()
                    >= 1
                &&& failures@ == if policy.fail_fast {
                    all_failures(evidence.layers@, endorsements@, *checkpoint, *policy,
                        now).take(1)
                } else {
                    all_failures(evidence.layers@, endorsements@, *checkpoint, *policy, now)
                }
            },
            Verdict::Success { layers } => {
                &&& all_failures(evidence.layers@, endorsements@, *checkpoint, *policy, now)
                    == Seq::<CheckFailure>::empty()
                &&& layers@.len() == evidence.layers@.len()
                &&& forall|i: int| 0 <= i < layers@.len() ==> (#[trigger] layers@[i]).index
                    == i
                &&& forall|i: int| 0 <= i < layers@.len() ==> ((#[trigger] layers@[i]).claim
                    is Some) == policy.endorsed_layers@.contains(i as u64)
                &&& forall|i: int| 0 <= i < layers@.len()
                    && policy.endorsed_layers@.contains(i as u64) ==> {
                    let e = endorsements@[find_endorsement(endorsements@,
                        evidence.layers@[i], 0)->0];
                    &&& (#[trigger] layers@[i]).claim->0.subject_digest@
                        == e.statement.subject_digest@
                    &&& layers@[i].claim->0.issuer_id@ == e.statement.issuer_id@
                    &&& layers@[i].claim->0.claim_type == e.statement.claim_type
                    &&& layers@[i].claim->0.not_before == e.statement.not_before
                    &&& layers@[i].claim->0.not_after == e.statement.not_after
                    &&& layers@[i].inclusion == Some(InclusionResult {
                        leaf_index: e.log_entry.leaf_index,
                        tree_size: checkpoint.tree_size,
                    })
                }
            },
        },
{
    let ghost glayers = evidence.layers@;
    let ghost gendos = endorsements@;
    let ghost gcp = *checkpoint;
    let ghost gpolicy = *policy;
    let n = evidence.layers.len();

    // Step 1: the root layer must be issued by the trusted root key.
    let c = lex_cmp(evidence.layers[0].issuer_key.as_slice(), policy.trusted_root_key.as_slice());
    proof {
        lemma_lex_trichotomy(glayers[0].issuer_key@, policy.trusted_root_key@);
    }
    if c != 0 {
        let mut failures: Vec<CheckFailure> = Vec::new();
        failures.push(CheckFailure::RootMismatch);
        proof {
            assert(failures@ =~= seq![CheckFailure::RootMismatch]);
            assert(all_failures(glayers, gendos, gcp, gpolicy, now)
                =~= seq![CheckFailure::RootMismatch]);
            assert(all_failures(glayers, gendos, gcp, gpolicy, now).take(1)
                =~= seq![CheckFailure::RootMismatch]);
        }
        return Verdict::Failure { failures };
    }

    // Step 2: every adjacent pair must be linked by matching keys and a
    // valid signature; the first break invalidates everything beyond it.
    let mut i: usize = 1;
    while i < n
        invariant
            1 <= i <= n,
            n == glayers.len(),
            glayers == evidence.layers@,
            gendos == endorsements@,
            gcp == *checkpoint,
            gpolicy == *policy,
            root_ok(glayers, gpolicy),
            forall|l: int| 1 <= l < i ==> link_ok(glayers[l - 1], #[trigger] glayers[l]),
        decreases n - i,
    {
        let prev = &evidence.layers[i - 1];
        let cur = &evidence.layers[i];
        let keys = lex_cmp(cur.issuer_key.as_slice(), prev.subject_key.as_slice());
        proof {
            lemma_lex_trichotomy(glayers[i as int].issuer_key@,
                glayers[i as int - 1].subject_key@);
        }
        let mut broken = keys != 0;
        if !broken {
            let msg = layer_signing_bytes(cur);
            if !verify_sig(prev.subject_key.as_slice(), msg.as_slice(),
                cur.signature.as_slice()) {
                broken = true;
            }
        }
        if broken {
            assert(!link_ok(glayers[i as int - 1], glayers[i as int]));
            proof {
                lemma_first_break_some(glayers, 1, i as int);
                lemma_first_break_stops(glayers, 1, i as int);
            }
            let mut failures: Vec<CheckFailure> = Vec::new();
            failures.push(CheckFailure::ChainBroken { layer: i as u64 });
            proof {
                assert(failures@ =~= seq![CheckFailure::ChainBroken { layer: i as u64 }]);
                assert(all_failures(glayers, gendos, gcp, gpolicy, now) =~= failures@);
                assert(all_failures(glayers, gendos, gcp, gpolicy, now).take(1) =~= failures@);
            }
            return Verdict::Failure { failures };
        }
        i = i + 1;
    }
    proof {
        lemma_first_break_none(glayers, 1);
    }

    // Step 3: each layer the policy marks runs the endorsement and
    // inclusion checks.
    let total = policy.endorsed_layers.len();
    let mut failures: Vec<CheckFailure> = Vec::new();
    let mut k: usize = 0;
    while k < total
        invariant
            k <= total,
            total == gpolicy.endorsed_layers@.len(),
            glayers == evidence.layers@,
            gendos == endorsements@,
            gcp == *checkpoint,
            gpolicy == *policy,
            glayers.len() >= 1,
            root_ok(glayers, gpolicy),
            first_break(glayers, 1) is None,
            failures@ == endo_failures(glayers, gendos, gcp, gpolicy, now, k as int),
            gpolicy.fail_fast ==> failures@.len() == 0,
        decreases total - k,
    {
        let idx = policy.endorsed_layers[k];
        match check_layer(evidence, endorsements, checkpoint, policy, now, idx) {
            None => {},
            Some(f) => {
                if policy.fail_fast {
                    proof {
                        lemma_endo_prefix(glayers, gendos, gcp, gpolicy, now, k as int + 1,
                            total as int);
                    }
                    let mut only: Vec<CheckFailure> = Vec::new();
                    only.push(f);
                    proof {
                        let all = all_failures(glayers, gendos, gcp, gpolicy, now);
                        assert(endo_failures(glayers, gendos, gcp, gpolicy, now, k as int + 1)
                            =~= seq![f]);
                        assert(all.len() >= 1);
                        assert(all[0] == f);
                        assert(only@ =~= all.take(1));
                    }
                    return Verdict::Failure { failures: only };
                }
                failures.push(f);
                proof {
                    assert(failures@ =~= endo_failures(glayers, gendos, gcp, gpolicy, now,
                        k as int) + seq![f]);
                }
            },
        }
        k = k + 1;
    }
    if failures.len() > 0 {
        return Verdict::Failure { failures };
    }

    // Step 4: everything passed; name each layer with its evidence.
    let mut out: Vec<VerifiedLayer> = Vec::new();
    let mut i2: usize = 0;
    while i2 < n
        invariant
            i2 <= n,
            n == glayers.len(),
            glayers == evidence.layers@,
            gendos == endorsements@,
            gcp == *checkpoint,
            gpolicy == *policy,
            root_ok(glayers, gpolicy),
            first_break(glayers, 1) is None,
            endo_failures(glayers, gendos, gcp, gpolicy, now,
                gpolicy.endorsed_layers@.len() as int).len() == 0,
            out@.len() == i2,
            forall|l: int| 0 <= l < i2 ==> (#[trigger] out@[l]).index == l,
            forall|l: int| 0 <= l < i2 ==> ((#[trigger] out@[l]).claim is Some)
                == gpolicy.endorsed_layers@.contains(l as u64),
            forall|l: int| 0 <= l < i2 && gpolicy.endorsed_layers@.contains(l as u64) ==> {
                let e = gendos[find_endorsement(gendos, glayers[l], 0)->0];
                &&& (#[trigger] out@[l]).claim->0.subject_digest@ == e.statement.subject_digest@
                &&& out@[l].claim->0.issuer_id@ == e.statement.issuer_id@
                &&& out@[l].claim->0.claim_type == e.statement.claim_type
                &&& out@[l].claim->0.not_before == e.statement.not_before
                &&& out@[l].claim->0.not_after == e.statement.not_after
                &&& out@[l].inclusion == Some(InclusionResult {
                    leaf_index: e.log_entry.leaf_index,
                    tree_size: gcp.tree_size,
                })
            },
        decreases n - i2,
    {
        let endorsed = contains_u64(&policy.endorsed_layers, i2 as u64);
        if endorsed {
            proof {
                let kk = choose|kk: int| 0 <= kk < gpolicy.endorsed_layers@.len()
                    && gpolicy.endorsed_layers@[kk] == i2 as u64;
                lemma_endo_empty(glayers, gendos, gcp, gpolicy, now, kk);
                assert(layer_check(glayers, gendos, gcp, gpolicy, now, i2 as u64) is None);
            }
            let l = &evidence.layers[i2];
            let j = match find_covering(endorsements, l) {
                None => {
                    proof {
                        assert(false);
                    }
                    return Verdict::Failure { failures: Vec::new() };
                },
                Some(j) => j,
            };
            let e = &endorsements[j];
            match validate(&e.statement, &policy.issuers, now) {
                Ok(claim) => {
                    out.push(VerifiedLayer {
                        index: i2 as u64,
                        claim: Some(claim),
                        inclusion: Some(InclusionResult {
                            leaf_index: e.log_entry.leaf_index,
                            tree_size: checkpoint.tree_size,
                        }),
                    });
                },
                Err(_) => {
                    proof {
                        assert(false);
                    }
                    return Verdict::Failure { failures: Vec::new() };
                },
            }
        } else {
            out.push(VerifiedLayer { index: i2 as u64, claim: None, inclusion: None });
        }
        i2 = i2 + 1;
    }
    Verdict::Success { layers: out }
}

proof fn lemma_first_break_stops(layers: Seq<EvidenceLayer>, a: int, i: int)
    requires
        1 <= a <= i < layers.len(),
        forall|l: int| a <= l < i ==> link_ok(layers[l - 1], #[trigger] layers[l]),
        !link_ok(layers[i - 1], layers[i]),
    ensures
        first_break(layers, a) == Some(i),
    decreases i - a,
{
    if a < i {
        lemma_first_break_stops(layers, a + 1, i);
    }
}

proof fn lemma_first_break_none(layers: Seq<EvidenceLayer>, a: int)
    requires
        1 <= a,
        forall|l: int| a <= l < layers.len() ==> link_ok(layers[l - 1], #[trigger] layers[l]),
    ensures
        first_break(layers, a) is None,
    decreases layers.len() - a,
{
    if a < layers.len() {
        lemma_first_break_none(layers, a + 1);
    }
}

} // verus!
