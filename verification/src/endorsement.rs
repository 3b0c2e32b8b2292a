//! Endorsement statements and their validation.
//!
//! An endorsement binds a subject measurement digest to an issuer, a claim
//! type and a validity window, signed by the issuer over the canonical
//! encoding of the statement. Validation looks the issuer up among the
//! trusted issuers, checks the signature, and checks the window against
//! the injected time — in that order, returning the first failure.

use vstd::prelude::*;
use crate::model::{Value, ValueModel, view_pairs};
use crate::encode::{enc, encode};
use crate::digest::{sig_tag, verify_sig};
use crate::bytes::{lex_cmp, lemma_lex_trichotomy, copy_bytes};

verus! {

/// A signed claim about one measurement digest.
#[derive(Debug)]
pub struct EndorsementStatement {
    pub issuer_id: Vec<u8>,
    pub subject_digest: Vec<u8>,
    pub claim_type: u64,
    pub not_before: u64,
    pub not_after: u64,
    pub signature: Vec<u8>,
}

/// An issuer the caller trusts, with its public key.
#[derive(Debug)]
pub struct TrustedIssuer {
    pub id: Vec<u8>,
    pub key: Vec<u8>,
}

/// Why an endorsement statement was rejected.
#[derive(Clone, Copy, Debug, PartialEq, Eq, Structural)]
pub enum EndorsementError {
    /// The statement's issuer is not among the trusted issuers.
    UnknownIssuer,
    /// The signature does not verify under the issuer's key.
    BadSignature,
    /// The current time lies before the validity window.
    NotYetValid,
    /// The current time lies after the validity window.
    Expired,
}

/// The accepted content of a validated statement.
#[derive(Debug)]
pub struct ValidatedClaim {
    pub subject_digest: Vec<u8>,
    pub issuer_id: Vec<u8>,
    pub claim_type: u64,
    pub not_before: u64,
    pub not_after: u64,
}

/// The bytes an endorsement statement signs: the canonical encoding of a
/// map of its fields, the signature excluded.
pub open spec fn statement_msg(
    issuer: Seq<u8>,
    subject: Seq<u8>,
    claim_type: u64,
    nb: u64,
    na: u64,
) -> Seq<u8> {
    enc(ValueModel::Dict(seq![
        (ValueModel::Uint(0u64), ValueModel::Bytes(issuer)),
        (ValueModel::Uint(1u64), ValueModel::Bytes(subject)),
        (ValueModel::Uint(2u64), ValueModel::Uint(claim_type)),
        (ValueModel::Uint(3u64), ValueModel::Uint(nb)),
        (ValueModel::Uint(4u64), ValueModel::Uint(na)),
    ]))
}

/// The key of the first trusted issuer with the given identity.
pub open spec fn issuer_key_of(issuers: Seq<TrustedIssuer>, id: Seq<u8>) -> Option<Seq<u8>>
    decreases issuers.len(),
{
    if issuers.len() == 0 {
        None
    } else if issuers[0].id@ == id {
        Some(issuers[0].key@)
    } else {
        issuer_key_of(issuers.skip(1), id)
    }
}

/// The error `validate` returns, `None` when the statement is accepted:
/// unknown issuer first, then signature, then the window around `now`.
pub open spec fn validate_err(
    stmt: EndorsementStatement,
    issuers: Seq<TrustedIssuer>,
    now: u64,
) -> Option<EndorsementError> {
    match issuer_key_of(issuers, stmt.issuer_id@) {
        None => Some(EndorsementError::UnknownIssuer),
        Some(key) => if stmt.signature@ != sig_tag(key, statement_msg(stmt.issuer_id@,
            stmt.subject_digest@, stmt.claim_type, stmt.not_before, stmt.not_after)) {
            Some(EndorsementError::BadSignature)
        } else if now < stmt.not_before {
            Some(EndorsementError::NotYetValid)
        } else if now > stmt.not_after {
            Some(EndorsementError::Expired)
        } else {
            None
        },
    }
}

/// A statement from a trusted issuer with a good signature whose validity
/// window excludes `now` is rejected as not yet valid or expired.
pub proof fn lemma_window_excluded(stmt: EndorsementStatement, issuers: Seq<TrustedIssuer>, now: u64)
    requires
        issuer_key_of(issuers, stmt.issuer_id@) is Some,
        stmt.signature@ == sig_tag(issuer_key_of(issuers, stmt.issuer_id@)->0, statement_msg(
            stmt.issuer_id@, stmt.subject_digest@, stmt.claim_type, stmt.not_before,
            stmt.not_after)),
        now < stmt.not_before || now > stmt.not_after,
    ensures
        validate_err(stmt, issuers, now) == Some(EndorsementError::NotYetValid)
            || validate_err(stmt, issuers, now) == Some(EndorsementError::Expired),
{
}

/// Looking up an identity is unchanged by dropping leading non-matches.
proof fn lemma_issuer_key_skip(issuers: Seq<TrustedIssuer>, id: Seq<u8>, i: int)
    requires
        0 <= i <= issuers.len(),
        forall|l: int| 0 <= l < i ==> (#[trigger] issuers[l]).id@ != id,
    ensures
        issuer_key_of(issuers, id) == issuer_key_of(issuers.skip(i), id),
    decreases i,
{
    if i > 0 {
        let tail = issuers.skip(1);
        assert(forall|l: int| 0 <= l < i - 1 ==> #[trigger] tail[l] == issuers[l + 1]);
        lemma_issuer_key_skip(tail, id, i - 1);
        assert(tail.skip(i - 1) =~= issuers.skip(i));
    } else {
        assert(issuers.skip(0) =~= issuers);
    }
}

/// The bytes `stmt` is signed over.
pub fn statement_signing_bytes(stmt: &EndorsementStatement) -> (out: Vec<u8>)
    ensures
        out@ == statement_msg(stmt.issuer_id@, stmt.subject_digest@, stmt.claim_type,
            stmt.not_before, stmt.not_after),
{
    let issuer = copy_bytes(&stmt.issuer_id);
    let subject = copy_bytes(&stmt.subject_digest);
    let ghost iv = issuer@;
    let ghost sv = subject@;
    let mut ps: Vec<(Value, Value)> = Vec::new();
    ps.push((Value::Uint(0), Value::Bytes(issuer)));
    ps.push((Value::Uint(1), Value::Bytes(subject)));
    ps.push((Value::Uint(2), Value::Uint(stmt.claim_type)));
    ps.push((Value::Uint(3), Value::Uint(stmt.not_before)));
    ps.push((Value::Uint(4), Value::Uint(stmt.not_after)));
    proof {
        crate::model::lemma_view_pairs_index(ps@);
        assert(ps@.len() == 5);
        assert(ps@[0].1 is Bytes && ps@[0].1->Bytes_0@ == iv);
        assert(ps@[1].1 is Bytes && ps@[1].1->Bytes_0@ == sv);
        assert(crate::model::view_val(ps@[0].0) == ValueModel::Uint(0u64));
        assert(crate::model::view_val(ps@[0].1) == ValueModel::Bytes(iv));
        assert(crate::model::view_val(ps@[1].0) == ValueModel::Uint(1u64));
        assert(crate::model::view_val(ps@[1].1) == ValueModel::Bytes(sv));
        assert(crate::model::view_val(ps@[2].0) == ValueModel::Uint(2u64));
        assert(crate::model::view_val(ps@[2].1) == ValueModel::Uint(stmt.claim_type));
        assert(crate::model::view_val(ps@[3].0) == ValueModel::Uint(3u64));
        assert(crate::model::view_val(ps@[3].1) == ValueModel::Uint(stmt.not_before));
        assert(crate::model::view_val(ps@[4].0) == ValueModel::Uint(4u64));
        assert(crate::model::view_val(ps@[4].1) == ValueModel::Uint(stmt.not_after));
        assert(view_pairs(ps@) =~= seq![
            (ValueModel::Uint(0u64), ValueModel::Bytes(stmt.issuer_id@)),
            (ValueModel::Uint(1u64), ValueModel::Bytes(stmt.subject_digest@)),
            (ValueModel::Uint(2u64), ValueModel::Uint(stmt.claim_type)),
            (ValueModel::Uint(3u64), ValueModel::Uint(stmt.not_before)),
            (ValueModel::Uint(4u64), ValueModel::Uint(stmt.not_after)),
        ]);
    }
    let v = Value::Dict(ps);
    encode(&v)
}

/// Validates an endorsement statement against the trusted issuers at time
/// `now`, returning the accepted claim or the first failing check.
pub fn validate(
    stmt: &EndorsementStatement,
    trusted_issuers: &Vec<TrustedIssuer>,
    now: u64,
) -> (r: Result<ValidatedClaim, EndorsementError>)
    ensures
        match r {
            Ok(c) => {
                &&& validate_err(*stmt, trusted_issuers@, now) is None
                &&& c.subject_digest@ == stmt.subject_digest@
                &&& c.issuer_id@ == stmt.issuer_id@
                &&& c.claim_type == stmt.claim_type
                &&& c.not_before == stmt.not_before
                &&& c.not_after == stmt.not_after
            },
            Err(e) => validate_err(*stmt, trusted_issuers@, now) == Some(e),
        },
{
    let mut i: usize = 0;
    let n = trusted_issuers.len();
    while i < n
        invariant
            i <= n,
            n == trusted_issuers@.len(),
            forall|l: int| 0 <= l < i ==> (#[trigger] trusted_issuers@[l]).id@
                != stmt.issuer_id@,
        decreases n - i,
    {
        let c = lex_cmp(trusted_issuers[i].id.as_slice(), stmt.issuer_id.as_slice());
        proof {
            lemma_lex_trichotomy(trusted_issuers@[i as int].id@, stmt.issuer_id@);
        }
        if c == 0 {
            proof {
                lemma_issuer_key_skip(trusted_issuers@, stmt.issuer_id@, i as int);
                assert(trusted_issuers@.skip(i as int)[0] == trusted_issuers@[i as int]);
            }
            let key = &trusted_issuers[i].key;
            let msg = statement_signing_bytes(stmt);
            if !verify_sig(key.as_slice(), msg.as_slice(), stmt.signature.as_slice()) {
                return Err(EndorsementError::BadSignature);
            }
            if now < stmt.not_before {
                return Err(EndorsementError::NotYetValid);
            }
            if now > stmt.not_after {
                return Err(EndorsementError::Expired);
            }
            return Ok(ValidatedClaim {
                subject_digest: copy_bytes(&stmt.subject_digest),
                issuer_id: copy_bytes(&stmt.issuer_id),
                claim_type: stmt.claim_type,
                not_before: stmt.not_before,
                not_after: stmt.not_after,
            });
        }
        i = i + 1;
    }
    proof {
        lemma_issuer_key_skip(trusted_issuers@, stmt.issuer_id@, n as int);
        assert(trusted_issuers@.skip(n as int) =~= Seq::<TrustedIssuer>::empty());
    }
    Err(EndorsementError::UnknownIssuer)
}

} // verus!
