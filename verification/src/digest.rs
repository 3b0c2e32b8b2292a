//! The digest and signature primitive.
//!
//! All hashing in the pipeline — measurement binding, Merkle tree nodes,
//! and signatures — is built on one pure 64-bit multiply-and-fold over the
//! input bytes, emitted big-endian as an 8-byte digest. A signature is the
//! digest of the signer's key followed by the message, so verification is
//! a deterministic function of key, message and signature. Domain bytes
//! keep leaf hashes, interior-node hashes and signature tags from ever
//! colliding structurally, which closes the leaf/node confusion attack on
//! inclusion proofs.

use vstd::prelude::*;

verus! {

/// Number of bytes in a digest.
pub const DIGEST_LEN: usize = 8;

/// Domain byte for hashing a transparency-log leaf.
pub const DOM_LEAF: u8 = 0;

/// Domain byte for hashing an interior Merkle node.
pub const DOM_NODE: u8 = 1;

/// Domain byte for signature tags.
pub const DOM_SIG: u8 = 2;

/// The 64-bit fold of a byte string.
pub open spec fn fold64(s: Seq<u8>) -> u64
    decreases s.len(),
{
    if s.len() == 0 {
        0xcbf29ce484222325u64
    } else {
        ((((fold64(s.drop_last()) ^ (s.last() as u64)) as nat) * 0x100000001b3nat)
            % 0x1_0000_0000_0000_0000nat) as u64
    }
}

/// The digest of a byte string: the fold, big-endian.
pub open spec fn digest_spec(s: Seq<u8>) -> Seq<u8> {
    let h = fold64(s);
    seq![
        (h >> 56) as u8,
        (h >> 48) as u8,
        (h >> 40) as u8,
        (h >> 32) as u8,
        (h >> 24) as u8,
        (h >> 16) as u8,
        (h >> 8) as u8,
        h as u8,
    ]
}

/// The hash binding a leaf's content into the transparency log.
pub open spec fn leaf_hash_spec(data: Seq<u8>) -> Seq<u8> {
    digest_spec(seq![DOM_LEAF] + data)
}

/// The hash of an interior Merkle node over its two children.
pub open spec fn node_hash_spec(l: Seq<u8>, r: Seq<u8>) -> Seq<u8> {
    digest_spec(seq![DOM_NODE] + l + r)
}

/// The signature tag of `msg` under `key`.
pub open spec fn sig_tag(key: Seq<u8>, msg: Seq<u8>) -> Seq<u8> {
    digest_spec(seq![DOM_SIG] + key + msg)
}

/// Computes the fold of `prefix ++ a ++ b`.
fn fold_parts(prefix: u8, a: &[u8], b: &[u8]) -> (h: u64)
    ensures
        h == fold64(seq![prefix] + a@ + b@),
{
    let ghost whole = seq![prefix] + a@ + b@;
    let mut h: u64 = 0xcbf29ce484222325u64;
    h = (h ^ (prefix as u64)).wrapping_mul(0x100000001b3u64);
    proof {
        assert(whole.take(1).drop_last() =~= Seq::<u8>::empty());
        assert(whole.take(1).last() == prefix);
        assert(fold64(Seq::<u8>::empty()) == 0xcbf29ce484222325u64);
        assert(fold64(whole.take(1)) == ((((0xcbf29ce484222325u64 ^ (prefix as u64)) as nat)
            * 0x100000001b3nat) % 0x1_0000_0000_0000_0000nat) as u64);
        assert(h == fold64(whole.take(1)));
    }
    let mut i: usize = 0;
    while i < a.len()
        invariant
            i <= a.len(),
            whole == seq![prefix] + a@ + b@,
            h == fold64(whole.take(1 + i as int)),
        decreases a.len() - i,
    {
        proof {
            assert(whole.take(1 + i + 1).drop_last() =~= whole.take(1 + i as int));
            assert(whole.take(1 + i + 1).last() == whole[1 + i as int]);
            assert(whole[1 + i as int] == a@[i as int]);
        }
        h = (h ^ (a[i] as u64)).wrapping_mul(0x100000001b3u64);
        i = i + 1;
    }
    let mut j: usize = 0;
    while j < b.len()
        invariant
            j <= b.len(),
            i == a@.len(),
            whole == seq![prefix] + a@ + b@,
            h == fold64(whole.take(1 + a@.len() + j as int)),
        decreases b.len() - j,
    {
        proof {
            assert(whole.take(1 + a@.len() + j + 1).drop_last()
                =~= whole.take(1 + a@.len() + j as int));
            assert(whole.take(1 + a@.len() + j + 1).last() == whole[1 + a@.len() + j as int]);
            assert(whole[1 + a@.len() + j as int] == b@[j as int]);
        }
        h = (h ^ (b[j] as u64)).wrapping_mul(0x100000001b3u64);
        j = j + 1;
    }
    proof {
        assert(whole.take(whole.len() as int) =~= whole);
    }
    h
}

/// Emits a fold as an 8-byte big-endian digest.
fn emit(h: u64) -> (out: Vec<u8>)
    ensures
        out@.len() == 8,
        out@ == seq![
            (h >> 56) as u8,
            (h >> 48) as u8,
            (h >> 40) as u8,
            (h >> 32) as u8,
            (h >> 24) as u8,
            (h >> 16) as u8,
            (h >> 8) as u8,
            h as u8,
        ],
{
    let mut out: Vec<u8> = Vec::new();
    out.push(#[verifier::truncate] ((h >> 56) as u8));
    out.push(#[verifier::truncate] ((h >> 48) as u8));
    out.push(#[verifier::truncate] ((h >> 40) as u8));
    out.push(#[verifier::truncate] ((h >> 32) as u8));
    out.push(#[verifier::truncate] ((h >> 24) as u8));
    out.push(#[verifier::truncate] ((h >> 16) as u8));
    out.push(#[verifier::truncate] ((h >> 8) as u8));
    out.push(#[verifier::truncate] (h as u8));
    assert(out@ =~= seq![
        (h >> 56) as u8,
        (h >> 48) as u8,
        (h >> 40) as u8,
        (h >> 32) as u8,
        (h >> 24) as u8,
        (h >> 16) as u8,
        (h >> 8) as u8,
        h as u8,
    ]);
    out
}

/// The leaf hash of `data`.
pub fn leaf_hash(data: &[u8]) -> (out: Vec<u8>)
    ensures
        out@ == leaf_hash_spec(data@),
{
    let none: [u8; 0] = [];
    let h = fold_parts(DOM_LEAF, data, none.as_slice());
    proof {
        assert(seq![DOM_LEAF] + data@ + none@ =~= seq![DOM_LEAF] + data@);
    }
    emit(h)
}

/// The hash of an interior node over child digests `l` and `r`.
pub fn node_hash(l: &[u8], r: &[u8]) -> (out: Vec<u8>)
    ensures
        out@ == node_hash_spec(l@, r@),
{
    let h = fold_parts(DOM_NODE, l, r);
    emit(h)
}

/// The signature tag of `msg` under `key`.
pub fn compute_tag(key: &[u8], msg: &[u8]) -> (out: Vec<u8>)
    ensures
        out@ == sig_tag(key@, msg@),
{
    let h = fold_parts(DOM_SIG, key, msg);
    emit(h)
}

/// Whether `sig` is the signature of `msg` under `key`.
pub fn verify_sig(key: &[u8], msg: &[u8], sig: &[u8]) -> (ok: bool)
    ensures
        ok == (sig@ == sig_tag(key@, msg@)),
{
    let tag = compute_tag(key, msg);
    let eq = crate::bytes::lex_cmp(sig, tag.as_slice());
    proof {
        crate::bytes::lemma_lex_trichotomy(sig@, tag@);
    }
    eq == 0
}

} // verus!
