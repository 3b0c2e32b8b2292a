//! Decoding inverts encoding.
//!
//! For every structurally bounded value, parsing its encoding yields the
//! value back and consumes exactly its bytes. Canonicalization being
//! idempotent rests on this.

use vstd::prelude::*;
use crate::model::{ValueModel, bounded};
use crate::encode::{enc, enc_list, enc_pairs, head, be_bytes, pow256, lemma_be_bytes_len,
    lemma_head_len, lemma_enc_len_pos};
use crate::parse::{from_be, parse_head, parse_val, parse_list, parse_pairs, parse_full};

verus! {

pub proof fn lemma_from_be_be(n: nat, len: nat)
    requires
        n < pow256(len),
    ensures
        from_be(be_bytes(n, len)) == n,
    decreases len,
{
    if len == 0 {
    } else {
        assert(pow256(len) == 256 * pow256((len - 1) as nat));
        assert(n / 256 < pow256((len - 1) as nat)) by (nonlinear_arith)
            requires
                n < 256 * pow256((len - 1) as nat),
        ;
        lemma_from_be_be(n / 256, (len - 1) as nat);
        let q = be_bytes(n, len);
        let x = be_bytes(n / 256, (len - 1) as nat);
        lemma_be_bytes_len(n / 256, (len - 1) as nat);
        assert(q == x.push((n % 256) as u8));
        assert(q.drop_last() =~= x);
        assert(q.last() == (n % 256) as u8);
        assert(from_be(q) == from_be(x) * 256 + n % 256);
    }
}

/// Reading back a head yields the major type and argument that were
/// written.
pub proof fn lemma_head_rt(major: u8, arg: nat, rest: Seq<u8>)
    requires
        major < 8,
        arg < 0x1_0000_0000_0000_0000,
    ensures
        parse_head(head(major, arg) + rest) == Some((major, arg, head(major, arg).len())),
{
    let h = head(major, arg);
    let s = h + rest;
    lemma_head_len(major, arg);
    assert(pow256(1) == 256 && pow256(2) == 65536 && pow256(4) == 0x1_0000_0000
        && pow256(8) == 0x1_0000_0000_0000_0000) by {
        reveal_with_fuel(pow256, 9);
    }
    if arg < 24 {
        assert(s[0] == (major * 32 + arg) as u8);
        assert(s[0] / 32 == major && s[0] % 32 == arg);
    } else if arg < 256 {
        lemma_be_bytes_len(arg, 1);
        assert(s[0] == (major * 32 + 24) as u8);
        assert(s[0] / 32 == major && s[0] % 32 == 24);
        assert(s.subrange(1, 2) =~= be_bytes(arg, 1));
        lemma_from_be_be(arg, 1);
    } else if arg < 65536 {
        lemma_be_bytes_len(arg, 2);
        assert(s[0] == (major * 32 + 25) as u8);
        assert(s[0] / 32 == major && s[0] % 32 == 25);
        assert(s.subrange(1, 3) =~= be_bytes(arg, 2));
        lemma_from_be_be(arg, 2);
    } else if arg < 0x1_0000_0000 {
        lemma_be_bytes_len(arg, 4);
        assert(s[0] == (major * 32 + 26) as u8);
        assert(s[0] / 32 == major && s[0] % 32 == 26);
        assert(s.subrange(1, 5) =~= be_bytes(arg, 4));
        lemma_from_be_be(arg, 4);
    } else {
        lemma_be_bytes_len(arg, 8);
        assert(s[0] == (major * 32 + 27) as u8);
        assert(s[0] / 32 == major && s[0] % 32 == 27);
        assert(s.subrange(1, 9) =~= be_bytes(arg, 8));
        lemma_from_be_be(arg, 8);
    }
}

/// Parsing the encoding of a bounded value, with anything after it,
/// returns exactly that value.
#[verifier::rlimit(60)]
pub proof fn lemma_parse_enc(m: ValueModel, rest: Seq<u8>, d: nat)
    requires
        bounded(m, d),
    ensures
        parse_val(enc(m) + rest, d) == Some((m, enc(m).len())),
    decreases m,
{
    let s = enc(m) + rest;
    match m {
        ValueModel::Uint(n) => {
            lemma_head_rt(0, n as nat, rest);
        },
        ValueModel::Nint(n) => {
            lemma_head_rt(1, n as nat, rest);
        },
        ValueModel::Bytes(b) => {
            let h = head(2, b.len());
            lemma_head_len(2, b.len());
            assert(s =~= h + (b + rest));
            lemma_head_rt(2, b.len(), b + rest);
            assert(s.subrange(h.len() as int, (h.len() + b.len()) as int) =~= b);
        },
        ValueModel::Text(t) => {
            let h = head(3, t.len());
            lemma_head_len(3, t.len());
            assert(s =~= h + (t + rest));
            lemma_head_rt(3, t.len(), t + rest);
            assert(s.subrange(h.len() as int, (h.len() + t.len()) as int) =~= t);
        },
        ValueModel::Array(es) => {
            let h = head(4, es.len());
            lemma_head_len(4, es.len());
            assert(s =~= h + (enc_list(es) + rest));
            lemma_head_rt(4, es.len(), enc_list(es) + rest);
            assert(s.skip(h.len() as int) =~= enc_list(es) + rest);
            lemma_parse_enc_list(es, rest, (d - 1) as nat);
        },
        ValueModel::Dict(ps) => {
            let h = head(5, ps.len());
            lemma_head_len(5, ps.len());
            assert(s =~= h + (enc_pairs(ps) + rest));
            lemma_head_rt(5, ps.len(), enc_pairs(ps) + rest);
            assert(s.skip(h.len() as int) =~= enc_pairs(ps) + rest);
            lemma_parse_enc_pairs(ps, rest, (d - 1) as nat);
        },
        ValueModel::Bool(b) => {
            if b {
                lemma_head_rt(7, 21, rest);
            } else {
                lemma_head_rt(7, 20, rest);
            }
        },
        ValueModel::Null => {
            lemma_head_rt(7, 22, rest);
        },
    }
}

pub proof fn lemma_parse_enc_list(es: Seq<ValueModel>, rest: Seq<u8>, d: nat)
    requires
        es.len() < 0x1_0000_0000_0000_0000,
        forall|i: int| 0 <= i < es.len() ==> bounded(#[trigger] es[i], d),
    ensures
        parse_list(enc_list(es) + rest, es.len(), d) == Some((es, enc_list(es).len())),
    decreases es,
{
    if es.len() == 0 {
        assert(enc_list(es) + rest =~= rest);
        assert(es =~= Seq::<ValueModel>::empty());
    } else {
        let s = enc_list(es) + rest;
        let e0 = enc(es[0]);
        let tail = es.skip(1);
        assert(s =~= e0 + (enc_list(tail) + rest));
        lemma_parse_enc(es[0], enc_list(tail) + rest, d);
        lemma_enc_len_pos(es[0]);
        assert(s.skip(e0.len() as int) =~= enc_list(tail) + rest);
        assert(forall|i: int| 0 <= i < tail.len() ==> #[trigger] tail[i] == es[i + 1]);
        lemma_parse_enc_list(tail, rest, d);
        assert(seq![es[0]] + tail =~= es);
    }
}

pub proof fn lemma_parse_enc_pairs(ps: Seq<(ValueModel, ValueModel)>, rest: Seq<u8>, d: nat)
    requires
        ps.len() < 0x1_0000_0000_0000_0000,
        forall|i: int| 0 <= i < ps.len() ==> bounded(#[trigger] ps[i].0, d),
        forall|i: int| 0 <= i < ps.len() ==> bounded(#[trigger] ps[i].1, d),
    ensures
        parse_pairs(enc_pairs(ps) + rest, ps.len(), d) == Some((ps, enc_pairs(ps).len())),
    decreases ps,
{
    if ps.len() == 0 {
        assert(enc_pairs(ps) + rest =~= rest);
        assert(ps =~= Seq::<(ValueModel, ValueModel)>::empty());
    } else {
        let s = enc_pairs(ps) + rest;
        let k0 = enc(ps[0].0);
        let v0 = enc(ps[0].1);
        let tail = ps.skip(1);
        assert(s =~= k0 + (v0 + (enc_pairs(tail) + rest)));
        lemma_parse_enc(ps[0].0, v0 + (enc_pairs(tail) + rest), d);
        lemma_enc_len_pos(ps[0].0);
        lemma_enc_len_pos(ps[0].1);
        assert(s.skip(k0.len() as int) =~= v0 + (enc_pairs(tail) + rest));
        lemma_parse_enc(ps[0].1, enc_pairs(tail) + rest, d);
        assert(s.skip((k0.len() + v0.len()) as int) =~= enc_pairs(tail) + rest);
        assert(forall|i: int| 0 <= i < tail.len() ==> #[trigger] tail[i] == ps[i + 1]);
        lemma_parse_enc_pairs(tail, rest, d);
        assert(seq![ps[0]] + tail =~= ps);
    }
}

/// A bounded value's encoding parses back whole.
pub proof fn lemma_parse_full_enc(m: ValueModel)
    requires
        bounded(m, crate::model::MAX_DEPTH as nat),
    ensures
        parse_full(enc(m)) == Some(m),
{
    lemma_parse_enc(m, Seq::empty(), crate::model::MAX_DEPTH as nat);
    assert(enc(m) + Seq::<u8>::empty() =~= enc(m));
}

} // verus!
