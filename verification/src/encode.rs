//! Deterministic serialization of values.
//!
//! `enc` is the single byte form every specification refers to: integer
//! arguments in minimal length, definite-length containers only, map
//! entries in stored order. An encoded byte string is canonical exactly
//! when the value it denotes is `canonical`.

use vstd::prelude::*;
use crate::model::{Value, ValueModel, view_val, view_list, view_pairs, lemma_view_list_index, lemma_view_pairs_index};

verus! {

/// `256^k`.
pub open spec fn pow256(k: nat) -> nat
    decreases k,
{
    if k == 0 {
        1
    } else {
        256 * pow256((k - 1) as nat)
    }
}

pub proof fn lemma_pow256_mono(a: nat, b: nat)
    requires
        a <= b,
    ensures
        pow256(a) <= pow256(b),
    decreases b,
{
    if a < b {
        lemma_pow256_mono(a, (b - 1) as nat);
    }
}

/// Big-endian bytes of `n`, `len` bytes wide.
pub open spec fn be_bytes(n: nat, len: nat) -> Seq<u8>
    decreases len,
{
    if len == 0 {
        Seq::empty()
    } else {
        be_bytes(n / 256, (len - 1) as nat).push((n % 256) as u8)
    }
}

pub proof fn lemma_be_bytes_len(n: nat, len: nat)
    ensures
        be_bytes(n, len).len() == len,
    decreases len,
{
    if len > 0 {
        lemma_be_bytes_len(n / 256, (len - 1) as nat);
    }
}

/// The initial bytes of an item: major type and argument, argument in
/// minimal-length form.
pub open spec fn head(major: u8, arg: nat) -> Seq<u8> {
    if arg < 24 {
        seq![(major * 32 + arg) as u8]
    } else if arg < 256 {
        seq![(major * 32 + 24) as u8] + be_bytes(arg, 1)
    } else if arg < 65536 {
        seq![(major * 32 + 25) as u8] + be_bytes(arg, 2)
    } else if arg < 0x1_0000_0000 {
        seq![(major * 32 + 26) as u8] + be_bytes(arg, 4)
    } else {
        seq![(major * 32 + 27) as u8] + be_bytes(arg, 8)
    }
}

pub proof fn lemma_head_len(major: u8, arg: nat)
    ensures
        1 <= head(major, arg).len() <= 9,
        head(major, arg).len() >= 1,
{
    if arg < 24 {
    } else if arg < 256 {
        lemma_be_bytes_len(arg, 1);
    } else if arg < 65536 {
        lemma_be_bytes_len(arg, 2);
    } else if arg < 0x1_0000_0000 {
        lemma_be_bytes_len(arg, 4);
    } else {
        lemma_be_bytes_len(arg, 8);
    }
}

/// The deterministic encoding of a value.
pub open spec fn enc(m: ValueModel) -> Seq<u8>
    decreases m,
{
    match m {
        ValueModel::Uint(n) => head(0, n as nat),
        ValueModel::Nint(n) => head(1, n as nat),
        ValueModel::Bytes(b) => head(2, b.len()) + b,
        ValueModel::Text(t) => head(3, t.len()) + t,
        ValueModel::Array(es) => head(4, es.len()) + enc_list(es),
        ValueModel::Dict(ps) => head(5, ps.len()) + enc_pairs(ps),
        ValueModel::Bool(b) => if b {
            head(7, 21)
        } else {
            head(7, 20)
        },
        ValueModel::Null => head(7, 22),
    }
}

pub open spec fn enc_list(es: Seq<ValueModel>) -> Seq<u8>
    decreases es,
{
    if es.len() == 0 {
        Seq::empty()
    } else {
        enc(es[0]) + enc_list(es.skip(1))
    }
}

pub open spec fn enc_pairs(ps: Seq<(ValueModel, ValueModel)>) -> Seq<u8>
    decreases ps,
{
    if ps.len() == 0 {
        Seq::empty()
    } else {
        enc(ps[0].0) + enc(ps[0].1) + enc_pairs(ps.skip(1))
    }
}

pub proof fn lemma_enc_len_pos(m: ValueModel)
    ensures
        enc(m).len() >= 1,
{
    match m {
        ValueModel::Uint(n) => lemma_head_len(0, n as nat),
        ValueModel::Nint(n) => lemma_head_len(1, n as nat),
        ValueModel::Bytes(b) => lemma_head_len(2, b.len()),
        ValueModel::Text(t) => lemma_head_len(3, t.len()),
        ValueModel::Array(es) => lemma_head_len(4, es.len()),
        ValueModel::Dict(ps) => lemma_head_len(5, ps.len()),
        ValueModel::Bool(b) => if b {
            lemma_head_len(7, 21)
        } else {
            lemma_head_len(7, 20)
        },
        ValueModel::Null => lemma_head_len(7, 22),
    }
}

pub proof fn lemma_enc_list_append(a: Seq<ValueModel>, b: Seq<ValueModel>)
    ensures
        enc_list(a + b) == enc_list(a) + enc_list(b),
    decreases a,
{
    if a.len() == 0 {
        assert(a + b =~= b);
        assert(enc_list(a) + enc_list(b) =~= enc_list(b));
    } else {
        assert((a + b).skip(1) =~= a.skip(1) + b);
        lemma_enc_list_append(a.skip(1), b);
        assert((a + b)[0] == a[0]);
        assert(enc(a[0]) + (enc_list(a.skip(1)) + enc_list(b))
            =~= (enc(a[0]) + enc_list(a.skip(1))) + enc_list(b));
    }
}

pub proof fn lemma_enc_pairs_append(a: Seq<(ValueModel, ValueModel)>, b: Seq<(ValueModel, ValueModel)>)
    ensures
        enc_pairs(a + b) == enc_pairs(a) + enc_pairs(b),
    decreases a,
{
    if a.len() == 0 {
        assert(a + b =~= b);
        assert(enc_pairs(a) + enc_pairs(b) =~= enc_pairs(b));
    } else {
        assert((a + b).skip(1) =~= a.skip(1) + b);
        lemma_enc_pairs_append(a.skip(1), b);
        assert((a + b)[0] == a[0]);
        assert(enc(a[0].0) + enc(a[0].1) + (enc_pairs(a.skip(1)) + enc_pairs(b))
            =~= (enc(a[0].0) + enc(a[0].1) + enc_pairs(a.skip(1))) + enc_pairs(b));
    }
}

/// Appends the head for `major` and `arg` to `out`.
fn push_head(out: &mut Vec<u8>, major: u8, arg: u64)
    requires
        major < 8,
    ensures
        final(out)@ == old(out)@ + head(major, arg as nat),
{
    let tag: u8 = major * 32;
    if arg < 24 {
        out.push(tag + arg as u8);
        assert(out@ =~= old(out)@ + head(major, arg as nat));
    } else if arg < 256 {
        out.push(tag + 24);
        out.push(#[verifier::truncate] (arg as u8));
        assert(out@ =~= old(out)@ + head(major, arg as nat)) by {
            assert(be_bytes(arg as nat, 1) =~= seq![(arg as nat % 256) as u8]) by {
                reveal_with_fuel(be_bytes, 2);
            }
        }
    } else if arg < 65536 {
        out.push(tag + 25);
        out.push(#[verifier::truncate] ((arg / 256) as u8));
        out.push(#[verifier::truncate] (arg as u8));
        assert(out@ =~= old(out)@ + head(major, arg as nat)) by {
            assert(be_bytes(arg as nat, 2) =~= seq![
                (arg as nat / 256 % 256) as u8,
                (arg as nat % 256) as u8,
            ]) by {
                reveal_with_fuel(be_bytes, 3);
            }
            assert(arg as nat / 256 % 256 == arg as nat / 256);
            assert((arg as u8) as nat == arg as nat % 256) by (bit_vector);
        }
    } else if arg < 0x1_0000_0000 {
        out.push(tag + 26);
        out.push(#[verifier::truncate] ((arg / 16777216) as u8));
        out.push(#[verifier::truncate] ((arg / 65536) as u8));
        out.push(#[verifier::truncate] ((arg / 256) as u8));
        out.push(#[verifier::truncate] (arg as u8));
        assert(out@ =~= old(out)@ + head(major, arg as nat)) by {
            assert(be_bytes(arg as nat, 4) =~= seq![
                (arg as nat / 16777216 % 256) as u8,
                (arg as nat / 65536 % 256) as u8,
                (arg as nat / 256 % 256) as u8,
                (arg as nat % 256) as u8,
            ]) by {
                reveal_with_fuel(be_bytes, 5);
                assert(arg as nat / 256 / 256 == arg as nat / 65536);
                assert(arg as nat / 65536 / 256 == arg as nat / 16777216);
            }
            assert(arg as nat / 16777216 % 256 == arg as nat / 16777216);
            assert((arg as u8) as nat == arg as nat % 256) by (bit_vector);
            assert(((arg / 256) as u8) as nat == (arg / 256) as nat % 256) by (bit_vector);
            assert(((arg / 65536) as u8) as nat == (arg / 65536) as nat % 256) by (bit_vector);
        }
    } else {
        out.push(tag + 27);
        out.push(#[verifier::truncate] ((arg / 72057594037927936) as u8));
        out.push(#[verifier::truncate] ((arg / 281474976710656) as u8));
        out.push(#[verifier::truncate] ((arg / 1099511627776) as u8));
        out.push(#[verifier::truncate] ((arg / 4294967296) as u8));
        out.push(#[verifier::truncate] ((arg / 16777216) as u8));
        out.push(#[verifier::truncate] ((arg / 65536) as u8));
        out.push(#[verifier::truncate] ((arg / 256) as u8));
        out.push(#[verifier::truncate] (arg as u8));
        assert(out@ =~= old(out)@ + head(major, arg as nat)) by {
            assert(be_bytes(arg as nat, 8) =~= seq![
                (arg as nat / 72057594037927936 % 256) as u8,
                (arg as nat / 281474976710656 % 256) as u8,
                (arg as nat / 1099511627776 % 256) as u8,
                (arg as nat / 4294967296 % 256) as u8,
                (arg as nat / 16777216 % 256) as u8,
                (arg as nat / 65536 % 256) as u8,
                (arg as nat / 256 % 256) as u8,
                (arg as nat % 256) as u8,
            ]) by {
                reveal_with_fuel(be_bytes, 9);
                assert(arg as nat / 256 / 256 == arg as nat / 65536);
                assert(arg as nat / 65536 / 256 == arg as nat / 16777216);
                assert(arg as nat / 16777216 / 256 == arg as nat / 4294967296);
                assert(arg as nat / 4294967296 / 256 == arg as nat / 1099511627776);
                assert(arg as nat / 1099511627776 / 256 == arg as nat / 281474976710656);
                assert(arg as nat / 281474976710656 / 256 == arg as nat / 72057594037927936);
            }
            assert(arg as nat / 72057594037927936 % 256 == arg as nat / 72057594037927936);
            assert((arg as u8) as nat == arg as nat % 256) by (bit_vector);
            assert(((arg / 256) as u8) as nat == (arg / 256) as nat % 256) by (bit_vector);
            assert(((arg / 65536) as u8) as nat == (arg / 65536) as nat % 256) by (bit_vector);
            assert(((arg / 16777216) as u8) as nat == (arg / 16777216) as nat % 256)
                by (bit_vector);
            assert(((arg / 4294967296) as u8) as nat == (arg / 4294967296) as nat % 256)
                by (bit_vector);
            assert(((arg / 1099511627776) as u8) as nat == (arg / 1099511627776) as nat % 256)
                by (bit_vector);
            assert(((arg / 281474976710656) as u8) as nat
                == (arg / 281474976710656) as nat % 256) by (bit_vector);
        }
    }
}

/// Appends the encoding of `v` to `out`.
pub fn encode_into(v: &Value, out: &mut Vec<u8>)
    ensures
        final(out)@ == old(out)@ + enc(v@),
    decreases *v,
{
    match v {
        Value::Uint(n) => {
            push_head(out, 0, *n);
        },
        Value::Nint(n) => {
            push_head(out, 1, *n);
        },
        Value::Bool(b) => {
            if *b {
                push_head(out, 7, 21);
            } else {
                push_head(out, 7, 20);
            }
        },
        Value::Null => {
            push_head(out, 7, 22);
        },
        Value::Bytes(b) => {
            push_head(out, 2, b.len() as u64);
            let mut i: usize = 0;
            while i < b.len()
                invariant
                    i <= b.len(),
                    out@ == old(out)@ + head(2, b@.len()) + b@.take(i as int),
                decreases b.len() - i,
            {
                out.push(b[i]);
                assert(b@.take(i + 1) =~= b@.take(i as int).push(b@[i as int]));
                i = i + 1;
            }
            assert(b@.take(b@.len() as int) =~= b@);
            assert(out@ =~= old(out)@ + enc(v@));
        },
        Value::Text(t) => {
            push_head(out, 3, t.len() as u64);
            let mut i: usize = 0;
            while i < t.len()
                invariant
                    i <= t.len(),
                    out@ == old(out)@ + head(3, t@.len()) + t@.take(i as int),
                decreases t.len() - i,
            {
                out.push(t[i]);
                assert(t@.take(i + 1) =~= t@.take(i as int).push(t@[i as int]));
                i = i + 1;
            }
            assert(t@.take(t@.len() as int) =~= t@);
            assert(out@ =~= old(out)@ + enc(v@));
        },
        Value::Array(es) => {
            push_head(out, 4, es.len() as u64);
            let ghost ms = v@->Array_0;
            proof {
                lemma_view_list_index(es@);
            }
            assert(ms.len() == es@.len());
            let mut i: usize = 0;
            while i < es.len()
                invariant
                    i <= es.len(),
                    *v == Value::Array(*es),
                    ms == view_list(es@),
                    ms.len() == es@.len(),
                    forall|k: int| 0 <= k < es@.len() ==> ms[k] == view_val(#[trigger] es@[k]),
                    out@ == old(out)@ + head(4, es@.len()) + enc_list(ms.take(i as int)),
                decreases es.len() - i,
            {
                proof {
                    assert(decreases_to!(*v => v->Array_0));
                    vstd::std_specs::vec::axiom_vec_index_decreases(*es, i as int);
                    assert(decreases_to!(*v => es@[i as int]));
                }
                encode_into(&es[i], out);
                proof {
                    assert(ms.take(i + 1) =~= ms.take(i as int) + seq![ms[i as int]]);
                    lemma_enc_list_append(ms.take(i as int), seq![ms[i as int]]);
                    assert(enc_list(seq![ms[i as int]]) =~= enc(ms[i as int]) + enc_list(
                        Seq::<ValueModel>::empty(),
                    )) by {
                        assert(seq![ms[i as int]].skip(1) =~= Seq::<ValueModel>::empty());
                    }
                    assert(ms[i as int] == es@[i as int]@);
                    assert(out@ =~= old(out)@ + head(4, es@.len()) + enc_list(ms.take(i + 1)));
                }
                i = i + 1;
            }
            assert(ms.take(ms.len() as int) =~= ms);
            assert(out@ =~= old(out)@ + enc(v@));
        },
        Value::Dict(ps) => {
            push_head(out, 5, ps.len() as u64);
            let ghost ms = v@->Dict_0;
            proof {
                lemma_view_pairs_index(ps@);
            }
            assert(ms.len() == ps@.len());
            let mut i: usize = 0;
            while i < ps.len()
                invariant
                    i <= ps.len(),
                    *v == Value::Dict(*ps),
                    ms == view_pairs(ps@),
                    ms.len() == ps@.len(),
                    forall|k: int| 0 <= k < ps@.len() ==> ms[k]
                        == (view_val(#[trigger] ps@[k].0), view_val(ps@[k].1)),
                    out@ == old(out)@ + head(5, ps@.len()) + enc_pairs(ms.take(i as int)),
                decreases ps.len() - i,
            {
                proof {
                    assert(decreases_to!(*v => v->Dict_0));
                    vstd::std_specs::vec::axiom_vec_index_decreases(*ps, i as int);
                    assert(decreases_to!(ps@[i as int] => ps@[i as int].0));
                    assert(decreases_to!(ps@[i as int] => ps@[i as int].1));
                    assert(decreases_to!(*v => ps@[i as int].0));
                    assert(decreases_to!(*v => ps@[i as int].1));
                }
                encode_into(&ps[i].0, out);
                encode_into(&ps[i].1, out);
                proof {
                    assert(ms.take(i + 1) =~= ms.take(i as int) + seq![ms[i as int]]);
                    lemma_enc_pairs_append(ms.take(i as int), seq![ms[i as int]]);
                    assert(enc_pairs(seq![ms[i as int]]) =~= enc(ms[i as int].0) + enc(
                        ms[i as int].1,
                    ) + enc_pairs(Seq::<(ValueModel, ValueModel)>::empty())) by {
                        assert(seq![ms[i as int]].skip(1)
                            =~= Seq::<(ValueModel, ValueModel)>::empty());
                    }
                    assert(ms[i as int].0 == ps@[i as int].0@);
                    assert(ms[i as int].1 == ps@[i as int].1@);
                    assert(out@ =~= old(out)@ + head(5, ps@.len()) + enc_pairs(ms.take(i + 1)));
                }
                i = i + 1;
            }
            assert(ms.take(ms.len() as int) =~= ms);
            assert(out@ =~= old(out)@ + enc(v@));
        },
    }
}

/// The encoding of `v`, as a fresh byte vector.
pub fn encode(v: &Value) -> (out: Vec<u8>)
    ensures
        out@ == enc(v@),
{
    let mut out: Vec<u8> = Vec::new();
    encode_into(v, &mut out);
    assert(out@ =~= enc(v@));
    out
}

} // verus!

