//! The structured-value model.
//!
//! `Value` is the executable form of a self-describing binary value
//! (unsigned and negative integers, byte strings, text strings, arrays,
//! maps, booleans and null). `ValueModel` is its mathematical shadow,
//! built from `Seq` instead of `Vec`, which all specifications speak
//! about.
//!
//! The grammar is a deliberate profile of the wire contract: tags,
//! floating-point values and simple values other than `false`, `true`
//! and `null` are outside it, and the decoder rejects them.

use vstd::prelude::*;
use crate::bytes::lex_lt;
use crate::encode::enc;

verus! {

/// A decoded self-describing value.
///
/// Text strings carry their payload as raw bytes; the canonical form never
/// alters string contents, so their character-level encoding is the
/// producer's concern.
#[derive(Debug)]
pub enum Value {
    /// An unsigned integer.
    Uint(u64),
    /// The negative integer `-1 - n`, where `n` is the carried value.
    Nint(u64),
    /// A byte string.
    Bytes(Vec<u8>),
    /// A text string, carried as its raw bytes.
    Text(Vec<u8>),
    /// An array of values.
    Array(Vec<Value>),
    /// A map of key/value pairs, in the order they appeared.
    Dict(Vec<(Value, Value)>),
    /// A boolean.
    Bool(bool),
    /// The null value.
    Null,
}

/// The mathematical form of a `Value`.
pub enum ValueModel {
    Uint(u64),
    Nint(u64),
    Bytes(Seq<u8>),
    Text(Seq<u8>),
    Array(Seq<ValueModel>),
    Dict(Seq<(ValueModel, ValueModel)>),
    Bool(bool),
    Null,
}

/// The model of an executable value.
pub open spec fn view_val(v: Value) -> ValueModel
    decreases v,
{
    match v {
        Value::Uint(n) => ValueModel::Uint(n),
        Value::Nint(n) => ValueModel::Nint(n),
        Value::Bytes(b) => ValueModel::Bytes(b@),
        Value::Text(t) => ValueModel::Text(t@),
        Value::Array(es) => ValueModel::Array(view_list(es@)),
        Value::Dict(ps) => ValueModel::Dict(view_pairs(ps@)),
        Value::Bool(b) => ValueModel::Bool(b),
        Value::Null => ValueModel::Null,
    }
}

pub open spec fn view_list(es: Seq<Value>) -> Seq<ValueModel>
    decreases es,
{
    if es.len() == 0 {
        Seq::empty()
    } else {
        seq![view_val(es[0])] + view_list(es.skip(1))
    }
}

pub open spec fn view_pairs(ps: Seq<(Value, Value)>) -> Seq<(ValueModel, ValueModel)>
    decreases ps,
{
    if ps.len() == 0 {
        Seq::empty()
    } else {
        seq![(view_val(ps[0].0), view_val(ps[0].1))] + view_pairs(ps.skip(1))
    }
}

pub proof fn lemma_view_list_index(es: Seq<Value>)
    ensures
        view_list(es).len() == es.len(),
        forall|i: int| 0 <= i < es.len() ==> view_list(es)[i] == view_val(#[trigger] es[i]),
    decreases es,
{
    if es.len() > 0 {
        lemma_view_list_index(es.skip(1));
        assert forall|i: int| 0 <= i < es.len() implies
            view_list(es)[i] == view_val(es[i]) by {
            if i > 0 {
                assert(view_list(es)[i] == view_list(es.skip(1))[i - 1]);
                assert(es.skip(1)[i - 1] == es[i]);
            }
        }
    }
}

pub proof fn lemma_view_list_push(es: Seq<Value>, v: Value)
    ensures
        view_list(es.push(v)) == view_list(es).push(view_val(v)),
{
    lemma_view_list_index(es.push(v));
    lemma_view_list_index(es);
    assert forall|i: int| 0 <= i < es.push(v).len() implies view_list(es.push(v))[i]
        == view_list(es).push(view_val(v))[i] by {
        if i < es.len() {
            assert(es.push(v)[i] == es[i]);
        } else {
            assert(es.push(v)[i] == v);
        }
    }
    assert(view_list(es.push(v)) =~= view_list(es).push(view_val(v)));
}

pub proof fn lemma_view_pairs_push(ps: Seq<(Value, Value)>, k: Value, v: Value)
    ensures
        view_pairs(ps.push((k, v))) == view_pairs(ps).push((view_val(k), view_val(v))),
{
    lemma_view_pairs_index(ps.push((k, v)));
    lemma_view_pairs_index(ps);
    assert forall|i: int| 0 <= i < ps.push((k, v)).len() implies view_pairs(ps.push((k, v)))[i]
        == view_pairs(ps).push((view_val(k), view_val(v)))[i] by {
        if i < ps.len() {
            assert(ps.push((k, v))[i] == ps[i]);
            assert(ps.push((k, v))[i].0 == ps[i].0);
            assert(view_pairs(ps.push((k, v)))[i] == (view_val(ps.push((k, v))[i].0),
                view_val(ps.push((k, v))[i].1)));
            assert(view_pairs(ps)[i] == (view_val(ps[i].0), view_val(ps[i].1)));
        } else {
            assert(ps.push((k, v))[i] == (k, v));
            assert(ps.push((k, v))[i].0 == k);
            assert(view_pairs(ps.push((k, v)))[i] == (view_val(ps.push((k, v))[i].0),
                view_val(ps.push((k, v))[i].1)));
        }
    }
    assert(view_pairs(ps.push((k, v))) =~= view_pairs(ps).push((view_val(k), view_val(v))));
}

pub proof fn lemma_view_pairs_index(ps: Seq<(Value, Value)>)
    ensures
        view_pairs(ps).len() == ps.len(),
        forall|i: int| 0 <= i < ps.len() ==> view_pairs(ps)[i]
            == (view_val(#[trigger] ps[i].0), view_val(ps[i].1)),
    decreases ps,
{
    if ps.len() > 0 {
        lemma_view_pairs_index(ps.skip(1));
        assert forall|i: int| 0 <= i < ps.len() implies
            view_pairs(ps)[i] == (view_val(ps[i].0), view_val(ps[i].1)) by {
            if i > 0 {
                assert(view_pairs(ps)[i] == view_pairs(ps.skip(1))[i - 1]);
                assert(ps.skip(1)[i - 1] == ps[i]);
            }
        }
    }
}

pub proof fn lemma_view_pairs_insert(ps: Seq<(Value, Value)>, j: int, k: Value, v: Value)
    requires
        0 <= j <= ps.len(),
    ensures
        view_pairs(ps.insert(j, (k, v))) == view_pairs(ps).insert(j, (view_val(k), view_val(v))),
{
    let left = ps.insert(j, (k, v));
    let right = view_pairs(ps).insert(j, (view_val(k), view_val(v)));
    lemma_view_pairs_index(left);
    lemma_view_pairs_index(ps);
    ps.insert_ensures(j, (k, v));
    view_pairs(ps).insert_ensures(j, (view_val(k), view_val(v)));
    assert forall|i: int| 0 <= i < left.len() implies view_pairs(left)[i] == right[i] by {
        if i < j {
            assert(left[i] == ps[i]);
            assert(left[i].0 == ps[i].0);
            assert(view_pairs(left)[i] == (view_val(left[i].0), view_val(left[i].1)));
            assert(view_pairs(ps)[i] == (view_val(ps[i].0), view_val(ps[i].1)));
        } else if i == j {
            assert(left[i] == (k, v));
            assert(left[i].0 == k);
            assert(view_pairs(left)[i] == (view_val(left[i].0), view_val(left[i].1)));
        } else {
            assert(left[i] == ps[i - 1]);
            assert(left[i].0 == ps[i - 1].0);
            assert(view_pairs(left)[i] == (view_val(left[i].0), view_val(left[i].1)));
            assert(view_pairs(ps)[i - 1] == (view_val(ps[i - 1].0), view_val(ps[i - 1].1)));
        }
    }
    assert(view_pairs(left) =~= right);
}

impl View for Value {
    type V = ValueModel;

    open spec fn view(&self) -> ValueModel {
        view_val(*self)
    }
}

/// Structural bounds: nesting at most `d` containers deep, and every string
/// length and container count representable in an unsigned 64-bit argument.
pub open spec fn bounded(m: ValueModel, d: nat) -> bool
    decreases m, d,
{
    d >= 1 && match m {
        ValueModel::Uint(_) => true,
        ValueModel::Nint(_) => true,
        ValueModel::Bytes(b) => b.len() < 0x1_0000_0000_0000_0000,
        ValueModel::Text(t) => t.len() < 0x1_0000_0000_0000_0000,
        ValueModel::Array(es) => {
            &&& es.len() < 0x1_0000_0000_0000_0000
            &&& forall|i: int| 0 <= i < es.len() ==> bounded(#[trigger] es[i], (d - 1) as nat)
        },
        ValueModel::Dict(ps) => {
            &&& ps.len() < 0x1_0000_0000_0000_0000
            &&& forall|i: int| 0 <= i < ps.len() ==> bounded(#[trigger] ps[i].0, (d - 1) as nat)
            &&& forall|i: int| 0 <= i < ps.len() ==> bounded(#[trigger] ps[i].1, (d - 1) as nat)
        },
        ValueModel::Bool(_) => true,
        ValueModel::Null => true,
    }
}

/// Map keys strictly increase in the lexicographic order of their
/// encodings.
pub open spec fn sorted_keys(ps: Seq<(ValueModel, ValueModel)>) -> bool {
    forall|i: int, j: int| 0 <= i < j < ps.len() ==>
        lex_lt(enc(#[trigger] ps[i].0), enc(#[trigger] ps[j].0))
}

/// A value already in canonical form: every map is strictly sorted by
/// encoded key, recursively.
pub open spec fn canonical(m: ValueModel) -> bool
    decreases m,
{
    match m {
        ValueModel::Uint(_) => true,
        ValueModel::Nint(_) => true,
        ValueModel::Bytes(_) => true,
        ValueModel::Text(_) => true,
        ValueModel::Array(es) => forall|i: int| 0 <= i < es.len() ==> canonical(#[trigger] es[i]),
        ValueModel::Dict(ps) => {
            &&& sorted_keys(ps)
            &&& forall|i: int| 0 <= i < ps.len() ==> canonical(#[trigger] ps[i].0)
            &&& forall|i: int| 0 <= i < ps.len() ==> canonical(#[trigger] ps[i].1)
        },
        ValueModel::Bool(_) => true,
        ValueModel::Null => true,
    }
}

/// Nesting-depth ceiling enforced while decoding, so that adversarial
/// input cannot drive the decoder into unbounded recursion.
pub const MAX_DEPTH: u8 = 64;

} // verus!
