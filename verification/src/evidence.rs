//! Decoding of attestation evidence.
//!
//! The wire form of evidence is one self-describing value: an array of
//! layers, root first. Each layer is a six-element array of issuer key,
//! subject key, non-empty measurement digest list, signature, and two
//! optional validity bounds, each an array of zero or one integers.
//! Decoding checks structure only; no cryptography happens here.

use vstd::prelude::*;
use crate::model::{Value, ValueModel, view_val, view_list, lemma_view_list_index};
use crate::parse::{parse_full, parse_all};
use crate::bytes::copy_bytes;

verus! {

/// One layer of the certificate chain.
#[derive(Debug)]
pub struct EvidenceLayer {
    pub issuer_key: Vec<u8>,
    pub subject_key: Vec<u8>,
    pub measurements: Vec<Vec<u8>>,
    pub signature: Vec<u8>,
    pub not_before: Option<u64>,
    pub not_after: Option<u64>,
}

/// An ordered certificate chain, root first.
#[derive(Debug)]
pub struct Evidence {
    pub layers: Vec<EvidenceLayer>,
}

/// Why evidence bytes were rejected.
#[derive(Clone, Copy, Debug, PartialEq, Eq, Structural)]
pub enum DecodeError {
    /// The bytes are not one well-formed array value.
    Malformed,
    /// The chain holds no layers.
    EmptyChain,
    /// The layer at this position lacks the required shape.
    MalformedLayer { index: usize },
}

/// An optional bound on the wire: an array of zero or one integers.
pub open spec fn bound_of_value(m: ValueModel) -> Option<Option<u64>> {
    match m {
        ValueModel::Array(es) => if es.len() == 0 {
            Some(None)
        } else if es.len() == 1 && es[0] is Uint {
            Some(Some(es[0]->Uint_0))
        } else {
            None
        },
        _ => None,
    }
}

/// Whether a value has the shape of a layer.
pub open spec fn layer_shape(m: ValueModel) -> bool {
    &&& m is Array
    &&& m->Array_0.len() == 6
    &&& m->Array_0[0] is Bytes
    &&& m->Array_0[1] is Bytes
    &&& m->Array_0[2] is Array
    &&& m->Array_0[2]->Array_0.len() >= 1
    &&& forall|i: int| 0 <= i < m->Array_0[2]->Array_0.len() ==> m->Array_0[2]->Array_0[i]
        is Bytes
    &&& m->Array_0[3] is Bytes
    &&& bound_of_value(m->Array_0[4]) is Some
    &&& bound_of_value(m->Array_0[5]) is Some
}

/// Whether `l` carries exactly the content of the layer value `m`.
pub open spec fn layer_matches(l: EvidenceLayer, m: ValueModel) -> bool {
    &&& layer_shape(m)
    &&& l.issuer_key@ == m->Array_0[0]->Bytes_0
    &&& l.subject_key@ == m->Array_0[1]->Bytes_0
    &&& l.measurements@.len() == m->Array_0[2]->Array_0.len()
    &&& forall|i: int| 0 <= i < l.measurements@.len() ==> (#[trigger] l.measurements@[i])@
        == m->Array_0[2]->Array_0[i]->Bytes_0
    &&& l.signature@ == m->Array_0[3]->Bytes_0
    &&& Some(l.not_before) == bound_of_value(m->Array_0[4])
    &&& Some(l.not_after) == bound_of_value(m->Array_0[5])
}

/// Reads an optional bound from its wire value.
fn bound_from_value(v: &Value) -> (r: Option<Option<u64>>)
    ensures
        r == bound_of_value(v@),
{
    match v {
        Value::Array(es) => {
            proof {
                lemma_view_list_index(es@);
            }
            if es.len() == 0 {
                Some(None)
            } else if es.len() == 1 {
                match &es[0] {
                    Value::Uint(n) => {
                        assert(v@->Array_0[0] == view_val(es@[0]));
                        Some(Some(*n))
                    },
                    _ => None,
                }
            } else {
                None
            }
        },
        _ => None,
    }
}

/// Reads one layer from its wire value.
fn layer_from_value(v: &Value) -> (r: Option<EvidenceLayer>)
    ensures
        match r {
            Some(l) => layer_matches(l, v@),
            None => !layer_shape(v@),
        },
{
    let fields = match v {
        Value::Array(fields) => fields,
        _ => {
            return None;
        },
    };
    proof {
        lemma_view_list_index(fields@);
    }
    if fields.len() != 6 {
        return None;
    }
    let issuer_key = match &fields[0] {
        Value::Bytes(b) => copy_bytes(b),
        _ => {
            return None;
        },
    };
    let subject_key = match &fields[1] {
        Value::Bytes(b) => copy_bytes(b),
        _ => {
            return None;
        },
    };
    let ghost mv = v@->Array_0[2];
    let measurements = match &fields[2] {
        Value::Array(ms) => {
            proof {
                lemma_view_list_index(ms@);
                assert(mv == view_val(fields@[2]));
            }
            if ms.len() == 0 {
                return None;
            }
            let mut out: Vec<Vec<u8>> = Vec::new();
            let mut i: usize = 0;
            while i < ms.len()
                invariant
                    i <= ms@.len(),
                    mv == v@->Array_0[2],
                    mv == ValueModel::Array(view_list(ms@)),
                    view_list(ms@).len() == ms@.len(),
                    forall|k: int| 0 <= k < ms@.len() ==> view_list(ms@)[k]
                        == view_val(#[trigger] ms@[k]),
                    out@.len() == i,
                    forall|k: int| 0 <= k < i ==> mv->Array_0[k] is Bytes,
                    forall|k: int| 0 <= k < i ==> (#[trigger] out@[k])@
                        == mv->Array_0[k]->Bytes_0,
                decreases ms@.len() - i,
            {
                match &ms[i] {
                    Value::Bytes(b) => {
                        out.push(copy_bytes(b));
                    },
                    _ => {
                        assert(!(mv->Array_0[i as int] is Bytes));
                        return None;
                    },
                }
                i = i + 1;
            }
            out
        },
        _ => {
            return None;
        },
    };
    let signature = match &fields[3] {
        Value::Bytes(b) => copy_bytes(b),
        _ => {
            return None;
        },
    };
    let not_before = match bound_from_value(&fields[4]) {
        Some(b) => b,
        None => {
            return None;
        },
    };
    let not_after = match bound_from_value(&fields[5]) {
        Some(b) => b,
        None => {
            return None;
        },
    };
    Some(EvidenceLayer { issuer_key, subject_key, measurements, signature, not_before, not_after })
}

/// Decodes wire bytes into an evidence chain, checking structure only.
pub fn decode(raw: &[u8]) -> (r: Result<Evidence, DecodeError>)
    ensures
        match r {
            Ok(ev) => {
                &&& parse_full(raw@) is Some
                &&& parse_full(raw@)->0 is Array
                &&& ev.layers@.len() == parse_full(raw@)->0->Array_0.len()
                &&& ev.layers@.len() >= 1
                &&& forall|i: int| 0 <= i < ev.layers@.len() ==> layer_matches(
                    #[trigger] ev.layers@[i],
                    parse_full(raw@)->0->Array_0[i],
                )
            },
            Err(DecodeError::Malformed) => parse_full(raw@) is None || !(parse_full(raw@)->0
                is Array),
            Err(DecodeError::EmptyChain) => parse_full(raw@) is Some && parse_full(raw@)->0
                is Array && parse_full(raw@)->0->Array_0.len() == 0,
            Err(DecodeError::MalformedLayer { index }) => {
                &&& parse_full(raw@) is Some
                &&& parse_full(raw@)->0 is Array
                &&& index < parse_full(raw@)->0->Array_0.len()
                &&& !layer_shape(parse_full(raw@)->0->Array_0[index as int])
                &&& forall|l: int| 0 <= l < index ==> layer_shape(
                    parse_full(raw@)->0->Array_0[l],
                )
            },
        },
{
    let top = match parse_all(raw) {
        None => {
            return Err(DecodeError::Malformed);
        },
        Some(v) => v,
    };
    let elems = match &top {
        Value::Array(es) => es,
        _ => {
            return Err(DecodeError::Malformed);
        },
    };
    proof {
        lemma_view_list_index(elems@);
    }
    if elems.len() == 0 {
        return Err(DecodeError::EmptyChain);
    }
    let mut layers: Vec<EvidenceLayer> = Vec::new();
    let mut i: usize = 0;
    while i < elems.len()
        invariant
            i <= elems@.len(),
            parse_full(raw@) == Some(top@),
            top@ is Array,
            top@->Array_0 == view_list(elems@),
            view_list(elems@).len() == elems@.len(),
            forall|k: int| 0 <= k < elems@.len() ==> view_list(elems@)[k]
                == view_val(#[trigger] elems@[k]),
            layers@.len() == i,
            forall|k: int| 0 <= k < i ==> layer_matches(
                #[trigger] layers@[k],
                top@->Array_0[k],
            ),
        decreases elems@.len() - i,
    {
        match layer_from_value(&elems[i]) {
            Some(l) => {
                layers.push(l);
            },
            None => {
                assert(!layer_shape(top@->Array_0[i as int]));
                assert forall|l: int| 0 <= l < i implies layer_shape(top@->Array_0[l]) by {
                    assert(layer_matches(layers@[l], top@->Array_0[l]));
                }
                return Err(DecodeError::MalformedLayer { index: i });
            },
        }
        i = i + 1;
    }
    Ok(Evidence { layers })
}

} // verus!
