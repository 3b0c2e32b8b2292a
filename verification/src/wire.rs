//! Byte-level decoders for the remaining wire messages.
//!
//! Evidence aside, the caller may also hold endorsement statements, log
//! entries and checkpoints as raw bytes. Each is one self-describing
//! array value; these decoders check structure only, so the byte forms
//! compose with `validate` and `verify_inclusion` exactly as the
//! structured forms do.

use vstd::prelude::*;
use crate::model::{Value, ValueModel, view_val, view_list, lemma_view_list_index};
use crate::parse::{parse_full, parse_all};
use crate::bytes::copy_bytes;
use crate::canon::InvalidEncoding;
use crate::endorsement::EndorsementStatement;
use crate::translog::{LogEntry, LogCheckpoint};

verus! {

/// Whether a value has the shape of an endorsement statement: issuer,
/// subject digest, claim type, window bounds, signature.
pub open spec fn statement_shape(m: ValueModel) -> bool {
    &&& m is Array
    &&& m->Array_0.len() == 6
    &&& m->Array_0[0] is Bytes
    &&& m->Array_0[1] is Bytes
    &&& m->Array_0[2] is Uint
    &&& m->Array_0[3] is Uint
    &&& m->Array_0[4] is Uint
    &&& m->Array_0[5] is Bytes
}

/// Whether `s` carries exactly the content of the statement value `m`.
pub open spec fn statement_matches(s: EndorsementStatement, m: ValueModel) -> bool {
    &&& statement_shape(m)
    &&& s.issuer_id@ == m->Array_0[0]->Bytes_0
    &&& s.subject_digest@ == m->Array_0[1]->Bytes_0
    &&& s.claim_type == m->Array_0[2]->Uint_0
    &&& s.not_before == m->Array_0[3]->Uint_0
    &&& s.not_after == m->Array_0[4]->Uint_0
    &&& s.signature@ == m->Array_0[5]->Bytes_0
}

/// Whether a value has the shape of a log entry: leaf hash, leaf index,
/// tree size, audit path.
pub open spec fn entry_shape(m: ValueModel) -> bool {
    &&& m is Array
    &&& m->Array_0.len() == 4
    &&& m->Array_0[0] is Bytes
    &&& m->Array_0[1] is Uint
    &&& m->Array_0[2] is Uint
    &&& m->Array_0[3] is Array
    &&& forall|i: int| 0 <= i < m->Array_0[3]->Array_0.len() ==> m->Array_0[3]->Array_0[i]
        is Bytes
}

/// Whether `e` carries exactly the content of the entry value `m`.
pub open spec fn entry_matches(e: LogEntry, m: ValueModel) -> bool {
    &&& entry_shape(m)
    &&& e.leaf_hash@ == m->Array_0[0]->Bytes_0
    &&& e.leaf_index == m->Array_0[1]->Uint_0
    &&& e.tree_size == m->Array_0[2]->Uint_0
    &&& e.audit_path@.len() == m->Array_0[3]->Array_0.len()
    &&& forall|i: int| 0 <= i < e.audit_path@.len() ==> (#[trigger] e.audit_path@[i])@
        == m->Array_0[3]->Array_0[i]->Bytes_0
}

/// Whether a value has the shape of a checkpoint: root hash, tree size,
/// timestamp, signature.
pub open spec fn checkpoint_shape(m: ValueModel) -> bool {
    &&& m is Array
    &&& m->Array_0.len() == 4
    &&& m->Array_0[0] is Bytes
    &&& m->Array_0[1] is Uint
    &&& m->Array_0[2] is Uint
    &&& m->Array_0[3] is Bytes
}

/// Whether `c` carries exactly the content of the checkpoint value `m`.
pub open spec fn checkpoint_matches(c: LogCheckpoint, m: ValueModel) -> bool {
    &&& checkpoint_shape(m)
    &&& c.root_hash@ == m->Array_0[0]->Bytes_0
    &&& c.tree_size == m->Array_0[1]->Uint_0
    &&& c.timestamp == m->Array_0[2]->Uint_0
    &&& c.signature@ == m->Array_0[3]->Bytes_0
}

/// Decodes an endorsement statement from its wire bytes.
pub fn decode_statement(raw: &[u8]) -> (r: Result<EndorsementStatement, InvalidEncoding>)
    ensures
        match r {
            Ok(s) => parse_full(raw@) is Some && statement_matches(s, parse_full(raw@)->0),
            Err(_) => parse_full(raw@) is None || !statement_shape(parse_full(raw@)->0),
        },
{
    let top = match parse_all(raw) {
        None => {
            return Err(InvalidEncoding);
        },
        Some(v) => v,
    };
    let fields = match &top {
        Value::Array(fields) => fields,
        _ => {
            return Err(InvalidEncoding);
        },
    };
    proof {
        lemma_view_list_index(fields@);
    }
    if fields.len() != 6 {
        return Err(InvalidEncoding);
    }
    let issuer_id = match &fields[0] {
        Value::Bytes(b) => copy_bytes(b),
        _ => {
            return Err(InvalidEncoding);
        },
    };
    let subject_digest = match &fields[1] {
        Value::Bytes(b) => copy_bytes(b),
        _ => {
            return Err(InvalidEncoding);
        },
    };
    let claim_type = match &fields[2] {
        Value::Uint(n) => *n,
        _ => {
            return Err(InvalidEncoding);
        },
    };
    let not_before = match &fields[3] {
        Value::Uint(n) => *n,
        _ => {
            return Err(InvalidEncoding);
        },
    };
    let not_after = match &fields[4] {
        Value::Uint(n) => *n,
        _ => {
            return Err(InvalidEncoding);
        },
    };
    let signature = match &fields[5] {
        Value::Bytes(b) => copy_bytes(b),
        _ => {
            return Err(InvalidEncoding);
        },
    };
    Ok(EndorsementStatement {
        issuer_id,
        subject_digest,
        claim_type,
        not_before,
        not_after,
        signature,
    })
}

/// Decodes a transparency-log entry from its wire bytes.
pub fn decode_log_entry(raw: &[u8]) -> (r: Result<LogEntry, InvalidEncoding>)
    ensures
        match r {
            Ok(e) => parse_full(raw@) is Some && entry_matches(e, parse_full(raw@)->0),
            Err(_) => parse_full(raw@) is None || !entry_shape(parse_full(raw@)->0),
        },
{
    let top = match parse_all(raw) {
        None => {
            return Err(InvalidEncoding);
        },
        Some(v) => v,
    };
    let fields = match &top {
        Value::Array(fields) => fields,
        _ => {
            return Err(InvalidEncoding);
        },
    };
    proof {
        lemma_view_list_index(fields@);
    }
    if fields.len() != 4 {
        return Err(InvalidEncoding);
    }
    let leaf_hash = match &fields[0] {
        Value::Bytes(b) => copy_bytes(b),
        _ => {
            return Err(InvalidEncoding);
        },
    };
    let leaf_index = match &fields[1] {
        Value::Uint(n) => *n,
        _ => {
            return Err(InvalidEncoding);
        },
    };
    let tree_size = match &fields[2] {
        Value::Uint(n) => *n,
        _ => {
            return Err(InvalidEncoding);
        },
    };
    let ghost mv = top@->Array_0[3];
    let audit_path = match &fields[3] {
        Value::Array(ms) => {
            proof {
                lemma_view_list_index(ms@);
                assert(mv == view_val(fields@[3]));
            }
            let mut out: Vec<Vec<u8>> = Vec::new();
            let mut i: usize = 0;
            while i < ms.len()
                invariant
                    i <= ms@.len(),
                    parse_full(raw@) == Some(top@),
                    mv == top@->Array_0[3],
                    mv == ValueModel::Array(view_list(ms@)),
                    view_list(ms@).len() == ms@.len(),
                    forall|k: int| 0 <= k < ms@.len() ==> view_list(ms@)[k]
                        == view_val(#[trigger] ms@[k]),
                    out@.len() == i,
                    forall|k: int| 0 <= k < i ==> mv->Array_0[k] is Bytes,
                    forall|k: int| 0 <= k < i ==> (#[trigger] out@[k])@
                        == mv->Array_0[k]->Bytes_0,
                decreases ms@.len() - i,
            {
                match &ms[i] {
                    Value::Bytes(b) => {
                        out.push(copy_bytes(b));
                    },
                    _ => {
                        assert(!(mv->Array_0[i as int] is Bytes));
                        return Err(InvalidEncoding);
                    },
                }
                i = i + 1;
            }
            out
        },
        _ => {
            return Err(InvalidEncoding);
        },
    };
    Ok(LogEntry { leaf_hash, leaf_index, tree_size, audit_path })
}

/// Decodes a signed log checkpoint from its wire bytes.
pub fn decode_checkpoint(raw: &[u8]) -> (r: Result<LogCheckpoint, InvalidEncoding>)
    ensures
        match r {
            Ok(c) => parse_full(raw@) is Some && checkpoint_matches(c, parse_full(raw@)->0),
            Err(_) => parse_full(raw@) is None || !checkpoint_shape(parse_full(raw@)->0),
        },
{
    let top = match parse_all(raw) {
        None => {
            return Err(InvalidEncoding);
        },
        Some(v) => v,
    };
    let fields = match &top {
        Value::Array(fields) => fields,
        _ => {
            return Err(InvalidEncoding);
        },
    };
    proof {
        lemma_view_list_index(fields@);
    }
    if fields.len() != 4 {
        return Err(InvalidEncoding);
    }
    let root_hash = match &fields[0] {
        Value::Bytes(b) => copy_bytes(b),
        _ => {
            return Err(InvalidEncoding);
        },
    };
    let tree_size = match &fields[1] {
        Value::Uint(n) => *n,
        _ => {
            return Err(InvalidEncoding);
        },
    };
    let timestamp = match &fields[2] {
        Value::Uint(n) => *n,
        _ => {
            return Err(InvalidEncoding);
        },
    };
    let signature = match &fields[3] {
        Value::Bytes(b) => copy_bytes(b),
        _ => {
            return Err(InvalidEncoding);
        },
    };
    Ok(LogCheckpoint { root_hash, tree_size, timestamp, signature })
}

} // verus!
