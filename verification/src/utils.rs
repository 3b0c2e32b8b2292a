//! Utilities to handle encoded values.

use vstd::prelude::*;
use crate::canon::{canonical_prefix, normalize, norm};
use crate::encode::encode;
use crate::model::MAX_DEPTH;
use crate::parse::{parse_at, parse_val};

verus! {

/// Extracts the canonical bytes of the structured value encoded at the
/// start of `bytes`, by decoding it and deterministically re-serializing
/// it. Bytes past the value's end are unused and dropped, so a value can
/// be pulled out of a buffer that carries trailing padding or garbage.
/// Fails with a message when no complete well-formed value of the
/// accepted grammar starts at the front, or when the value holds a
/// structure the canonical form rejects (duplicate map keys).
pub fn cbor_encoded_bytes_to_vec(bytes: &[u8]) -> (r: Result<Vec<u8>, String>)
    ensures
        match r {
            Ok(out) => canonical_prefix(bytes@) == Some(out@),
            Err(_) => canonical_prefix(bytes@) is None,
        },
{
    proof {
        assert(bytes@.skip(0) =~= bytes@);
    }
    let v = match parse_at(bytes, 0, MAX_DEPTH) {
        None => {
            assert(parse_val(bytes@, MAX_DEPTH as nat) is None);
            return Err("failed to read bytes: invalid encoding".to_owned());
        },
        Some((v, _)) => v,
    };
    match normalize(&v) {
        None => {
            assert(norm(v@) is None);
            Err("failed to write bytes: duplicate map keys".to_owned())
        },
        Some(w) => Ok(encode(&w)),
    }
}

} // verus!
