//! Canonical re-encoding behaviour on concrete byte strings.

use attestation_verification::canon::canonicalize;
use attestation_verification::encode::encode;
use attestation_verification::model::Value;
use attestation_verification::parse::parse_all;
use attestation_verification::utils::cbor_encoded_bytes_to_vec;

#[test]
fn scalar_roundtrip_is_identity() {
    // 10 encodes inline as 0x0a.
    let out = canonicalize(&[0x0a]).unwrap();
    assert_eq!(out, vec![0x0a]);
}

#[test]
fn non_minimal_integer_is_reencoded_minimally() {
    // 10 encoded with a needless one-byte argument: 0x18 0x0a.
    let out = canonicalize(&[0x18, 0x0a]).unwrap();
    assert_eq!(out, vec![0x0a]);
}

#[test]
fn map_keys_are_sorted() {
    // {2: 5, 1: 4} re-encodes with key 1 first.
    let bytes = vec![0xa2, 0x02, 0x05, 0x01, 0x04];
    let out = canonicalize(&bytes).unwrap();
    assert_eq!(out, vec![0xa2, 0x01, 0x04, 0x02, 0x05]);
}

#[test]
fn canonicalize_is_idempotent_on_concrete_input() {
    // A nested value with unsorted keys and a non-minimal length argument.
    let bytes = vec![
        0xa2, // map of two pairs
        0x18, 0x2a, // key 42, non-minimally encoded
        0x82, 0x01, 0x02, // value [1, 2]
        0x01, // key 1
        0x43, 0x61, 0x62, 0x63, // value h'616263'
    ];
    let once = canonicalize(&bytes).unwrap();
    let twice = canonicalize(&once).unwrap();
    assert_eq!(once, twice);
    // And the keys came out sorted: 1 before 42.
    assert_eq!(once[0], 0xa2);
    assert_eq!(once[1], 0x01);
}

#[test]
fn two_encodings_of_one_value_canonicalize_identically() {
    // {1: 4, 2: 5} written in both orders, one with a non-minimal key.
    let a = vec![0xa2, 0x02, 0x05, 0x01, 0x04];
    let b = vec![0xa2, 0x18, 0x01, 0x04, 0x02, 0x05];
    assert_eq!(canonicalize(&a).unwrap(), canonicalize(&b).unwrap());
}

#[test]
fn duplicate_map_keys_are_rejected() {
    // {1: 0, 1: 1}
    let bytes = vec![0xa2, 0x01, 0x00, 0x01, 0x01];
    assert!(canonicalize(&bytes).is_err());
}

#[test]
fn duplicate_keys_after_normalization_are_rejected() {
    // {1: 0, 0x18 1: 1}: both keys denote 1.
    let bytes = vec![0xa2, 0x01, 0x00, 0x18, 0x01, 0x01];
    assert!(canonicalize(&bytes).is_err());
}

#[test]
fn indefinite_length_is_rejected() {
    // 0x9f opens an indefinite-length array.
    assert!(canonicalize(&[0x9f, 0x01, 0xff]).is_err());
}

#[test]
fn truncated_input_is_rejected() {
    // A byte string claiming three bytes with only two present.
    assert!(canonicalize(&[0x43, 0x61, 0x62]).is_err());
}

#[test]
fn canonicalize_demands_exactly_one_value() {
    // The strict form used inside the pipeline covers the whole input;
    // `cbor_encoded_bytes_to_vec` is the prefix-tolerant entry point.
    assert!(canonicalize(&[0x01, 0x02]).is_err());
}

#[test]
fn booleans_and_null_are_canonical() {
    assert_eq!(canonicalize(&[0xf4]).unwrap(), vec![0xf4]); // false
    assert_eq!(canonicalize(&[0xf5]).unwrap(), vec![0xf5]); // true
    assert_eq!(canonicalize(&[0xf6]).unwrap(), vec![0xf6]); // null
    // [true, null, false]
    let bytes = vec![0x83, 0xf5, 0xf6, 0xf4];
    assert_eq!(canonicalize(&bytes).unwrap(), bytes);
    assert_eq!(encode(&Value::Bool(true)), vec![0xf5]);
    assert_eq!(encode(&Value::Null), vec![0xf6]);
}

#[test]
fn tags_floats_and_wide_simple_values_are_rejected() {
    assert!(canonicalize(&[0xc0, 0x01]).is_err()); // tag 0
    assert!(canonicalize(&[0xf7]).is_err()); // undefined
    assert!(canonicalize(&[0xf8, 0x20]).is_err()); // simple(32)
    assert!(canonicalize(&[0xf9, 0x3c, 0x00]).is_err()); // half-width float
    assert!(canonicalize(&[0xfa, 0x3f, 0x80, 0x00, 0x00]).is_err()); // single-width
    assert!(canonicalize(&[0xfb, 0, 0, 0, 0, 0, 0, 0, 0]).is_err()); // double-width
}

#[test]
fn empty_input_is_rejected() {
    assert!(canonicalize(&[]).is_err());
}

#[test]
fn excessive_nesting_is_rejected() {
    // 100 nested single-element arrays around one integer.
    let mut bytes = vec![0x81u8; 100];
    bytes.push(0x01);
    assert!(canonicalize(&bytes).is_err());
}

#[test]
fn negative_integers_and_text_roundtrip() {
    // [-1, "a"] == [0x20, 0x61 as text]
    let bytes = vec![0x82, 0x20, 0x61, 0x61];
    let out = canonicalize(&bytes).unwrap();
    assert_eq!(out, bytes);
}

#[test]
fn encode_parse_agree_on_built_value() {
    let v = Value::Array(vec![
        Value::Uint(300),
        Value::Bytes(vec![1, 2, 3]),
        Value::Nint(9),
    ]);
    let bytes = encode(&v);
    // 300 needs a two-byte argument: 0x19 0x01 0x2c.
    assert_eq!(
        bytes,
        vec![0x83, 0x19, 0x01, 0x2c, 0x43, 0x01, 0x02, 0x03, 0x29]
    );
    let back = parse_all(&bytes).unwrap();
    let again = encode(&back);
    assert_eq!(again, bytes);
}

#[test]
fn cbor_encoded_bytes_to_vec_reencodes() {
    let out = cbor_encoded_bytes_to_vec(&[0x18, 0x07]).unwrap();
    assert_eq!(out, vec![0x07]);
    assert!(cbor_encoded_bytes_to_vec(&[0xff]).is_err());
    assert!(cbor_encoded_bytes_to_vec(&[]).is_err());
}

#[test]
fn cbor_encoded_bytes_to_vec_strips_unused_suffix_bytes() {
    // The value 1 followed by one unused byte.
    assert_eq!(cbor_encoded_bytes_to_vec(&[0x01, 0x02]).unwrap(), vec![0x01]);
    // A non-minimally encoded 7 followed by garbage.
    assert_eq!(
        cbor_encoded_bytes_to_vec(&[0x18, 0x07, 0xaa, 0xbb]).unwrap(),
        vec![0x07]
    );
    // An unsorted map followed by padding: sorted, padding dropped.
    assert_eq!(
        cbor_encoded_bytes_to_vec(&[0xa2, 0x02, 0x05, 0x01, 0x04, 0x00, 0x00]).unwrap(),
        vec![0xa2, 0x01, 0x04, 0x02, 0x05]
    );
    // A truncated value is still rejected: the suffix tolerance never
    // repairs an incomplete front value.
    assert!(cbor_encoded_bytes_to_vec(&[0x43, 0x61, 0x62]).is_err());
    // Duplicate keys are rejected even with trailing bytes present.
    assert!(cbor_encoded_bytes_to_vec(&[0xa2, 0x01, 0x00, 0x01, 0x01, 0xee]).is_err());
}

#[test]
fn cbor_encoded_bytes_to_vec_output_is_stable() {
    // Re-running on the extracted bytes returns them unchanged.
    let once = cbor_encoded_bytes_to_vec(&[0xa2, 0x02, 0x05, 0x01, 0x04, 0x99]).unwrap();
    let twice = cbor_encoded_bytes_to_vec(&once).unwrap();
    assert_eq!(once, twice);
}

#[test]
fn integer_argument_width_boundaries() {
    // 23 stays inline; 24 takes a one-byte argument.
    assert_eq!(encode(&Value::Uint(23)), vec![0x17]);
    assert_eq!(encode(&Value::Uint(24)), vec![0x18, 0x18]);
    assert_eq!(encode(&Value::Uint(255)), vec![0x18, 0xff]);
    assert_eq!(encode(&Value::Uint(256)), vec![0x19, 0x01, 0x00]);
    assert_eq!(encode(&Value::Uint(65535)), vec![0x19, 0xff, 0xff]);
    assert_eq!(encode(&Value::Uint(65536)), vec![0x1a, 0x00, 0x01, 0x00, 0x00]);
    assert_eq!(
        encode(&Value::Uint(4294967296)),
        vec![0x1b, 0x00, 0x00, 0x00, 0x01, 0x00, 0x00, 0x00, 0x00]
    );
    assert_eq!(
        encode(&Value::Uint(u64::MAX)),
        vec![0x1b, 0xff, 0xff, 0xff, 0xff, 0xff, 0xff, 0xff, 0xff]
    );
}

#[test]
fn keys_sort_by_encoded_bytes_across_types() {
    // {"a": 0, 10: 1}: 10 encodes as 0x0a, "a" as 0x61 0x61, so the
    // integer key comes first in the canonical order.
    let bytes = vec![0xa2, 0x61, 0x61, 0x00, 0x0a, 0x01];
    let out = canonicalize(&bytes).unwrap();
    assert_eq!(out, vec![0xa2, 0x0a, 0x01, 0x61, 0x61, 0x00]);
}

#[test]
fn nesting_just_below_the_limit_is_accepted() {
    // 63 nested arrays around one integer: depth 64 in all.
    let mut bytes = vec![0x81u8; 63];
    bytes.push(0x01);
    let out = canonicalize(&bytes).unwrap();
    assert_eq!(out, bytes);
    // One level more crosses the ceiling.
    let mut deeper = vec![0x81u8; 64];
    deeper.push(0x01);
    assert!(canonicalize(&deeper).is_err());
}

#[test]
fn nested_maps_are_sorted_recursively() {
    // [{2: 0, 1: 0}] sorts the inner map.
    let bytes = vec![0x81, 0xa2, 0x02, 0x00, 0x01, 0x00];
    let out = canonicalize(&bytes).unwrap();
    assert_eq!(out, vec![0x81, 0xa2, 0x01, 0x00, 0x02, 0x00]);
}

#[test]
fn map_keys_may_be_containers() {
    // {[1]: 2}: keys are sorted by their encodings, whatever their type.
    let bytes = vec![0xa1, 0x81, 0x01, 0x02];
    let out = canonicalize(&bytes).unwrap();
    assert_eq!(out, bytes);
}
