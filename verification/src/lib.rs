//! Verification of layered attestation evidence.
//!
//! The crate decides whether a remotely running confidential workload can be
//! trusted, given a DICE-style certificate chain, signed endorsement
//! statements for the measured layers, and a Merkle inclusion proof showing
//! that each endorsement is recorded in an append-only transparency log.
//! Every check is a pure function of its inputs: the caller supplies all
//! bytes, keys and the current time, and receives a single structured
//! verdict.

pub mod bytes;
pub mod encode;
pub mod model;
pub mod parse;
pub mod roundtrip;
pub mod canon;
pub mod digest;
pub mod translog;
pub mod endorsement;
pub mod evidence;
pub mod attest;
pub mod utils;
pub mod wire;


