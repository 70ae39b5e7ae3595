//! Binding a trace to the guest module it was recorded from.
use vstd::prelude::*;

use crate::codec::{dec_trace_data, TraceError};
use crate::trace::TraceData;

verus! {

/// The lowercase hex SHA-256 digest of some bytes.
pub uninterp spec fn sha256_hex(b: Seq<u8>) -> Seq<char>;

/// Relies on `sha256::digest`: the lowercase hex SHA-256 digest of the bytes,
/// a function of the bytes alone.
#[verifier::external_body]
fn sha256_digest(bytes: &[u8]) -> (r: String)
    ensures
        r@ == sha256_hex(bytes@),
{
    sha256::digest(bytes)
}

/// The digest that a trace records for the unmodified guest module `wasm`.
pub fn module_digest(wasm: &Vec<u8>) -> (r: String)
    ensures
        r@ == sha256_hex(wasm@),
{
    sha256_digest(wasm.as_slice())
}

/// Reads a trace for replaying the guest module `wasm`: refused when the
/// trace was recorded from another module.
pub fn load_trace_for_module(trace_bytes: &Vec<u8>, wasm: &Vec<u8>) -> (r: Result<TraceData, TraceError>)
    ensures
        match dec_trace_data(trace_bytes@) {
            None => r == Err::<TraceData, TraceError>(TraceError::Malformed),
            Some(d) => if d.sha256 != sha256_hex(wasm@) {
                r == Err::<TraceData, TraceError>(TraceError::DigestMismatch)
            } else {
                r matches Ok(t) && t@ == d
            },
        },
{
    let digest = module_digest(wasm);
    TraceData::deserialize(trace_bytes, Some(digest.as_str()))
}

} // verus!
