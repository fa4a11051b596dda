//! Input serializer: a JSON value to the bytes that a guest reads on stdin.

use serde_json::Value;

use vstd::prelude::*;

verus! {

/// A JSON value.
#[verifier::external_type_specification]
#[verifier::external_body]
pub struct ExValue(serde_json::Value);

/// What went wrong between a JSON value and its bytes.
#[derive(Debug)]
pub enum CodecError {
    /// The value cannot be written, or the bytes are no JSON document. Holds
    /// the reason.
    Serialize(String),
}

/// The bytes that a JSON value is written as, or why it cannot be written.
pub uninterp spec fn json_bytes(value: serde_json::Value) -> Result<Seq<u8>, Seq<char>>;

/// What writing a value came to, as plain values.
pub open spec fn written(r: Result<Vec<u8>, String>) -> Result<Seq<u8>, Seq<char>> {
    match r {
        Ok(bytes) => Ok(bytes@),
        Err(reason) => Err(reason@),
    }
}

/// `serde_json::to_vec`: compact JSON text in UTF-8. The result is named: it is a
/// function of the value.
#[verifier::external_body]
fn to_vec(value: &Value) -> (r: Result<Vec<u8>, String>)
    ensures
        written(r) == json_bytes(*value),
{
    match serde_json::to_vec(value) {
        Ok(bytes) => Ok(bytes),
        Err(e) => Err(e.to_string()),
    }
}

/// Hand on what writing the input came to.
pub fn input_bytes(done: Result<Vec<u8>, String>) -> (r: Result<Vec<u8>, CodecError>)
    ensures
        match done {
            Ok(bytes) => r is Ok && r->Ok_0@ == bytes@,
            Err(reason) => r is Err && r->Err_0->Serialize_0@ == reason@,
        },
{
    match done {
        Ok(bytes) => Ok(bytes),
        Err(reason) => Err(CodecError::Serialize(reason)),
    }
}

/// Write the input of a call.
pub fn serialize_input(input: &Value) -> (r: Result<Vec<u8>, CodecError>)
    ensures
        match json_bytes(*input) {
            Ok(bytes) => r is Ok && r->Ok_0@ == bytes,
            Err(reason) => r is Err && r->Err_0->Serialize_0@ == reason,
        },
{
    input_bytes(to_vec(input))
}

} // verus!
