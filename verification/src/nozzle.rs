//! Output deserializer: the bytes that a guest wrote to stdout back to a JSON
//! value. A guest is expected to write a single JSON document; white space behind
//! it is tolerated, and a guest that wrote nothing returned `null`.

use serde_json::Value;

use vstd::prelude::*;
use vstd::slice::slice_to_vec;

use crate::intake::{json_bytes, CodecError};

verus! {

/// The JSON value that a document stands for, or why it is no document.
pub uninterp spec fn json_value(bytes: Seq<u8>) -> Result<serde_json::Value, Seq<char>>;

/// What reading a document came to, with the reason as plain text.
pub open spec fn taken(r: Result<serde_json::Value, String>) -> Result<
    serde_json::Value,
    Seq<char>,
> {
    match r {
        Ok(value) => Ok(value),
        Err(reason) => Err(reason@),
    }
}

/// The bytes end in a blank, a tab or a line break.
pub open spec fn ends_blank(bytes: Seq<u8>) -> bool {
    bytes.len() > 0 && (bytes.last() == 0x20 || bytes.last() == 0x09 || bytes.last() == 0x0a
        || bytes.last() == 0x0d)
}

/// The JSON document `null`.
pub open spec fn null_document() -> Seq<u8> {
    seq![0x6eu8, 0x75, 0x6c, 0x6c]
}

/// The JSON value null: the one that is written as `null`.
pub open spec fn is_null(value: serde_json::Value) -> bool {
    json_bytes(value) == Ok::<Seq<u8>, Seq<char>>(null_document())
}

/// `serde_json::from_slice` into a `Value`. The result is named: it is a function
/// of the bytes. The document `null` is read without error as the value null,
/// and white space behind a document changes nothing.
#[verifier::external_body]
fn from_slice(bytes: &[u8]) -> (r: Result<Value, String>)
    ensures
        taken(r) == json_value(bytes@),
        bytes@ == null_document() ==> r is Ok && is_null(r->Ok_0),
        ends_blank(bytes@) && json_value(bytes@.drop_last()) is Ok ==> taken(r) == json_value(
            bytes@.drop_last(),
        ),
{
    match serde_json::from_slice::<Value>(bytes) {
        Ok(value) => Ok(value),
        Err(e) => Err(e.to_string()),
    }
}

/// The document that a guest's output stands for: the output itself, or `null` if
/// there is none.
pub open spec fn document(output: Seq<u8>) -> Seq<u8> {
    if output.len() == 0 {
        null_document()
    } else {
        output
    }
}

/// The document that a guest's output stands for.
pub fn output_document(output: &[u8]) -> (r: Vec<u8>)
    ensures
        r@ == document(output@),
{
    if output.len() == 0 {
        let r: Vec<u8> = vec![0x6e, 0x75, 0x6c, 0x6c];
        assert(r@ =~= null_document());
        r
    } else {
        slice_to_vec(output)
    }
}

/// Hand on what reading the output came to.
pub fn output_value(done: Result<Value, String>) -> (r: Result<Value, CodecError>)
    ensures
        match done {
            Ok(value) => r is Ok && r->Ok_0 == value,
            Err(reason) => r is Err && r->Err_0->Serialize_0@ == reason@,
        },
{
    match done {
        Ok(value) => Ok(value),
        Err(reason) => Err(CodecError::Serialize(reason)),
    }
}

/// Read the output of a call. No output reads as null, and white space behind the
/// document is tolerated.
pub fn parse_output(bytes: &[u8]) -> (r: Result<Value, CodecError>)
    ensures
        bytes@.len() == 0 ==> r is Ok && is_null(r->Ok_0),
        ends_blank(bytes@) && json_value(bytes@.drop_last()) is Ok ==> r is Ok && r->Ok_0
            == json_value(bytes@.drop_last())->Ok_0,
        match json_value(document(bytes@)) {
            Ok(value) => r is Ok && r->Ok_0 == value,
            Err(reason) => r is Err && r->Err_0->Serialize_0@ == reason,
        },
{
    output_value(from_slice(output_document(bytes).as_slice()))
}

/// An output stands for itself, and no output for the four bytes of `null`. What is
/// written as those is null.
pub proof fn law_no_output_is_null(output: Seq<u8>, value: serde_json::Value)
    ensures
        output.len() > 0 ==> document(output) == output,
        output.len() == 0 ==> document(output) == seq!['n' as u8, 'u' as u8, 'l' as u8, 'l' as u8],
        is_null(value) <==> (json_bytes(value) matches Ok(bytes) && bytes == document(Seq::empty())),
{
}

} // verus!
