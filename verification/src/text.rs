//! UTF-8 decoding at the boundary where wire bytes become published text.

use vstd::prelude::*;
use vstd::utf8::decode_utf8;
use vstd::utf8::valid_utf8;

verus! {

/// Relies on `String::from_utf8`: it returns the string exactly when the
/// bytes are valid UTF-8, its characters are the UTF-8 decoding of the
/// bytes, and its result depends on the bytes alone.  Validity and decoding
/// are stated with vstd's UTF-8 model, `vstd::utf8`.
#[verifier::external_body]
pub(crate) fn utf8_to_string(bytes: Vec<u8>) -> (r: Option<String>)
    ensures
        r is Some <==> valid_utf8(bytes@),
        r matches Some(s) ==> s@ == decode_utf8(bytes@),
{
    String::from_utf8(bytes).ok()
}

} // verus!
