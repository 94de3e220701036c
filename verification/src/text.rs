//! Text from bytes.

use vstd::prelude::*;
use vstd::utf8::{decode_utf8, valid_utf8};

verus! {

/// Decodes `bytes` as UTF-8 text with `String::from_utf8` of the standard
/// library.
///
/// Not verified: the contract is taken from the documentation of
/// `String::from_utf8`, by which the call succeeds exactly on the byte strings
/// that are valid UTF-8 and then gives the text that those bytes encode.
#[verifier::external_body]
pub(crate) fn decode_text(bytes: Vec<u8>) -> (text: Option<String>)
    ensures
        text is Some <==> valid_utf8(bytes@),
        text matches Some(decoded) ==> decoded@ == decode_utf8(bytes@),
{
    String::from_utf8(bytes).ok()
}

} // verus!
