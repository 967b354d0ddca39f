//! Text as UTF-8 bytes.

use vstd::prelude::*;
use vstd::utf8::{encode_utf8, valid_utf8};

verus! {

/// The text whose UTF-8 encoding is `bytes`; `None` where `bytes` is not UTF-8.
///
/// Calls `String::from_utf8`. Trusted: it accepts exactly the valid UTF-8 byte
/// sequences, and the string it returns is encoded by the bytes it was given.
#[verifier::external_body]
pub(crate) fn string_from_utf8(bytes: Vec<u8>) -> (text: Option<String>)
    ensures
        text is Some <==> valid_utf8(bytes@),
        text matches Some(s) ==> encode_utf8(s@) == bytes@,
{
    match String::from_utf8(bytes) {
        Ok(s) => Some(s),
        Err(_) => None,
    }
}

} // verus!
