use vstd::prelude::*;

use crate::value::text_bytes;

verus! {

/// Relies on `String::from_utf8`: it accepts exactly the byte vectors that
/// are valid UTF-8, and the string it returns holds those very bytes.
#[verifier::external_body]
pub(crate) fn string_from_utf8(bytes: Vec<u8>) -> (r: Option<String>)
    ensures
        r is Some <==> vstd::utf8::valid_utf8(bytes@),
        r matches Some(s) ==> text_bytes(&s) == bytes@,
{
    String::from_utf8(bytes).ok()
}

} // verus!
