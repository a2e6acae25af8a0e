//! Text and the bytes that it is made of.
use vstd::prelude::*;
use vstd::utf8::{encode_utf8, valid_utf8};

verus! {

/// The text that bytes stand for, if they stand for one. The call is
/// `String::from_utf8`: it succeeds on valid UTF-8 alone, and the string then has
/// exactly the given bytes.
#[verifier::external_body]
fn from_utf8(bytes: Vec<u8>) -> (text: Option<String>)
    ensures
        text is Some <==> valid_utf8(bytes@),
        text matches Some(text) ==> encode_utf8(text@) == bytes@,
{
    String::from_utf8(bytes).ok()
}

/// The text that bytes stand for, if they stand for one.
pub fn text_of(bytes: &[u8]) -> (text: Option<String>)
    ensures
        text is Some <==> valid_utf8(bytes@),
        text matches Some(text) ==> encode_utf8(text@) == bytes@,
{
    from_utf8(vstd::slice::slice_to_vec(bytes))
}

} // verus!
