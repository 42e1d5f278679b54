//! Strings as bytes.

use vstd::prelude::*;

verus! {

/// The bytes of a string: its characters in UTF-8.
pub open spec fn utf8(s: Seq<char>) -> Seq<u8> {
    vstd::utf8::encode_utf8(s)
}

/// Two strings with the same bytes are the same string, and the bytes of a string are valid UTF-8.
pub proof fn law_utf8_injective(a: Seq<char>, b: Seq<char>)
    ensures
        utf8(a) == utf8(b) <==> a == b,
        vstd::utf8::valid_utf8(utf8(a)),
{
    vstd::utf8::encode_utf8_decode_utf8(a);
    vstd::utf8::encode_utf8_decode_utf8(b);
    vstd::utf8::encode_utf8_valid_utf8(a);
}

/// `std::str::from_utf8`: bytes that are valid UTF-8, and only such, are a string, and it is the
/// string with these bytes.
#[verifier::external_body]
fn from_utf8(bytes: &[u8]) -> (s: Option<&str>)
    ensures
        s is Some <==> vstd::utf8::valid_utf8(bytes@),
        s matches Some(s) ==> utf8(s@) == bytes@,
{
    std::str::from_utf8(bytes).ok()
}

/// Reads back the string that the bytes were taken from.
pub(crate) fn decode<'a>(bytes: &'a [u8], Ghost(text): Ghost<Seq<char>>) -> (s: &'a str)
    requires
        bytes@ == utf8(text),
    ensures
        s@ == text,
{
    proof {
        law_utf8_injective(text, text);
    }
    match from_utf8(bytes) {
        Some(s) => {
            proof {
                law_utf8_injective(s@, text);
            }
            s
        },
        None => vstd::pervasive::unreached(),
    }
}

} // verus!
