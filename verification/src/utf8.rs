//! Bytes read as text.

use vstd::prelude::*;
use vstd::string::*;
use vstd::utf8::*;

verus! {

/// What `String::from_utf8_lossy` makes of `bytes`.
pub uninterp spec fn lossy_text(bytes: Seq<u8>) -> Seq<char>;

/// Calls `std::str::from_utf8`.
///
/// Claimed of it: it succeeds exactly on valid UTF-8, and the string it then gives
/// is encoded by the very bytes that were handed in.
#[verifier::external_body]
pub(crate) fn from_utf8(bytes: &[u8]) -> (text: Option<&str>)
    ensures
        text is Some <==> valid_utf8(bytes@),
        text matches Some(s) ==> encode_utf8(s@) == bytes@,
{
    std::str::from_utf8(bytes).ok()
}

/// Calls `String::from_utf8_lossy` and takes ownership of what it gives.
///
/// Claimed of it: the text depends on the bytes alone, and valid UTF-8 is kept as it
/// is. What stands in for the invalid parts of other input is not claimed.
#[verifier::external_body]
pub(crate) fn from_utf8_lossy(bytes: &[u8]) -> (text: String)
    ensures
        text@ == lossy_text(bytes@),
        valid_utf8(bytes@) ==> encode_utf8(text@) == bytes@,
{
    String::from_utf8_lossy(bytes).into_owned()
}

} // verus!
