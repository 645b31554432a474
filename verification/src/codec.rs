//! Base64 text encoding of blob content, as content responses carry it.

use vstd::prelude::*;
use base64::Engine;

verus! {

/// The standard padded base64 encoding of a byte sequence.
pub uninterp spec fn base64_of(b: Seq<u8>) -> Seq<char>;

/// Relies on base64's `Engine::encode` with the `STANDARD` engine: the
/// result depends on the input bytes alone, and its length is four
/// characters for every started group of three bytes (padding included).
/// The length bound keeps the encoded size within `usize`, which the
/// engine otherwise refuses by panicking.
#[verifier::external_body]
pub(crate) fn to_base64(b: &Vec<u8>) -> (r: String)
    requires
        b@.len() + 3 <= 3 * (usize::MAX as int / 4),
    ensures
        r@ == base64_of(b@),
        r@.len() == 4 * ((b@.len() + 2) / 3),
{
    base64::engine::general_purpose::STANDARD.encode(b)
}

} // verus!
