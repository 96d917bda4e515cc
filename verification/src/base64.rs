//! The outer transport envelope of format V1: standard-alphabet base64.
//!
//! The encoding and decoding themselves are done by the `rustc-serialize`
//! crate; this module gives names to what those calls return and states the
//! facts the codec relies on: encoding is a function of the bytes alone, and
//! decoding inverts it.

use rustc_serialize::base64::{FromBase64, ToBase64, STANDARD};
use vstd::prelude::*;

verus! {

/// The base64 text that `rustc-serialize` produces for these bytes with its
/// `STANDARD` configuration (standard alphabet, padding, no line wrapping).
pub uninterp spec fn b64_of(b: Seq<u8>) -> Seq<char>;

/// The bytes that `rustc-serialize` decodes this text to, or `None` where it
/// rejects the text. Its decoder also accepts the URL-safe alphabet and
/// unpadded input, so texts other than `b64_of(b)` may decode to `b`.
pub uninterp spec fn b64_decode_of(s: Seq<char>) -> Option<Seq<u8>>;

/// Relies on `rustc_serialize::base64::ToBase64::to_base64` with the
/// `STANDARD` config: the result depends on the input bytes alone.
#[verifier::external_body]
pub fn base64_encode(data: &[u8]) -> (r: String)
    ensures
        r@ == b64_of(data@),
{
    data.to_base64(STANDARD)
}

/// Relies on `rustc_serialize::base64::FromBase64::from_base64`: the result
/// depends on the input text alone, and decoding the encoding of any byte
/// string yields that byte string back.
#[verifier::external_body]
pub fn base64_decode(s: &str) -> (r: Option<Vec<u8>>)
    ensures
        r is Some <==> b64_decode_of(s@) is Some,
        r matches Some(v) ==> b64_decode_of(s@) == Some(v@),
        r matches Some(v) ==> (forall|b: Seq<u8>| s@ == b64_of(b) ==> v@ == b),
        r is None ==> (forall|b: Seq<u8>| s@ != b64_of(b)),
{
    match s.from_base64() {
        Ok(v) => Some(v),
        Err(_) => None,
    }
}

} // verus!
