//! The shared in-memory data model: [`Token`] and [`Caveat`].
//!
//! Every format serializes from and deserializes into these structures. The
//! codec treats them as immutable value data: serialization never mutates a
//! token, and deserialization builds a fresh one.
//!
//! Contracts speak of tokens through their byte-level views ([`TokenV`],
//! [`CaveatV`]): each text field is seen as its UTF-8 encoding, so that the
//! wire format can be specified exactly over byte sequences.

use vstd::prelude::*;
use vstd::utf8::{encode_utf8, valid_utf8};

use crate::text::spec_trim;

verus! {

/// The largest packet length the four-hex-digit header can declare.
pub const MAX_PACKET_LEN: usize = 0xffff;

/// A restriction attached to a token. First-party caveats carry only `id`;
/// third-party caveats additionally carry the key material (`verifier_id`)
/// and a location hint (`location`) a third party needs to issue a discharge.
#[derive(Debug, PartialEq, Eq)]
pub struct Caveat {
    /// The restriction predicate, or an opaque identifier resolvable by a
    /// third party. A caveat with an empty `id` is invalid.
    pub id: String,
    /// Present only for third-party caveats.
    pub verifier_id: Option<String>,
    /// Advisory hint of the third party's service location.
    pub location: Option<String>,
}

/// A macaroon: a bearer credential made of a target location, an opaque
/// identifier, an ordered caveat chain, and a 32-byte signature.
#[derive(Debug, PartialEq, Eq)]
pub struct Token {
    /// Advisory hint of the issuing service; not authenticated by the codec.
    pub location: String,
    /// Opaque reference, commonly to a root key.
    pub identifier: String,
    /// The ordered caveat chain; order is semantically significant.
    pub caveats: Vec<Caveat>,
    /// The terminal authentication tag: exactly 32 bytes on any token that
    /// deserialization produces. The codec treats it as opaque.
    pub signature: Vec<u8>,
}

/// The byte-level view of a [`Caveat`]: each text field as its UTF-8 bytes.
#[verifier::ext_equal]
pub struct CaveatV {
    pub id: Seq<u8>,
    pub verifier_id: Option<Seq<u8>>,
    pub location: Option<Seq<u8>>,
}

/// The byte-level view of a [`Token`].
#[verifier::ext_equal]
pub struct TokenV {
    pub location: Seq<u8>,
    pub identifier: Seq<u8>,
    pub caveats: Seq<CaveatV>,
    pub signature: Seq<u8>,
}

impl View for Caveat {
    type V = CaveatV;

    open spec fn view(&self) -> CaveatV {
        CaveatV {
            id: encode_utf8(self.id@),
            verifier_id: match self.verifier_id {
                Some(v) => Some(encode_utf8(v@)),
                None => None,
            },
            location: match self.location {
                Some(l) => Some(encode_utf8(l@)),
                None => None,
            },
        }
    }
}

impl View for Token {
    type V = TokenV;

    open spec fn view(&self) -> TokenV {
        TokenV {
            location: encode_utf8(self.location@),
            identifier: encode_utf8(self.identifier@),
            caveats: self.caveats@.map_values(|c: Caveat| c@),
            signature: self.signature@,
        }
    }
}

/// A text field that survives the wire unchanged: valid UTF-8 whose bytes
/// carry no leading or trailing whitespace (deserialization trims values).
pub open spec fn wf_text(f: Seq<u8>) -> bool {
    &&& valid_utf8(f)
    &&& spec_trim(f) == f
}

/// A well-formed caveat view: a non-empty `id`, every field wire-safe, and
/// every field short enough for its packet length to fit the header.
pub open spec fn wf_caveat(c: CaveatV) -> bool {
    &&& c.id.len() > 0
    &&& wf_text(c.id)
    &&& c.id.len() + 9 <= MAX_PACKET_LEN
    &&& match c.verifier_id {
        Some(v) => wf_text(v) && v.len() + 9 <= MAX_PACKET_LEN,
        None => true,
    }
    &&& match c.location {
        Some(l) => wf_text(l) && l.len() + 8 <= MAX_PACKET_LEN,
        None => true,
    }
}

/// A well-formed token view: wire-safe fields that fit their packets, a
/// well-formed caveat chain, and a signature of exactly 32 bytes.
pub open spec fn wf_token(t: TokenV) -> bool {
    &&& wf_text(t.location)
    &&& t.location.len() + 14 <= MAX_PACKET_LEN
    &&& wf_text(t.identifier)
    &&& t.identifier.len() + 16 <= MAX_PACKET_LEN
    &&& forall|i: int| 0 <= i < t.caveats.len() ==> wf_caveat(#[trigger] t.caveats[i])
    &&& t.signature.len() == 32
}

} // verus!
