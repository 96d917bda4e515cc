//! Wire codec for macaroon bearer tokens.
//!
//! A macaroon is a bearer credential made of a target location, an opaque
//! identifier, an ordered chain of caveats, and a 32-byte signature. This
//! crate converts between the in-memory [`token::Token`] and its transmissible
//! encodings: the fully supported V1 format (a length-prefixed packet stream,
//! base64-encoded for transport) and the V2 / V2-JSON extension points.

pub mod assemble;
pub mod base64;
pub mod error;
pub mod packet;
pub mod serialization;
pub mod text;
pub mod token;

pub use error::MacaroonError;
pub use token::{Caveat, Token};
pub use serialization::{
    deserialize, deserialize_v1, deserialize_v2, deserialize_v2j, serialize, serialize_v1,
    serialize_v2, serialize_v2j, Format,
};
