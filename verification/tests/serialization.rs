use macaroon::{
    deserialize, deserialize_v1, deserialize_v2, deserialize_v2j, serialize, serialize_v1,
    serialize_v2, serialize_v2j, Caveat, Format, MacaroonError, Token,
};
use rustc_serialize::base64::{ToBase64, STANDARD};

const SERIALIZED_V1: &str = "MDAyMWxvY2F0aW9uIGh0dHA6Ly9leGFtcGxlLm9yZy8KMDAxNWlkZW50aWZpZXIga2V5aWQKMDAyZnNpZ25hdHVyZSB83ueSURxbxvUoSFgF3-myTnheKOKpkwH51xHGCeOO9wo";
const SERIALIZED_V1_WITH_CAVEAT: &str = "MDAyMWxvY2F0aW9uIGh0dHA6Ly9leGFtcGxlLm9yZy8KMDAxNWlkZW50aWZpZXIga2V5aWQKMDAxZGNpZCBhY2NvdW50ID0gMzczNTkyODU1OQowMDJmc2lnbmF0dXJlIPVIB_bcbt-Ivw9zBrOCJWKjYlM9v3M5umF2XaS9JZ2HCg";
const SIGNATURE_V1: [u8; 32] = [
    124, 222, 231, 146, 81, 28, 91, 198, 245, 40, 72, 88, 5, 223, 233, 178, 78, 120, 94, 40, 226,
    169, 147, 1, 249, 215, 17, 198, 9, 227, 142, 247,
];
const SIGNATURE_V1_WITH_CAVEAT: [u8; 32] = [
    245, 72, 7, 246, 220, 110, 223, 136, 191, 15, 115, 6, 179, 130, 37, 98, 163, 98, 83, 61, 191,
    115, 57, 186, 97, 118, 93, 164, 189, 37, 157, 135,
];

/// A raw V1 packet: four lowercase hex digits of the total length, the tag,
/// a space, the value, and a newline.
fn packet(tag: &str, value: &[u8]) -> Vec<u8> {
    let n = 4 + tag.len() + 1 + value.len() + 1;
    let mut out = format!("{:04x}", n).into_bytes();
    out.extend_from_slice(tag.as_bytes());
    out.push(b' ');
    out.extend_from_slice(value);
    out.push(b'\n');
    out
}

fn transport(data: &[u8]) -> String {
    data.to_base64(STANDARD)
}

#[test]
fn test_deserialize_v1() {
    let macaroon = deserialize_v1(SERIALIZED_V1).unwrap();
    assert_eq!("http://example.org/", &macaroon.location);
    assert_eq!("keyid", &macaroon.identifier);
    assert_eq!(SIGNATURE_V1.to_vec(), macaroon.signature);
    let macaroon = deserialize_v1(SERIALIZED_V1_WITH_CAVEAT).unwrap();
    assert_eq!("http://example.org/", &macaroon.location);
    assert_eq!("keyid", &macaroon.identifier);
    assert_eq!(1, macaroon.caveats.len());
    assert_eq!("account = 3735928559", macaroon.caveats[0].id);
    assert_eq!(None, macaroon.caveats[0].verifier_id);
    assert_eq!(None, macaroon.caveats[0].location);
    assert_eq!(SIGNATURE_V1_WITH_CAVEAT.to_vec(), macaroon.signature);
}

#[test]
fn test_serialize_deserialize_v1() {
    let macaroon = Token {
        location: String::from("http://example.org/"),
        identifier: String::from("keyid"),
        caveats: Vec::new(),
        signature: SIGNATURE_V1.to_vec(),
    };
    let serialized = serialize(&macaroon, Format::V1).unwrap();
    let other = deserialize(&serialized).unwrap();
    assert_eq!(macaroon, other);
}

#[test]
fn round_trip_with_caveats() {
    let token = Token {
        location: String::from("http://example.org/"),
        identifier: String::from("keyid"),
        caveats: vec![
            Caveat {
                id: String::from("account = 3735928559"),
                verifier_id: Some(String::from("encrypted-key-material")),
                location: Some(String::from("https://auth.example.org/")),
            },
            Caveat {
                id: String::from("time < 2027-01-01"),
                verifier_id: None,
                location: None,
            },
        ],
        signature: [7u8; 32].to_vec(),
    };
    let text = serialize_v1(&token).unwrap();
    let back = deserialize_v1(&text).unwrap();
    assert_eq!(token, back);
}

#[test]
fn length_header_declares_true_length() {
    let p = packet("location", b"http://example.org/");
    assert_eq!(p.len(), 33);
    let header = std::str::from_utf8(&p[..4]).unwrap();
    assert_eq!(usize::from_str_radix(header, 16).unwrap(), p.len());
    // the serializer reproduces the known fixture (its transport uses the
    // standard alphabet with padding; the fixture is url-safe and unpadded)
    let token = Token {
        location: String::from("http://example.org/"),
        identifier: String::from("keyid"),
        caveats: Vec::new(),
        signature: SIGNATURE_V1.to_vec(),
    };
    let text = serialize_v1(&token).unwrap();
    assert_eq!(
        text.trim_end_matches('='),
        SERIALIZED_V1.replace('-', "+").replace('_', "/")
    );
}

#[test]
fn header_corruption_is_detected() {
    let mut stream = Vec::new();
    stream.extend_from_slice(&packet("location", b"http://example.org/"));
    stream.extend_from_slice(&packet("identifier", b"keyid"));
    stream.extend_from_slice(&packet("signature", &SIGNATURE_V1));
    assert!(deserialize_v1(&transport(&stream)).is_ok());
    for pos in 0..4 {
        for delta in [-1i16, 1i16] {
            let mut corrupt = stream.clone();
            corrupt[pos] = (corrupt[pos] as i16 + delta) as u8;
            let r = deserialize_v1(&transport(&corrupt));
            assert!(r.is_err(), "byte {} changed by {} must not parse", pos, delta);
        }
    }
}

#[test]
fn test_caveat_grouping() {
    let mut stream = Vec::new();
    stream.extend_from_slice(&packet("cid", b"A"));
    stream.extend_from_slice(&packet("vid", b"V1"));
    stream.extend_from_slice(&packet("cl", b"L1"));
    stream.extend_from_slice(&packet("cid", b"B"));
    stream.extend_from_slice(&packet("cid", b"C"));
    stream.extend_from_slice(&packet("signature", &[9u8; 32]));
    let token = deserialize_v1(&transport(&stream)).unwrap();
    assert_eq!(3, token.caveats.len());
    assert_eq!("A", token.caveats[0].id);
    assert_eq!(Some(String::from("V1")), token.caveats[0].verifier_id);
    assert_eq!(Some(String::from("L1")), token.caveats[0].location);
    assert_eq!("B", token.caveats[1].id);
    assert_eq!(None, token.caveats[1].verifier_id);
    assert_eq!(None, token.caveats[1].location);
    assert_eq!("C", token.caveats[2].id);
    assert_eq!(None, token.caveats[2].verifier_id);
    assert_eq!(None, token.caveats[2].location);
    assert_eq!([9u8; 32].to_vec(), token.signature);
}

#[test]
fn test_signature_truncation() {
    let mut long = [0u8; 40];
    for (i, b) in long.iter_mut().enumerate() {
        *b = i as u8;
    }
    let mut stream = Vec::new();
    stream.extend_from_slice(&packet("location", b"loc"));
    stream.extend_from_slice(&packet("identifier", b"id"));
    stream.extend_from_slice(&packet("signature", &long));
    let token = deserialize_v1(&transport(&stream)).unwrap();
    assert_eq!(long[..32].to_vec(), token.signature);

    let mut stream = Vec::new();
    stream.extend_from_slice(&packet("signature", &[1u8; 10]));
    assert_eq!(
        Err(MacaroonError::MalformedSequenceError),
        deserialize_v1(&transport(&stream))
    );
}

#[test]
fn test_unknown_tag() {
    let mut stream = Vec::new();
    stream.extend_from_slice(&packet("xyz", b"whatever"));
    stream.extend_from_slice(&packet("signature", &[1u8; 32]));
    assert_eq!(
        Err(MacaroonError::UnknownTagError),
        deserialize_v1(&transport(&stream))
    );
}

#[test]
fn test_empty_input() {
    // an empty buffer frames to zero packets; with no terminal signature
    // packet the assembler rejects the token rather than accept a default
    // signature
    assert_eq!(
        Err(MacaroonError::MalformedSequenceError),
        deserialize_v1("")
    );
}

#[test]
fn test_decode_error() {
    assert_eq!(
        Err(MacaroonError::DecodeError),
        deserialize_v1("!!!this is not base64!!!")
    );
}

#[test]
fn test_framing_errors() {
    // fewer than four bytes where a header is due
    assert_eq!(
        Err(MacaroonError::FramingError),
        deserialize_v1(&transport(b"00"))
    );
    // header is not hex
    assert_eq!(
        Err(MacaroonError::FramingError),
        deserialize_v1(&transport(b"zzzzlocation x\n"))
    );
    // declared length exceeds the remaining bytes
    assert_eq!(
        Err(MacaroonError::FramingError),
        deserialize_v1(&transport(b"0040location x\n"))
    );
    // declared length shorter than the header itself
    assert_eq!(
        Err(MacaroonError::FramingError),
        deserialize_v1(&transport(b"0001"))
    );
}

#[test]
fn test_key_value_error() {
    // a packet body with no separating space
    assert_eq!(
        Err(MacaroonError::KeyValueError),
        deserialize_v1(&transport(b"000cnospace\n"))
    );
}

#[test]
fn test_text_validity_error() {
    // a location value that is not valid UTF-8
    let mut stream = Vec::new();
    stream.extend_from_slice(&packet("location", &[0xff, 0xfe]));
    stream.extend_from_slice(&packet("signature", &[1u8; 32]));
    assert_eq!(
        Err(MacaroonError::TextValidityError),
        deserialize_v1(&transport(&stream))
    );
    // a tag that is not valid UTF-8
    let mut raw = Vec::new();
    raw.extend_from_slice(b"0008");
    raw.push(0xff);
    raw.extend_from_slice(b" x\n");
    assert_eq!(
        Err(MacaroonError::TextValidityError),
        deserialize_v1(&transport(&raw))
    );
}

#[test]
fn test_vid_cl_without_open_caveat() {
    let mut stream = Vec::new();
    stream.extend_from_slice(&packet("vid", b"V"));
    stream.extend_from_slice(&packet("signature", &[1u8; 32]));
    assert_eq!(
        Err(MacaroonError::MalformedSequenceError),
        deserialize_v1(&transport(&stream))
    );
    let mut stream = Vec::new();
    stream.extend_from_slice(&packet("cl", b"L"));
    stream.extend_from_slice(&packet("signature", &[1u8; 32]));
    assert_eq!(
        Err(MacaroonError::MalformedSequenceError),
        deserialize_v1(&transport(&stream))
    );
}

#[test]
fn test_value_trimming() {
    let mut stream = Vec::new();
    stream.extend_from_slice(&packet("location", b"  http://example.org/  "));
    stream.extend_from_slice(&packet("signature", &[1u8; 32]));
    let token = deserialize_v1(&transport(&stream)).unwrap();
    assert_eq!("http://example.org/", token.location);
}

#[test]
fn test_serialize_oversize_packet() {
    let token = Token {
        location: "a".repeat(0x10000),
        identifier: String::from("keyid"),
        caveats: Vec::new(),
        signature: [1u8; 32].to_vec(),
    };
    assert_eq!(Err(MacaroonError::FramingError), serialize_v1(&token));
}

#[test]
fn test_not_implemented_formats() {
    let token = Token {
        location: String::from("loc"),
        identifier: String::from("id"),
        caveats: Vec::new(),
        signature: [1u8; 32].to_vec(),
    };
    assert_eq!(Err(MacaroonError::NotImplementedError), serialize_v2(&token));
    assert_eq!(Err(MacaroonError::NotImplementedError), serialize_v2j(&token));
    assert_eq!(
        Err(MacaroonError::NotImplementedError),
        serialize(&token, Format::V2)
    );
    assert_eq!(
        Err(MacaroonError::NotImplementedError),
        serialize(&token, Format::V2J)
    );
    assert_eq!(Err(MacaroonError::NotImplementedError), deserialize_v2("x"));
    assert_eq!(Err(MacaroonError::NotImplementedError), deserialize_v2j("x"));
}

#[test]
fn test_error_messages() {
    assert!(!MacaroonError::DecodeError.message().is_empty());
    assert!(!MacaroonError::NotImplementedError.message().is_empty());
}
