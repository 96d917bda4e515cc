//! The packet framer: the V1 length-prefixed TLV discipline.
//!
//! A packet is `[4 hex digits: total length][tag][space][value][newline]`,
//! where the length counts every byte of the packet including the header
//! itself. The framer has no notion of which tags are legal, but it does
//! demand that tag bytes be valid text: a packet whose tag is not valid
//! UTF-8 fails with a text-validity error. Parsing walks the buffer with an
//! explicit loop, never recursion, so adversarial inputs with many tiny
//! packets cannot exhaust the stack.

use vstd::arithmetic::div_mod::{
    lemma_div_denominator, lemma_fundamental_div_mod, lemma_multiply_divide_lt, lemma_small_mod,
};
use vstd::prelude::*;
use vstd::slice::{slice_subrange, slice_to_vec};
use vstd::utf8::valid_utf8;

use crate::error::MacaroonError;
use crate::text::bytes_to_string;
use crate::token::MAX_PACKET_LEN;

verus! {

/// A raw framed packet: a tag and a value, both byte strings. The value no
/// longer carries the frame's trailing newline.
pub struct Packet {
    pub tag: Vec<u8>,
    pub value: Vec<u8>,
}

/// The view of a [`Packet`].
#[verifier::ext_equal]
pub struct PacketV {
    pub tag: Seq<u8>,
    pub value: Seq<u8>,
}

impl View for Packet {
    type V = PacketV;

    open spec fn view(&self) -> PacketV {
        PacketV { tag: self.tag@, value: self.value@ }
    }
}

/// The lowercase hex digit of a nibble value.
pub open spec fn spec_hex_digit(v: int) -> u8
    recommends
        0 <= v < 16,
{
    if v < 10 {
        (48 + v) as u8
    } else {
        (87 + v) as u8
    }
}

/// The four-hex-digit length header declaring `size`.
pub open spec fn spec_header(size: int) -> Seq<u8> {
    seq![
        spec_hex_digit((size / 4096) % 16),
        spec_hex_digit((size / 256) % 16),
        spec_hex_digit((size / 16) % 16),
        spec_hex_digit(size % 16),
    ]
}

/// The numeric value of one hex digit byte (upper or lower case), or -1.
pub open spec fn spec_hex_val(b: u8) -> int {
    if 48 <= b <= 57 {
        b - 48
    } else if 97 <= b <= 102 {
        b - 87
    } else if 65 <= b <= 70 {
        b - 55
    } else {
        -1
    }
}

/// The value of a four-hex-digit header, or -1 if some byte is not hex.
pub open spec fn spec_parse_hex4(s: Seq<u8>) -> int
    recommends
        s.len() == 4,
{
    if spec_hex_val(s[0]) < 0 || spec_hex_val(s[1]) < 0 || spec_hex_val(s[2]) < 0 || spec_hex_val(
        s[3],
    ) < 0 {
        -1
    } else {
        spec_hex_val(s[0]) * 4096 + spec_hex_val(s[1]) * 256 + spec_hex_val(s[2]) * 16
            + spec_hex_val(s[3])
    }
}

/// The whole wire encoding of one packet.
pub open spec fn spec_packet_bytes(p: PacketV) -> Seq<u8> {
    spec_header(6 + p.tag.len() + p.value.len() as int) + p.tag + seq![32u8] + p.value
        + seq![10u8]
}

/// The wire encoding of a packet sequence: the packets concatenated.
pub open spec fn spec_packets_bytes(ps: Seq<PacketV>) -> Seq<u8>
    decreases ps.len(),
{
    if ps.len() == 0 {
        Seq::empty()
    } else {
        spec_packet_bytes(ps[0]) + spec_packets_bytes(ps.drop_first())
    }
}

/// A packet the framer can write and read back: the tag contains no space
/// (the first space separates tag from value), the tag is valid text, and
/// the whole packet length fits the four-digit header.
pub open spec fn frameable(p: PacketV) -> bool {
    &&& forall|j: int| 0 <= j < p.tag.len() ==> p.tag[j] != 32
    &&& valid_utf8(p.tag)
    &&& 6 + p.tag.len() + p.value.len() <= MAX_PACKET_LEN
}

/// The index of the first space byte in `s`, or -1 if there is none.
pub open spec fn spec_split_index(s: Seq<u8>) -> int
    decreases s.len(),
{
    if s.len() == 0 {
        -1
    } else if s[0] == 32 {
        0
    } else if spec_split_index(s.drop_first()) < 0 {
        -1
    } else {
        1 + spec_split_index(s.drop_first())
    }
}

/// A packet body's value: the bytes after the first space, without the
/// trailing newline if one is present.
pub open spec fn spec_value_of(rest: Seq<u8>) -> Seq<u8> {
    if rest.len() > 0 && rest.last() == 10u8 {
        rest.drop_last()
    } else {
        rest
    }
}

/// The packets framed in `b`: the parsing half of the framer, as one total
/// specification over byte sequences. Each packet must declare its length in
/// four hex digits, hold a space after its tag, and carry tag bytes that are
/// valid text.
pub open spec fn spec_frame(b: Seq<u8>) -> Result<Seq<PacketV>, MacaroonError>
    decreases b.len(),
{
    if b.len() == 0 {
        Ok(Seq::empty())
    } else if b.len() < 4 {
        Err(MacaroonError::FramingError)
    } else {
        let n = spec_parse_hex4(b.subrange(0, 4));
        if n < 4 || n > b.len() {
            Err(MacaroonError::FramingError)
        } else {
            let body = b.subrange(4, n);
            let i = spec_split_index(body);
            if i < 0 {
                Err(MacaroonError::KeyValueError)
            } else if !valid_utf8(body.subrange(0, i)) {
                Err(MacaroonError::TextValidityError)
            } else {
                let p = PacketV {
                    tag: body.subrange(0, i),
                    value: spec_value_of(body.subrange(i + 1, body.len() as int)),
                };
                match spec_frame(b.subrange(n, b.len() as int)) {
                    Ok(rest) => Ok(seq![p] + rest),
                    Err(e) => Err(e),
                }
            }
        }
    }
}

/// Reading back the digit written for a nibble yields that nibble.
proof fn lemma_hex_digit_val(v: int)
    requires
        0 <= v < 16,
    ensures
        spec_hex_val(spec_hex_digit(v)) == v,
{
}

/// A header parses back to the size it was written for.
pub proof fn lemma_parse_header(n: int)
    requires
        0 <= n <= MAX_PACKET_LEN,
    ensures
        spec_parse_hex4(spec_header(n)) == n,
{
    let d0 = (n / 4096) % 16;
    let d1 = (n / 256) % 16;
    let d2 = (n / 16) % 16;
    let d3 = n % 16;
    lemma_hex_digit_val(d0);
    lemma_hex_digit_val(d1);
    lemma_hex_digit_val(d2);
    lemma_hex_digit_val(d3);
    lemma_radix_split(n);
}

/// A size below 0x10000 is the weighted sum of its four hex digits.
proof fn lemma_radix_split(n: int)
    requires
        0 <= n <= 0xffff,
    ensures
        n == ((n / 4096) % 16) * 4096 + ((n / 256) % 16) * 256 + ((n / 16) % 16) * 16 + n % 16,
{
    lemma_fundamental_div_mod(n, 16);
    lemma_fundamental_div_mod(n / 16, 16);
    lemma_fundamental_div_mod(n / 256, 16);
    lemma_div_denominator(n, 16, 16);
    lemma_div_denominator(n, 256, 16);
    lemma_multiply_divide_lt(n, 4096, 16);
    lemma_small_mod((n / 4096) as nat, 16);
}

/// Length-header fidelity: the header of a framed packet declares exactly
/// the packet's true byte length, and parses back to it.
pub proof fn lemma_header_fidelity(p: PacketV)
    requires
        frameable(p),
    ensures
        spec_packet_bytes(p).len() == 6 + p.tag.len() + p.value.len(),
        spec_parse_hex4(spec_packet_bytes(p).subrange(0, 4)) == spec_packet_bytes(p).len(),
{
    let n = 6 + p.tag.len() + p.value.len();
    assert(spec_packet_bytes(p).subrange(0, 4) =~= spec_header(n as int));
    lemma_parse_header(n as int);
}

/// If the first space in `s` is at `i`, `spec_split_index` finds it.
proof fn lemma_split_index_at(s: Seq<u8>, i: int)
    requires
        0 <= i < s.len(),
        s[i] == 32,
        forall|j: int| 0 <= j < i ==> s[j] != 32,
    ensures
        spec_split_index(s) == i,
    decreases i,
{
    if i > 0 {
        lemma_split_index_at(s.drop_first(), i - 1);
    }
}

/// If `s` holds no space, `spec_split_index` reports none.
proof fn lemma_split_index_none(s: Seq<u8>)
    requires
        forall|j: int| 0 <= j < s.len() ==> s[j] != 32,
    ensures
        spec_split_index(s) == -1,
    decreases s.len(),
{
    if s.len() > 0 {
        lemma_split_index_none(s.drop_first());
    }
}

/// A concatenation of frameable packets parses back to exactly those packets.
#[verifier::rlimit(60)]
#[verifier::spinoff_prover]
pub proof fn lemma_frame_packets(ps: Seq<PacketV>)
    requires
        forall|i: int| 0 <= i < ps.len() ==> frameable(#[trigger] ps[i]),
    ensures
        spec_frame(spec_packets_bytes(ps)) == Ok::<Seq<PacketV>, MacaroonError>(ps),
    decreases ps.len(),
{
    if ps.len() == 0 {
        assert(spec_frame(spec_packets_bytes(ps)) == Ok::<Seq<PacketV>, MacaroonError>(
            Seq::<PacketV>::empty(),
        ));
        assert(ps =~= Seq::<PacketV>::empty());
    } else {
        let p = ps[0];
        assert(frameable(p));
        let head = spec_packet_bytes(p);
        let rest = spec_packets_bytes(ps.drop_first());
        let b = head + rest;
        assert(spec_packets_bytes(ps) == b);
        let n = 6 + p.tag.len() + p.value.len();
        assert(head.len() == n);
        assert(b.len() >= 4);
        assert(b.subrange(0, 4) =~= spec_header(n as int));
        lemma_parse_header(n as int);
        assert(spec_parse_hex4(b.subrange(0, 4)) == n);
        let body = b.subrange(4, n as int);
        assert(body =~= p.tag + seq![32u8] + p.value + seq![10u8]);
        let ti = p.tag.len() as int;
        assert(body[ti] == 32);
        lemma_split_index_at(body, ti);
        assert(body.subrange(0, ti) =~= p.tag);
        assert(valid_utf8(body.subrange(0, ti)));
        let after = body.subrange(ti + 1, body.len() as int);
        assert(after =~= p.value + seq![10u8]);
        assert(after.last() == 10u8);
        assert(spec_value_of(after) =~= p.value);
        assert(b.subrange(n as int, b.len() as int) =~= rest);
        lemma_frame_packets(ps.drop_first());
        let parsed = PacketV { tag: body.subrange(0, ti), value: spec_value_of(after) };
        assert(parsed =~= p);
        assert(seq![parsed] + ps.drop_first() =~= ps);
    }
}

/// The wire bytes of a single packet, as a one-element sequence.
pub proof fn lemma_packets_bytes_singleton(p: PacketV)
    ensures
        spec_packets_bytes(seq![p]) == spec_packet_bytes(p),
{
    assert(seq![p].drop_first() =~= Seq::<PacketV>::empty());
    assert(spec_packets_bytes(Seq::<PacketV>::empty()) == Seq::<u8>::empty());
    assert(seq![p][0] == p);
    assert(spec_packet_bytes(p) + Seq::<u8>::empty() =~= spec_packet_bytes(p));
}

/// The wire bytes of two packets in a row.
pub proof fn lemma_packets_bytes_pair(a: PacketV, b: PacketV)
    ensures
        spec_packets_bytes(seq![a, b]) == spec_packet_bytes(a) + spec_packet_bytes(b),
{
    assert(seq![a, b].drop_first() =~= seq![b]);
    lemma_packets_bytes_singleton(b);
}

/// Concatenating packet sequences concatenates their wire bytes.
pub proof fn lemma_packets_bytes_append(a: Seq<PacketV>, b: Seq<PacketV>)
    ensures
        spec_packets_bytes(a + b) == spec_packets_bytes(a) + spec_packets_bytes(b),
    decreases a.len(),
{
    if a.len() == 0 {
        assert(a + b =~= b);
        assert(spec_packets_bytes(a) + spec_packets_bytes(b) =~= spec_packets_bytes(b));
    } else {
        assert((a + b)[0] == a[0]);
        assert((a + b).drop_first() =~= a.drop_first() + b);
        lemma_packets_bytes_append(a.drop_first(), b);
        assert(spec_packet_bytes(a[0]) + (spec_packets_bytes(a.drop_first())
            + spec_packets_bytes(b)) =~= (spec_packet_bytes(a[0]) + spec_packets_bytes(
            a.drop_first(),
        )) + spec_packets_bytes(b));
    }
}

/// The lowercase hex digit of a nibble.
fn to_hex_char(v: u8) -> (r: u8)
    requires
        v < 16,
    ensures
        r == spec_hex_digit(v as int),
{
    if v < 10 {
        48 + v
    } else {
        87 + v
    }
}

/// The four-hex-digit header declaring `size`.
pub fn packet_header(size: usize) -> (r: Vec<u8>)
    requires
        size <= MAX_PACKET_LEN,
    ensures
        r@ == spec_header(size as int),
{
    let mut header: Vec<u8> = Vec::new();
    header.push(to_hex_char((size / 4096 % 16) as u8));
    header.push(to_hex_char((size / 256 % 16) as u8));
    header.push(to_hex_char((size / 16 % 16) as u8));
    header.push(to_hex_char((size % 16) as u8));
    proof {
        assert(header@ =~= spec_header(size as int));
    }
    header
}

/// Appends every byte of `data` to `out`.
fn append_bytes(out: &mut Vec<u8>, data: &[u8])
    ensures
        final(out)@ == old(out)@ + data@,
{
    let mut i: usize = 0;
    while i < data.len()
        invariant
            i <= data@.len(),
            out@ == old(out)@ + data@.subrange(0, i as int),
        decreases data@.len() - i,
    {
        out.push(data[i]);
        i = i + 1;
        proof {
            assert(old(out)@ + data@.subrange(0, i - 1 as int) + seq![data@[i - 1]] =~= old(out)@
                + data@.subrange(0, i as int));
        }
    }
    proof {
        assert(data@.subrange(0, data@.len() as int) =~= data@);
    }
}

/// Serializes one (tag, value) pair into a length-prefixed packet.
pub fn serialize_as_packet(tag: &[u8], value: &[u8]) -> (r: Vec<u8>)
    requires
        6 + tag@.len() + value@.len() <= MAX_PACKET_LEN,
    ensures
        r@ == spec_packet_bytes(PacketV { tag: tag@, value: value@ }),
{
    let size = 6 + tag.len() + value.len();
    let mut packet = packet_header(size);
    append_bytes(&mut packet, tag);
    packet.push(32u8);
    append_bytes(&mut packet, value);
    packet.push(10u8);
    proof {
        assert(packet@ =~= spec_packet_bytes(PacketV { tag: tag@, value: value@ }));
    }
    packet
}

/// The numeric value of a hex digit byte, if it is one.
fn hex_val(b: u8) -> (r: Option<u8>)
    ensures
        match r {
            Some(v) => spec_hex_val(b) == v as int,
            None => spec_hex_val(b) < 0,
        },
{
    if 48 <= b && b <= 57 {
        Some(b - 48)
    } else if 97 <= b && b <= 102 {
        Some(b - 87)
    } else if 65 <= b && b <= 70 {
        Some(b - 55)
    } else {
        None
    }
}

/// Parses a four-byte hex length header.
fn parse_hex4(s: &[u8]) -> (r: Option<usize>)
    requires
        s@.len() == 4,
    ensures
        match r {
            Some(n) => spec_parse_hex4(s@) == n as int && n <= MAX_PACKET_LEN,
            None => spec_parse_hex4(s@) == -1,
        },
{
    let v0 = match hex_val(s[0]) {
        Some(v) => v,
        None => {
            return None;
        },
    };
    let v1 = match hex_val(s[1]) {
        Some(v) => v,
        None => {
            return None;
        },
    };
    let v2 = match hex_val(s[2]) {
        Some(v) => v,
        None => {
            return None;
        },
    };
    let v3 = match hex_val(s[3]) {
        Some(v) => v,
        None => {
            return None;
        },
    };
    Some((v0 as usize) * 4096 + (v1 as usize) * 256 + (v2 as usize) * 16 + (v3 as usize))
}

/// The index of the first space in the packet body, if any.
pub fn get_split_index(packet: &[u8]) -> (r: Option<usize>)
    ensures
        match r {
            Some(i) => spec_split_index(packet@) == i as int && i < packet@.len()
                && packet@[i as int] == 32,
            None => spec_split_index(packet@) == -1,
        },
{
    let mut i: usize = 0;
    while i < packet.len()
        invariant
            i <= packet@.len(),
            forall|j: int| 0 <= j < i ==> packet@[j] != 32,
        decreases packet@.len() - i,
    {
        if packet[i] == 32 {
            proof {
                lemma_split_index_at(packet@, i as int);
            }
            return Some(i);
        }
        i = i + 1;
    }
    proof {
        lemma_split_index_none(packet@);
    }
    None
}

/// Composes the packets already parsed with the result of parsing the rest.
spec fn frame_compose(pre: Seq<PacketV>, r: Result<Seq<PacketV>, MacaroonError>) -> Result<
    Seq<PacketV>,
    MacaroonError,
> {
    match r {
        Ok(ps) => Ok(pre + ps),
        Err(e) => Err(e),
    }
}

/// Parses a byte buffer into its sequence of raw packets, rejecting packets
/// whose tag bytes are not valid text. An empty buffer is valid input
/// producing zero packets.
pub fn deserialize_as_packets(data: &[u8]) -> (r: Result<Vec<Packet>, MacaroonError>)
    ensures
        match r {
            Ok(ps) => spec_frame(data@) == Ok::<Seq<PacketV>, MacaroonError>(
                ps@.map_values(|p: Packet| p@),
            ),
            Err(e) => spec_frame(data@) == Err::<Seq<PacketV>, MacaroonError>(e),
        },
{
    let mut packets: Vec<Packet> = Vec::new();
    let mut pos: usize = 0;
    let len = data.len();
    proof {
        assert(data@.subrange(0, len as int) =~= data@);
        assert(packets@.map_values(|p: Packet| p@) =~= Seq::<PacketV>::empty());
        match spec_frame(data@) {
            Ok(ps) => {
                assert(Seq::<PacketV>::empty() + ps =~= ps);
            },
            Err(_) => {},
        }
    }
    while pos < len
        invariant
            pos <= len,
            len == data@.len(),
            spec_frame(data@) == frame_compose(
                packets@.map_values(|p: Packet| p@),
                spec_frame(data@.subrange(pos as int, len as int)),
            ),
        decreases len - pos,
    {
        let ghost suffix = data@.subrange(pos as int, len as int);
        let remaining = len - pos;
        if remaining < 4 {
            return Err(MacaroonError::FramingError);
        }
        let header = slice_subrange(data, pos, pos + 4);
        proof {
            assert(header@ =~= suffix.subrange(0, 4));
        }
        let n = match parse_hex4(header) {
            Some(n) => n,
            None => {
                return Err(MacaroonError::FramingError);
            },
        };
        if n < 4 || n > remaining {
            return Err(MacaroonError::FramingError);
        }
        let body = slice_subrange(data, pos + 4, pos + n);
        proof {
            assert(body@ =~= suffix.subrange(4, n as int));
        }
        let i = match get_split_index(body) {
            Some(i) => i,
            None => {
                return Err(MacaroonError::KeyValueError);
            },
        };
        let tag = slice_to_vec(slice_subrange(body, 0, i));
        if bytes_to_string(tag.as_slice()).is_none() {
            return Err(MacaroonError::TextValidityError);
        }
        let after = slice_subrange(body, i + 1, body.len());
        let value = if after.len() > 0 && after[after.len() - 1] == 10 {
            slice_to_vec(slice_subrange(after, 0, after.len() - 1))
        } else {
            slice_to_vec(after)
        };
        proof {
            assert(after@ == body@.subrange(i + 1, body@.len() as int));
            if after@.len() > 0 && after@.last() == 10u8 {
                assert(after@.subrange(0, after@.len() - 1) =~= after@.drop_last());
            }
            assert(value@ == spec_value_of(after@));
        }
        let packet = Packet { tag, value };
        let ghost expected = PacketV {
            tag: suffix.subrange(4, n as int).subrange(0, i as int),
            value: spec_value_of(
                suffix.subrange(4, n as int).subrange(i + 1, suffix.subrange(4, n as int).len() as int),
            ),
        };
        proof {
            assert(packet@ =~= expected);
        }
        let ghost old_packets = packets@;
        packets.push(packet);
        proof {
            let suffix2 = data@.subrange(pos + n as int, len as int);
            assert(suffix.subrange(n as int, suffix.len() as int) =~= suffix2);
            assert(spec_frame(suffix) == match spec_frame(suffix2) {
                Ok(rest) => Ok::<Seq<PacketV>, MacaroonError>(seq![expected] + rest),
                Err(e) => Err::<Seq<PacketV>, MacaroonError>(e),
            });
            assert(packets@.map_values(|p: Packet| p@) =~= old_packets.map_values(
                |p: Packet| p@,
            ).push(expected));
            match spec_frame(suffix2) {
                Ok(rest) => {
                    assert(old_packets.map_values(|p: Packet| p@) + (seq![expected] + rest)
                        =~= packets@.map_values(|p: Packet| p@) + rest);
                },
                Err(_) => {},
            }
        }
        pos = pos + n;
    }
    proof {
        assert(data@.subrange(pos as int, len as int) =~= Seq::<u8>::empty());
        assert(packets@.map_values(|p: Packet| p@) + Seq::<PacketV>::empty() =~= packets@.map_values(
            |p: Packet| p@,
        ));
    }
    Ok(packets)
}

} // verus!
