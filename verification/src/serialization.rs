//! The format registry and the V1 codec entry points.
//!
//! `serialize` maps a format selector to that format's encoder; `deserialize`
//! is the matching single entry point for decoding. V1 is fully implemented:
//! a token becomes a packet stream (location, identifier, the caveat chain in
//! order, signature), base64-encoded for transport. V2 and V2-JSON are
//! extension points that share the token data model and the error taxonomy;
//! until they carry a codec, requesting them fails with a not-implemented
//! error rather than silently returning an empty result.

use vstd::prelude::*;
use vstd::slice::slice_index_get;

use crate::text::{lemma_ascii_valid_utf8, spec_trim};

use crate::assemble::{
    assemble, cid_tag, cl_tag, flush, identifier_tag, init_caveat, init_token, location_tag,
    signature_tag, spec_assemble, spec_assemble_from, spec_cid_tag, spec_cl_tag,
    spec_identifier_tag, spec_location_tag, spec_signature_tag, spec_vid_tag, vid_tag,
};
use crate::base64::{b64_decode_of, b64_of, base64_decode, base64_encode};
use crate::error::MacaroonError;
use crate::packet::{
    deserialize_as_packets, frameable, lemma_frame_packets, lemma_packets_bytes_append,
    lemma_packets_bytes_pair, lemma_packets_bytes_singleton, serialize_as_packet, spec_frame,
    spec_packet_bytes, spec_packets_bytes, PacketV,
};
use crate::token::{wf_caveat, wf_token, CaveatV, Token, TokenV, MAX_PACKET_LEN};

verus! {

/// The wire formats the registry knows of.
#[derive(Clone, Copy, Debug, PartialEq, Eq, Structural)]
pub enum Format {
    /// The packet-stream format, base64-encoded: fully implemented.
    V1,
    /// The compact binary format: an extension point, no codec yet.
    V2,
    /// The JSON-based format: an extension point, no codec yet.
    V2J,
}

/// The packets that serialize one caveat: `cid`, then `vid` and `cl` where
/// those fields are present.
pub open spec fn spec_caveat_packets(c: CaveatV) -> Seq<PacketV> {
    seq![PacketV { tag: spec_cid_tag(), value: c.id }] + (match c.verifier_id {
        Some(v) => seq![PacketV { tag: spec_vid_tag(), value: v }],
        None => Seq::<PacketV>::empty(),
    }) + (match c.location {
        Some(l) => seq![PacketV { tag: spec_cl_tag(), value: l }],
        None => Seq::<PacketV>::empty(),
    })
}

/// The packets of a caveat chain, in order.
pub open spec fn spec_caveats_packets(cs: Seq<CaveatV>) -> Seq<PacketV>
    decreases cs.len(),
{
    if cs.len() == 0 {
        Seq::empty()
    } else {
        spec_caveat_packets(cs[0]) + spec_caveats_packets(cs.drop_first())
    }
}

/// The full V1 packet sequence of a token: location, identifier, the caveat
/// chain, and the terminal signature.
pub open spec fn spec_token_packets(t: TokenV) -> Seq<PacketV> {
    seq![
        PacketV { tag: spec_location_tag(), value: t.location },
        PacketV { tag: spec_identifier_tag(), value: t.identifier },
    ] + spec_caveats_packets(t.caveats) + seq![
        PacketV { tag: spec_signature_tag(), value: t.signature },
    ]
}

/// Whether every field of the caveat is short enough for its packet length
/// to fit the four-hex-digit header.
pub open spec fn spec_caveat_sizes_ok(c: CaveatV) -> bool {
    &&& c.id.len() + 9 <= MAX_PACKET_LEN
    &&& match c.verifier_id {
        Some(v) => v.len() + 9 <= MAX_PACKET_LEN,
        None => true,
    }
    &&& match c.location {
        Some(l) => l.len() + 8 <= MAX_PACKET_LEN,
        None => true,
    }
}

/// Whether every packet of the token fits the length header. Serialization
/// fails, rather than wrapping a length, where this does not hold.
pub open spec fn spec_sizes_ok(t: TokenV) -> bool {
    &&& t.location.len() + 14 <= MAX_PACKET_LEN
    &&& t.identifier.len() + 16 <= MAX_PACKET_LEN
    &&& forall|i: int| 0 <= i < t.caveats.len() ==> spec_caveat_sizes_ok(#[trigger] t.caveats[i])
}

/// What V1 serialization returns: the base64 text of the token's packet
/// stream where every packet fits, and a framing error otherwise.
pub open spec fn spec_serialize_v1_post(t: TokenV, r: Result<String, MacaroonError>) -> bool {
    &&& r is Ok <==> spec_sizes_ok(t)
    &&& (r matches Ok(s) ==> s@ == b64_of(spec_packets_bytes(spec_token_packets(t))))
    &&& (r is Err ==> r == Err::<String, MacaroonError>(MacaroonError::FramingError))
}

/// The token that V1 deserialization reads out of a byte buffer: the buffer
/// is framed into packets and the packets assembled into a token.
pub open spec fn spec_deserialize_bytes(b: Seq<u8>) -> Result<TokenV, MacaroonError> {
    match spec_frame(b) {
        Ok(ps) => spec_assemble(ps),
        Err(e) => Err(e),
    }
}

/// The view of a deserialization result: the token's view in the `Ok` case.
pub open spec fn spec_result_view(r: Result<Token, MacaroonError>) -> Result<
    TokenV,
    MacaroonError,
> {
    match r {
        Ok(t) => Ok(t@),
        Err(e) => Err(e),
    }
}

/// What V1 deserialization returns for the input text: a decode error where
/// the base64 envelope is rejected, otherwise exactly the token (or error)
/// that the decoded bytes frame and assemble to. In particular, on the
/// encoding of any byte string it returns what those bytes frame and
/// assemble to, which joins this contract to `serialize_v1`'s.
pub open spec fn spec_deserialize_v1_post(d: Seq<char>, r: Result<Token, MacaroonError>) -> bool {
    &&& match b64_decode_of(d) {
        None => r == Err::<Token, MacaroonError>(MacaroonError::DecodeError),
        Some(b) => match spec_deserialize_bytes(b) {
            Ok(tv) => r matches Ok(t) && t@ == tv,
            Err(e) => r == Err::<Token, MacaroonError>(e),
        },
    }
    &&& forall|b: Seq<u8>| d == #[trigger] b64_of(b) ==> spec_result_view(r)
        == spec_deserialize_bytes(b)
}

/// The wire bytes of one caveat's packets, written out.
proof fn lemma_caveat_packets_bytes(c: CaveatV)
    ensures
        spec_packets_bytes(spec_caveat_packets(c)) == spec_packet_bytes(
            PacketV { tag: spec_cid_tag(), value: c.id },
        ) + (match c.verifier_id {
            Some(v) => spec_packet_bytes(PacketV { tag: spec_vid_tag(), value: v }),
            None => Seq::<u8>::empty(),
        }) + (match c.location {
            Some(l) => spec_packet_bytes(PacketV { tag: spec_cl_tag(), value: l }),
            None => Seq::<u8>::empty(),
        }),
{
    let cidp = PacketV { tag: spec_cid_tag(), value: c.id };
    match c.verifier_id {
        Some(v) => {
            let vidp = PacketV { tag: spec_vid_tag(), value: v };
            match c.location {
                Some(l) => {
                    let clp = PacketV { tag: spec_cl_tag(), value: l };
                    assert(spec_caveat_packets(c) =~= seq![cidp, vidp] + seq![clp]);
                    lemma_packets_bytes_append(seq![cidp, vidp], seq![clp]);
                    lemma_packets_bytes_pair(cidp, vidp);
                    lemma_packets_bytes_singleton(clp);
                },
                None => {
                    assert(spec_caveat_packets(c) =~= seq![cidp, vidp]);
                    lemma_packets_bytes_pair(cidp, vidp);
                    assert(spec_packet_bytes(cidp) + spec_packet_bytes(vidp) + Seq::<u8>::empty()
                        =~= spec_packet_bytes(cidp) + spec_packet_bytes(vidp));
                },
            }
        },
        None => {
            match c.location {
                Some(l) => {
                    let clp = PacketV { tag: spec_cl_tag(), value: l };
                    assert(spec_caveat_packets(c) =~= seq![cidp, clp]);
                    lemma_packets_bytes_pair(cidp, clp);
                    assert(spec_packet_bytes(cidp) + Seq::<u8>::empty() + spec_packet_bytes(clp)
                        =~= spec_packet_bytes(cidp) + spec_packet_bytes(clp));
                },
                None => {
                    assert(spec_caveat_packets(c) =~= seq![cidp]);
                    lemma_packets_bytes_singleton(cidp);
                    assert(spec_packet_bytes(cidp) + Seq::<u8>::empty() + Seq::<u8>::empty()
                        =~= spec_packet_bytes(cidp));
                },
            }
        },
    }
}

/// Extending the serialized prefix of a caveat chain by one caveat.
proof fn lemma_caveats_packets_snoc(cs: Seq<CaveatV>, i: int)
    requires
        0 <= i < cs.len(),
    ensures
        spec_caveats_packets(cs.subrange(0, i + 1)) == spec_caveats_packets(cs.subrange(0, i))
            + spec_caveat_packets(cs[i]),
    decreases i,
{
    if i == 0 {
        assert(cs.subrange(0, 1)[0] == cs[0]);
        assert(cs.subrange(0, 1).drop_first() =~= Seq::<CaveatV>::empty());
        assert(spec_caveats_packets(Seq::<CaveatV>::empty()) == Seq::<PacketV>::empty());
        assert(spec_caveats_packets(cs.subrange(0, 1)) == spec_caveat_packets(cs[0])
            + Seq::<PacketV>::empty());
        assert(spec_caveats_packets(cs.subrange(0, 0)) == Seq::<PacketV>::empty());
        assert(spec_caveat_packets(cs[0]) + Seq::<PacketV>::empty() =~= spec_caveat_packets(
            cs[0],
        ));
        assert(Seq::<PacketV>::empty() + spec_caveat_packets(cs[0]) =~= spec_caveat_packets(
            cs[0],
        ));
    } else {
        let a = cs.subrange(0, i + 1);
        let b = cs.subrange(0, i);
        assert(a[0] == cs[0]);
        assert(b[0] == cs[0]);
        assert(a.drop_first() =~= cs.drop_first().subrange(0, i));
        assert(b.drop_first() =~= cs.drop_first().subrange(0, i - 1));
        lemma_caveats_packets_snoc(cs.drop_first(), i - 1);
        assert(cs.drop_first()[i - 1] == cs[i]);
        assert(cs.drop_first().subrange(0, i - 1 + 1) == cs.drop_first().subrange(0, i));
        assert(spec_caveats_packets(a) == spec_caveat_packets(cs[0]) + spec_caveats_packets(
            cs.drop_first().subrange(0, i),
        ));
        assert(spec_caveats_packets(b) == spec_caveat_packets(cs[0]) + spec_caveats_packets(
            cs.drop_first().subrange(0, i - 1),
        ));
        assert(spec_caveat_packets(a[0]) + (spec_caveats_packets(cs.drop_first().subrange(0, i - 1))
            + spec_caveat_packets(cs[i])) =~= (spec_caveat_packets(b[0]) + spec_caveats_packets(
            cs.drop_first().subrange(0, i - 1),
        )) + spec_caveat_packets(cs[i]));
    }
}

/// Serializes a token into the V1 transport text: the packet stream of
/// location, identifier, caveats and signature, base64-encoded. Fails with a
/// framing error exactly where some field is too long for the four-hex-digit
/// packet length header.
#[verifier::loop_isolation(false)]
#[verifier::rlimit(60)]
pub fn serialize_v1(token: &Token) -> (r: Result<String, MacaroonError>)
    requires
        token@.signature.len() == 32,
    ensures
        spec_serialize_v1_post(token@, r),
{
    let ghost t = token@;
    let loc_bytes = token.location.as_str().as_bytes();
    if loc_bytes.len() > MAX_PACKET_LEN - 14 {
        return Err(MacaroonError::FramingError);
    }
    let ident_bytes = token.identifier.as_str().as_bytes();
    if ident_bytes.len() > MAX_PACKET_LEN - 16 {
        return Err(MacaroonError::FramingError);
    }
    let ghost locp = PacketV { tag: spec_location_tag(), value: t.location };
    let ghost idp = PacketV { tag: spec_identifier_tag(), value: t.identifier };
    let ghost sigp = PacketV { tag: spec_signature_tag(), value: t.signature };
    let lt = location_tag();
    let mut data = serialize_as_packet(lt.as_slice(), loc_bytes);
    let it = identifier_tag();
    let mut pkt = serialize_as_packet(it.as_slice(), ident_bytes);
    data.append(&mut pkt);
    proof {
        assert(data@ == spec_packet_bytes(locp) + spec_packet_bytes(idp));
    }
    let ct = cid_tag();
    let vt = vid_tag();
    let clt = cl_tag();
    let n = token.caveats.len();
    let mut i: usize = 0;
    while i < n
        invariant
            i <= n,
            data@ == spec_packet_bytes(locp) + spec_packet_bytes(idp) + spec_packets_bytes(
                spec_caveats_packets(t.caveats.subrange(0, i as int)),
            ),
            forall|j: int| 0 <= j < i ==> spec_caveat_sizes_ok(#[trigger] t.caveats[j]),
        decreases n - i,
    {
        let c = slice_index_get(token.caveats.as_slice(), i);
        let ghost cv = t.caveats[i as int];
        proof {
            assert(cv == c@);
        }
        let id_bytes = c.id.as_str().as_bytes();
        if id_bytes.len() > MAX_PACKET_LEN - 9 {
            proof {
                assert(!spec_caveat_sizes_ok(cv));
            }
            return Err(MacaroonError::FramingError);
        }
        let mut cpkt = serialize_as_packet(ct.as_slice(), id_bytes);
        data.append(&mut cpkt);
        match &c.verifier_id {
            Some(v) => {
                let v_bytes = v.as_str().as_bytes();
                if v_bytes.len() > MAX_PACKET_LEN - 9 {
                    proof {
                        assert(!spec_caveat_sizes_ok(cv));
                    }
                    return Err(MacaroonError::FramingError);
                }
                let mut vpkt = serialize_as_packet(vt.as_slice(), v_bytes);
                data.append(&mut vpkt);
            },
            None => {},
        }
        match &c.location {
            Some(l) => {
                let l_bytes = l.as_str().as_bytes();
                if l_bytes.len() > MAX_PACKET_LEN - 8 {
                    proof {
                        assert(!spec_caveat_sizes_ok(cv));
                    }
                    return Err(MacaroonError::FramingError);
                }
                let mut lpkt = serialize_as_packet(clt.as_slice(), l_bytes);
                data.append(&mut lpkt);
            },
            None => {},
        }
        proof {
            lemma_caveat_packets_bytes(cv);
            lemma_caveats_packets_snoc(t.caveats, i as int);
            lemma_packets_bytes_append(
                spec_caveats_packets(t.caveats.subrange(0, i as int)),
                spec_caveat_packets(cv),
            );
            assert(data@ =~= spec_packet_bytes(locp) + spec_packet_bytes(idp)
                + spec_packets_bytes(spec_caveats_packets(t.caveats.subrange(0, i + 1))));
        }
        i = i + 1;
    }
    let st = signature_tag();
    let mut spkt = serialize_as_packet(st.as_slice(), token.signature.as_slice());
    data.append(&mut spkt);
    proof {
        assert(t.caveats.subrange(0, n as int) =~= t.caveats);
        lemma_packets_bytes_pair(locp, idp);
        lemma_packets_bytes_singleton(sigp);
        lemma_packets_bytes_append(seq![locp, idp], spec_caveats_packets(t.caveats));
        lemma_packets_bytes_append(
            seq![locp, idp] + spec_caveats_packets(t.caveats),
            seq![sigp],
        );
        assert(data@ =~= spec_packets_bytes(spec_token_packets(t)));
    }
    Ok(base64_encode(data.as_slice()))
}

/// Would serialize a token in the compact binary V2 format; that codec is
/// not implemented yet.
pub fn serialize_v2(token: &Token) -> (r: Result<String, MacaroonError>)
    ensures
        r == Err::<String, MacaroonError>(MacaroonError::NotImplementedError),
{
    Err(MacaroonError::NotImplementedError)
}

/// Would serialize a token in the JSON-based V2 format; that codec is not
/// implemented yet.
pub fn serialize_v2j(token: &Token) -> (r: Result<String, MacaroonError>)
    ensures
        r == Err::<String, MacaroonError>(MacaroonError::NotImplementedError),
{
    Err(MacaroonError::NotImplementedError)
}

/// Deserializes a V1 transport text: base64-decodes the envelope, frames the
/// bytes into packets, and assembles the packets into a token.
pub fn deserialize_v1(data: &str) -> (r: Result<Token, MacaroonError>)
    ensures
        spec_deserialize_v1_post(data@, r),
{
    let bytes = match base64_decode(data) {
        Some(v) => v,
        None => {
            return Err(MacaroonError::DecodeError);
        },
    };
    let packets = match deserialize_as_packets(bytes.as_slice()) {
        Ok(ps) => ps,
        Err(e) => {
            return Err(e);
        },
    };
    assemble(&packets)
}

/// Would deserialize the compact binary V2 format; that codec is not
/// implemented yet.
pub fn deserialize_v2(data: &str) -> (r: Result<Token, MacaroonError>)
    ensures
        r == Err::<Token, MacaroonError>(MacaroonError::NotImplementedError),
{
    Err(MacaroonError::NotImplementedError)
}

/// Would deserialize the JSON-based V2 format; that codec is not implemented
/// yet.
pub fn deserialize_v2j(data: &str) -> (r: Result<Token, MacaroonError>)
    ensures
        r == Err::<Token, MacaroonError>(MacaroonError::NotImplementedError),
{
    Err(MacaroonError::NotImplementedError)
}

/// The registry's single serialization entry point: maps the format selector
/// to that format's encoder.
pub fn serialize(token: &Token, format: Format) -> (r: Result<String, MacaroonError>)
    requires
        token@.signature.len() == 32,
    ensures
        match format {
            Format::V1 => spec_serialize_v1_post(token@, r),
            Format::V2 | Format::V2J => r == Err::<String, MacaroonError>(
                MacaroonError::NotImplementedError,
            ),
        },
{
    match format {
        Format::V1 => serialize_v1(token),
        Format::V2 => serialize_v2(token),
        Format::V2J => serialize_v2j(token),
    }
}

/// The registry's single deserialization entry point. V1 is the only format
/// with a codec, so every input is read as V1; sniffing other envelopes is
/// an extension point alongside their codecs.
pub fn deserialize(data: &str) -> (r: Result<Token, MacaroonError>)
    ensures
        spec_deserialize_v1_post(data@, r),
{
    deserialize_v1(data)
}

/// Every packet that serializes a well-formed caveat chain is frameable.
proof fn lemma_caveats_packets_frameable(cs: Seq<CaveatV>)
    requires
        forall|i: int| 0 <= i < cs.len() ==> wf_caveat(#[trigger] cs[i]),
    ensures
        forall|i: int|
            0 <= i < spec_caveats_packets(cs).len() ==> frameable(
                #[trigger] spec_caveats_packets(cs)[i],
            ),
    decreases cs.len(),
{
    if cs.len() > 0 {
        let c = cs[0];
        assert(wf_caveat(c));
        let cps = spec_caveat_packets(c);
        let tail = spec_caveats_packets(cs.drop_first());
        assert(spec_caveats_packets(cs) == cps + tail);
        assert(forall|i: int| 0 <= i < cs.drop_first().len() ==> wf_caveat(
            #[trigger] cs.drop_first()[i],
        )) by {
            assert(forall|i: int|
                0 <= i < cs.drop_first().len() ==> cs.drop_first()[i] == cs[i + 1]);
        }
        lemma_caveats_packets_frameable(cs.drop_first());
        assert(forall|j: int| 0 <= j < spec_cid_tag().len() ==> spec_cid_tag()[j] != 32);
        assert(forall|j: int| 0 <= j < spec_vid_tag().len() ==> spec_vid_tag()[j] != 32);
        assert(forall|j: int| 0 <= j < spec_cl_tag().len() ==> spec_cl_tag()[j] != 32);
        assert(forall|j: int| 0 <= j < spec_cid_tag().len() ==> spec_cid_tag()[j] < 128);
        assert(forall|j: int| 0 <= j < spec_vid_tag().len() ==> spec_vid_tag()[j] < 128);
        assert(forall|j: int| 0 <= j < spec_cl_tag().len() ==> spec_cl_tag()[j] < 128);
        lemma_ascii_valid_utf8(spec_cid_tag());
        lemma_ascii_valid_utf8(spec_vid_tag());
        lemma_ascii_valid_utf8(spec_cl_tag());
        assert(forall|i: int| 0 <= i < cps.len() ==> frameable(#[trigger] cps[i]));
        assert(forall|i: int| 0 <= i < spec_caveats_packets(cs).len() ==> frameable(
            #[trigger] spec_caveats_packets(cs)[i],
        )) by {
            assert(forall|i: int|
                0 <= i < spec_caveats_packets(cs).len() ==> spec_caveats_packets(cs)[i] == (
                if i < cps.len() {
                    cps[i]
                } else {
                    tail[i - cps.len()]
                }));
        }
    }
}

/// Every packet that serializes a well-formed token is frameable.
proof fn lemma_token_packets_frameable(t: TokenV)
    requires
        wf_token(t),
    ensures
        forall|i: int|
            0 <= i < spec_token_packets(t).len() ==> frameable(
                #[trigger] spec_token_packets(t)[i],
            ),
{
    let locp = PacketV { tag: spec_location_tag(), value: t.location };
    let idp = PacketV { tag: spec_identifier_tag(), value: t.identifier };
    let sigp = PacketV { tag: spec_signature_tag(), value: t.signature };
    let cp = spec_caveats_packets(t.caveats);
    lemma_caveats_packets_frameable(t.caveats);
    assert(forall|j: int| 0 <= j < spec_location_tag().len() ==> spec_location_tag()[j] != 32);
    assert(forall|j: int| 0 <= j < spec_identifier_tag().len() ==> spec_identifier_tag()[j]
        != 32);
    assert(forall|j: int| 0 <= j < spec_signature_tag().len() ==> spec_signature_tag()[j] != 32);
    assert(forall|j: int| 0 <= j < spec_location_tag().len() ==> spec_location_tag()[j] < 128);
    assert(forall|j: int| 0 <= j < spec_identifier_tag().len() ==> spec_identifier_tag()[j]
        < 128);
    assert(forall|j: int| 0 <= j < spec_signature_tag().len() ==> spec_signature_tag()[j] < 128);
    lemma_ascii_valid_utf8(spec_location_tag());
    lemma_ascii_valid_utf8(spec_identifier_tag());
    lemma_ascii_valid_utf8(spec_signature_tag());
    assert(frameable(locp));
    assert(frameable(idp));
    assert(frameable(sigp));
    assert(forall|i: int| 0 <= i < spec_token_packets(t).len() ==> frameable(
        #[trigger] spec_token_packets(t)[i],
    )) by {
        assert(forall|i: int|
            0 <= i < spec_token_packets(t).len() ==> spec_token_packets(t)[i] == (if i == 0 {
                locp
            } else if i == 1 {
                idp
            } else if i < 2 + cp.len() {
                cp[i - 2]
            } else {
                sigp
            }));
    }
}

/// Walking the packets of a well-formed caveat chain carries the assembler
/// from any state to the state holding all but the last caveat finalized and
/// the last one open in the accumulator.
proof fn lemma_assemble_caveats(
    cs: Seq<CaveatV>,
    rest: Seq<PacketV>,
    tok: TokenV,
    acc: CaveatV,
    saw: bool,
)
    requires
        cs.len() > 0,
        forall|i: int| 0 <= i < cs.len() ==> wf_caveat(#[trigger] cs[i]),
        acc.id.len() == 0 ==> acc == init_caveat(),
    ensures
        spec_assemble_from(spec_caveats_packets(cs) + rest, tok, acc, saw) == spec_assemble_from(
            rest,
            TokenV { caveats: tok.caveats + flush(acc) + cs.subrange(0, cs.len() - 1), ..tok },
            cs.last(),
            saw,
        ),
    decreases cs.len(),
{
    let c = cs[0];
    assert(wf_caveat(c));
    let cps = spec_caveat_packets(c);
    let tail = spec_caveats_packets(cs.drop_first());
    let all = spec_caveats_packets(cs) + rest;
    assert(spec_caveats_packets(cs) == cps + tail);
    assert(all =~= cps + (tail + rest));
    let cidp = PacketV { tag: spec_cid_tag(), value: c.id };
    let tok1 = TokenV { caveats: tok.caveats + flush(acc), ..tok };
    let acc1 = CaveatV { id: c.id, verifier_id: None, location: None };
    assert(spec_cid_tag().len() == 3 && spec_vid_tag().len() == 3 && spec_cl_tag().len() == 2
        && spec_location_tag().len() == 8 && spec_identifier_tag().len() == 10
        && spec_signature_tag().len() == 9);
    assert(spec_vid_tag() != spec_cid_tag()) by {
        assert(spec_vid_tag()[0] == 118u8);
        assert(spec_cid_tag()[0] == 99u8);
    }
    // the cid step, from either accumulator state, reaches (tok1, acc1)
    match c.verifier_id {
        Some(v) => {
            let vidp = PacketV { tag: spec_vid_tag(), value: v };
            match c.location {
                Some(l) => {
                    let clp = PacketV { tag: spec_cl_tag(), value: l };
                    assert(cps =~= seq![cidp, vidp, clp]);
                    assert(all[0] == cidp);
                    let all1 = all.drop_first();
                    assert(all1 =~= seq![vidp, clp] + (tail + rest));
                    lemma_cid_step(all, tok, acc, saw, c, tok1, acc1);
                    assert(all1[0] == vidp);
                    let all2 = all1.drop_first();
                    assert(all2 =~= seq![clp] + (tail + rest));
                    let acc2 = CaveatV { id: c.id, verifier_id: Some(v), location: None };
                    assert(CaveatV { verifier_id: Some(spec_trim(v)), ..acc1 } =~= acc2);
                    assert(spec_assemble_from(all1, tok1, acc1, saw) == spec_assemble_from(
                        all2,
                        tok1,
                        acc2,
                        saw,
                    ));
                    assert(all2[0] == clp);
                    let all3 = all2.drop_first();
                    assert(all3 =~= tail + rest);
                    assert(CaveatV { location: Some(spec_trim(l)), ..acc2 } =~= c);
                    assert(spec_assemble_from(all2, tok1, acc2, saw) == spec_assemble_from(
                        all3,
                        tok1,
                        c,
                        saw,
                    ));
                },
                None => {
                    assert(cps =~= seq![cidp, vidp]);
                    assert(all[0] == cidp);
                    let all1 = all.drop_first();
                    assert(all1 =~= seq![vidp] + (tail + rest));
                    lemma_cid_step(all, tok, acc, saw, c, tok1, acc1);
                    assert(all1[0] == vidp);
                    let all2 = all1.drop_first();
                    assert(all2 =~= tail + rest);
                    assert(CaveatV { verifier_id: Some(spec_trim(v)), ..acc1 } =~= c);
                    assert(spec_assemble_from(all1, tok1, acc1, saw) == spec_assemble_from(
                        all2,
                        tok1,
                        c,
                        saw,
                    ));
                },
            }
        },
        None => {
            match c.location {
                Some(l) => {
                    let clp = PacketV { tag: spec_cl_tag(), value: l };
                    assert(cps =~= seq![cidp, clp]);
                    assert(all[0] == cidp);
                    let all1 = all.drop_first();
                    assert(all1 =~= seq![clp] + (tail + rest));
                    lemma_cid_step(all, tok, acc, saw, c, tok1, acc1);
                    assert(all1[0] == clp);
                    let all2 = all1.drop_first();
                    assert(all2 =~= tail + rest);
                    assert(CaveatV { location: Some(spec_trim(l)), ..acc1 } =~= c);
                    assert(spec_assemble_from(all1, tok1, acc1, saw) == spec_assemble_from(
                        all2,
                        tok1,
                        c,
                        saw,
                    ));
                },
                None => {
                    assert(cps =~= seq![cidp]);
                    assert(all[0] == cidp);
                    let all1 = all.drop_first();
                    assert(all1 =~= tail + rest);
                    assert(acc1 =~= c);
                    lemma_cid_step(all, tok, acc, saw, c, tok1, acc1);
                },
            }
        },
    }
    assert(spec_assemble_from(all, tok, acc, saw) == spec_assemble_from(
        tail + rest,
        tok1,
        c,
        saw,
    ));
    if cs.len() == 1 {
        assert(tail == Seq::<PacketV>::empty());
        assert(tail + rest =~= rest);
        assert(cs.subrange(0, 0) =~= Seq::<CaveatV>::empty());
        assert(tok.caveats + flush(acc) + cs.subrange(0, 0) =~= tok.caveats + flush(acc));
        assert(TokenV { caveats: tok.caveats + flush(acc) + cs.subrange(0, 0), ..tok } =~= tok1);
        assert(cs.last() == c);
    } else {
        assert(forall|i: int| 0 <= i < cs.drop_first().len() ==> wf_caveat(
            #[trigger] cs.drop_first()[i],
        )) by {
            assert(forall|i: int|
                0 <= i < cs.drop_first().len() ==> cs.drop_first()[i] == cs[i + 1]);
        }
        lemma_assemble_caveats(cs.drop_first(), rest, tok1, c, saw);
        assert(flush(c) == seq![c]);
        assert(cs.drop_first().last() == cs.last());
        assert(cs.drop_first().subrange(0, cs.drop_first().len() - 1) =~= cs.subrange(
            1,
            cs.len() - 1,
        ));
        assert(tok1.caveats + flush(c) + cs.subrange(1, cs.len() - 1) =~= tok.caveats + flush(
            acc,
        ) + cs.subrange(0, cs.len() - 1));
        assert(TokenV {
            caveats: tok1.caveats + flush(c) + cs.drop_first().subrange(
                0,
                cs.drop_first().len() - 1,
            ),
            ..tok1
        } =~= TokenV { caveats: tok.caveats + flush(acc) + cs.subrange(0, cs.len() - 1), ..tok });
    }
}

/// One `cid` packet at the head of the stream: from either accumulator
/// state, the assembler finalizes any open caveat and opens one for `c`.
proof fn lemma_cid_step(
    all: Seq<PacketV>,
    tok: TokenV,
    acc: CaveatV,
    saw: bool,
    c: CaveatV,
    tok1: TokenV,
    acc1: CaveatV,
)
    requires
        wf_caveat(c),
        acc.id.len() == 0 ==> acc == init_caveat(),
        all.len() > 0,
        all[0] == (PacketV { tag: spec_cid_tag(), value: c.id }),
        tok1 == (TokenV { caveats: tok.caveats + flush(acc), ..tok }),
        acc1 == (CaveatV { id: c.id, verifier_id: None, location: None }),
    ensures
        spec_assemble_from(all, tok, acc, saw) == spec_assemble_from(
            all.drop_first(),
            tok1,
            acc1,
            saw,
        ),
{
    assert(spec_cid_tag().len() == 3 && spec_location_tag().len() == 8
        && spec_identifier_tag().len() == 10 && spec_signature_tag().len() == 9);
    if acc.id.len() == 0 {
        assert(CaveatV { id: spec_trim(c.id), ..acc } =~= acc1);
        assert(tok.caveats + flush(acc) =~= tok.caveats);
        assert(tok1 =~= tok);
    } else {
        assert(tok.caveats.push(acc) =~= tok.caveats + flush(acc));
    }
}

/// The caveat-grouping walk: assembling the serialized packets of any
/// well-formed token reconstructs exactly that token.
pub proof fn lemma_assemble_token(t: TokenV)
    requires
        wf_token(t),
    ensures
        spec_assemble(spec_token_packets(t)) == Ok::<TokenV, MacaroonError>(t),
{
    let locp = PacketV { tag: spec_location_tag(), value: t.location };
    let idp = PacketV { tag: spec_identifier_tag(), value: t.identifier };
    let sigp = PacketV { tag: spec_signature_tag(), value: t.signature };
    let cp = spec_caveats_packets(t.caveats);
    let all = spec_token_packets(t);
    assert(spec_location_tag().len() == 8 && spec_identifier_tag().len() == 10
        && spec_signature_tag().len() == 9);
    assert(all =~= seq![locp] + (seq![idp] + (cp + seq![sigp])));
    assert(all[0] == locp);
    let all1 = all.drop_first();
    assert(all1 =~= seq![idp] + (cp + seq![sigp]));
    let tok1 = TokenV { location: t.location, ..init_token() };
    assert(TokenV { location: spec_trim(t.location), ..init_token() } =~= tok1);
    assert(spec_assemble_from(all, init_token(), init_caveat(), false) == spec_assemble_from(
        all1,
        tok1,
        init_caveat(),
        false,
    ));
    assert(all1[0] == idp);
    let all2 = all1.drop_first();
    assert(all2 =~= cp + seq![sigp]);
    let tok2 = TokenV { identifier: t.identifier, ..tok1 };
    assert(TokenV { identifier: spec_trim(t.identifier), ..tok1 } =~= tok2);
    assert(spec_assemble_from(all1, tok1, init_caveat(), false) == spec_assemble_from(
        all2,
        tok2,
        init_caveat(),
        false,
    ));
    if t.caveats.len() == 0 {
        assert(cp == Seq::<PacketV>::empty());
        assert(all2 =~= seq![sigp]);
        lemma_sig_step(tok2, init_caveat(), t);
        assert(spec_assemble_from(seq![sigp], tok2, init_caveat(), false) == Ok::<
            TokenV,
            MacaroonError,
        >(t));
    } else {
        lemma_assemble_caveats(t.caveats, seq![sigp], tok2, init_caveat(), false);
        let n = t.caveats.len() as int;
        let tok3 = TokenV {
            caveats: tok2.caveats + flush(init_caveat()) + t.caveats.subrange(0, n - 1),
            ..tok2
        };
        assert(spec_assemble_from(cp + seq![sigp], tok2, init_caveat(), false)
            == spec_assemble_from(seq![sigp], tok3, t.caveats.last(), false));
        lemma_sig_step(tok3, t.caveats.last(), t);
        assert(spec_assemble_from(seq![sigp], tok3, t.caveats.last(), false) == Ok::<
            TokenV,
            MacaroonError,
        >(t));
    }
}

/// The terminal `signature` packet: it finalizes any open caveat, installs
/// the 32-byte signature, and the walk ends accepting the token.
proof fn lemma_sig_step(tok: TokenV, acc: CaveatV, t: TokenV)
    requires
        wf_token(t),
        tok.location == t.location,
        tok.identifier == t.identifier,
        tok.caveats + flush(acc) =~= t.caveats,
    ensures
        spec_assemble_from(
            seq![PacketV { tag: spec_signature_tag(), value: t.signature }],
            tok,
            acc,
            false,
        ) == Ok::<TokenV, MacaroonError>(t),
{
    let sigp = PacketV { tag: spec_signature_tag(), value: t.signature };
    assert(spec_location_tag().len() == 8 && spec_identifier_tag().len() == 10
        && spec_signature_tag().len() == 9);
    assert(seq![sigp][0] == sigp);
    assert(t.signature.subrange(0, 32) =~= t.signature);
    let tok4 = TokenV {
        caveats: tok.caveats + flush(acc),
        signature: t.signature.subrange(0, 32),
        ..tok
    };
    assert(seq![sigp].drop_first() =~= Seq::<PacketV>::empty());
    assert(spec_assemble_from(seq![sigp], tok, acc, false) == spec_assemble_from(
        Seq::<PacketV>::empty(),
        tok4,
        init_caveat(),
        true,
    ));
    assert(tok4 =~= t);
}

/// The round-trip law for V1: deserializing the byte stream that serializes
/// any well-formed token yields exactly that token, field for field, caveat
/// order included. Together with the contracts of `serialize_v1` and
/// `deserialize_v1` (whose base64 envelope decoding inverts encoding), this
/// carries the law to the transport text.
pub proof fn lemma_round_trip_v1(t: TokenV)
    requires
        wf_token(t),
    ensures
        spec_deserialize_bytes(spec_packets_bytes(spec_token_packets(t))) == Ok::<
            TokenV,
            MacaroonError,
        >(t),
{
    lemma_token_packets_frameable(t);
    lemma_frame_packets(spec_token_packets(t));
    lemma_assemble_token(t);
}

/// A well-formed token always serializes: its packets all fit the header.
pub proof fn lemma_wf_token_serializes(t: TokenV)
    requires
        wf_token(t),
    ensures
        spec_sizes_ok(t),
{
}

} // verus!
