//! The caveat assembler: folds an ordered packet sequence into a [`Token`].
//!
//! The assembler is a small state machine with one accumulator, the caveat
//! currently being built. `cid` opens (or, if one is open, finalizes and
//! reopens) the accumulator; `vid` and `cl` fill it and are malformed without
//! an open caveat; `signature` finalizes any open caveat and installs the
//! first 32 bytes of its value as the token signature. A stream that ends
//! without any `signature` packet is rejected as malformed: a token must not
//! be accepted with its default, unauthenticated signature. Unrecognized tags
//! are an error, never silently skipped; a tag that is not even valid UTF-8
//! is reported as a text-validity error instead (the framer already rejects
//! such tags on the wire path, so here that arm guards packets handed in
//! directly).
//!
//! Text values are trimmed of incidental ASCII whitespace and must be valid
//! UTF-8; the signature value is taken as raw bytes.

use vstd::prelude::*;
use vstd::utf8::{decode_utf8_encode_utf8, valid_utf8};

use crate::error::MacaroonError;
use crate::packet::{Packet, PacketV};
use crate::text::{bytes_to_string, spec_trim, trim_bytes};
use crate::token::{Caveat, CaveatV, Token, TokenV};

verus! {

/// The bytes of the tag `location`.
pub open spec fn spec_location_tag() -> Seq<u8> {
    seq![108u8, 111u8, 99u8, 97u8, 116u8, 105u8, 111u8, 110u8]
}

/// The bytes of the tag `identifier`.
pub open spec fn spec_identifier_tag() -> Seq<u8> {
    seq![105u8, 100u8, 101u8, 110u8, 116u8, 105u8, 102u8, 105u8, 101u8, 114u8]
}

/// The bytes of the tag `signature`.
pub open spec fn spec_signature_tag() -> Seq<u8> {
    seq![115u8, 105u8, 103u8, 110u8, 97u8, 116u8, 117u8, 114u8, 101u8]
}

/// The bytes of the tag `cid`.
pub open spec fn spec_cid_tag() -> Seq<u8> {
    seq![99u8, 105u8, 100u8]
}

/// The bytes of the tag `vid`.
pub open spec fn spec_vid_tag() -> Seq<u8> {
    seq![118u8, 105u8, 100u8]
}

/// The bytes of the tag `cl`.
pub open spec fn spec_cl_tag() -> Seq<u8> {
    seq![99u8, 108u8]
}

/// The tag `location` as bytes.
pub fn location_tag() -> (r: Vec<u8>)
    ensures
        r@ == spec_location_tag(),
{
    let mut v: Vec<u8> = Vec::new();
    v.push(108);
    v.push(111);
    v.push(99);
    v.push(97);
    v.push(116);
    v.push(105);
    v.push(111);
    v.push(110);
    proof {
        assert(v@ =~= spec_location_tag());
    }
    v
}

/// The tag `identifier` as bytes.
pub fn identifier_tag() -> (r: Vec<u8>)
    ensures
        r@ == spec_identifier_tag(),
{
    let mut v: Vec<u8> = Vec::new();
    v.push(105);
    v.push(100);
    v.push(101);
    v.push(110);
    v.push(116);
    v.push(105);
    v.push(102);
    v.push(105);
    v.push(101);
    v.push(114);
    proof {
        assert(v@ =~= spec_identifier_tag());
    }
    v
}

/// The tag `signature` as bytes.
pub fn signature_tag() -> (r: Vec<u8>)
    ensures
        r@ == spec_signature_tag(),
{
    let mut v: Vec<u8> = Vec::new();
    v.push(115);
    v.push(105);
    v.push(103);
    v.push(110);
    v.push(97);
    v.push(116);
    v.push(117);
    v.push(114);
    v.push(101);
    proof {
        assert(v@ =~= spec_signature_tag());
    }
    v
}

/// The tag `cid` as bytes.
pub fn cid_tag() -> (r: Vec<u8>)
    ensures
        r@ == spec_cid_tag(),
{
    let mut v: Vec<u8> = Vec::new();
    v.push(99);
    v.push(105);
    v.push(100);
    proof {
        assert(v@ =~= spec_cid_tag());
    }
    v
}

/// The tag `vid` as bytes.
pub fn vid_tag() -> (r: Vec<u8>)
    ensures
        r@ == spec_vid_tag(),
{
    let mut v: Vec<u8> = Vec::new();
    v.push(118);
    v.push(105);
    v.push(100);
    proof {
        assert(v@ =~= spec_vid_tag());
    }
    v
}

/// The tag `cl` as bytes.
pub fn cl_tag() -> (r: Vec<u8>)
    ensures
        r@ == spec_cl_tag(),
{
    let mut v: Vec<u8> = Vec::new();
    v.push(99);
    v.push(108);
    proof {
        assert(v@ =~= spec_cl_tag());
    }
    v
}

/// Whether `t` equals the given tag bytes.
fn tag_eq(t: &[u8], tag: &Vec<u8>) -> (r: bool)
    ensures
        r == (t@ == tag@),
{
    if t.len() != tag.len() {
        proof {
            assert(t@ != tag@);
        }
        return false;
    }
    let mut i: usize = 0;
    while i < t.len()
        invariant
            i <= t@.len(),
            t@.len() == tag@.len(),
            forall|j: int| 0 <= j < i ==> t@[j] == tag@[j],
        decreases t@.len() - i,
    {
        if t[i] != tag[i] {
            proof {
                assert(t@[i as int] != tag@[i as int]);
            }
            return false;
        }
        i = i + 1;
    }
    proof {
        assert(t@ =~= tag@);
    }
    true
}

/// The empty token the assembler starts from.
pub open spec fn init_token() -> TokenV {
    TokenV {
        location: Seq::empty(),
        identifier: Seq::empty(),
        caveats: Seq::empty(),
        signature: Seq::empty(),
    }
}

/// The empty caveat accumulator.
pub open spec fn init_caveat() -> CaveatV {
    CaveatV { id: Seq::empty(), verifier_id: None, location: None }
}

/// The accumulator as zero or one finished caveats: empty unless a caveat
/// was opened by a `cid` packet.
pub open spec fn flush(acc: CaveatV) -> Seq<CaveatV> {
    if acc.id.len() > 0 {
        seq![acc]
    } else {
        Seq::empty()
    }
}

/// One packet's transition applied to the assembler state, then the rest.
pub open spec fn spec_assemble_from(
    ps: Seq<PacketV>,
    tok: TokenV,
    acc: CaveatV,
    saw_sig: bool,
) -> Result<TokenV, MacaroonError>
    decreases ps.len(),
{
    if ps.len() == 0 {
        if saw_sig {
            Ok(tok)
        } else {
            Err(MacaroonError::MalformedSequenceError)
        }
    } else {
        let p = ps[0];
        let rest = ps.drop_first();
        let tv = spec_trim(p.value);
        if p.tag == spec_location_tag() {
            if valid_utf8(tv) {
                spec_assemble_from(rest, TokenV { location: tv, ..tok }, acc, saw_sig)
            } else {
                Err(MacaroonError::TextValidityError)
            }
        } else if p.tag == spec_identifier_tag() {
            if valid_utf8(tv) {
                spec_assemble_from(rest, TokenV { identifier: tv, ..tok }, acc, saw_sig)
            } else {
                Err(MacaroonError::TextValidityError)
            }
        } else if p.tag == spec_signature_tag() {
            if p.value.len() < 32 {
                Err(MacaroonError::MalformedSequenceError)
            } else {
                spec_assemble_from(
                    rest,
                    TokenV {
                        caveats: tok.caveats + flush(acc),
                        signature: p.value.subrange(0, 32),
                        ..tok
                    },
                    init_caveat(),
                    true,
                )
            }
        } else if p.tag == spec_cid_tag() {
            if valid_utf8(tv) {
                if acc.id.len() == 0 {
                    spec_assemble_from(rest, tok, CaveatV { id: tv, ..acc }, saw_sig)
                } else {
                    spec_assemble_from(
                        rest,
                        TokenV { caveats: tok.caveats.push(acc), ..tok },
                        CaveatV { id: tv, verifier_id: None, location: None },
                        saw_sig,
                    )
                }
            } else {
                Err(MacaroonError::TextValidityError)
            }
        } else if p.tag == spec_vid_tag() {
            if acc.id.len() == 0 {
                Err(MacaroonError::MalformedSequenceError)
            } else if valid_utf8(tv) {
                spec_assemble_from(rest, tok, CaveatV { verifier_id: Some(tv), ..acc }, saw_sig)
            } else {
                Err(MacaroonError::TextValidityError)
            }
        } else if p.tag == spec_cl_tag() {
            if acc.id.len() == 0 {
                Err(MacaroonError::MalformedSequenceError)
            } else if valid_utf8(tv) {
                spec_assemble_from(rest, tok, CaveatV { location: Some(tv), ..acc }, saw_sig)
            } else {
                Err(MacaroonError::TextValidityError)
            }
        } else if valid_utf8(p.tag) {
            Err(MacaroonError::UnknownTagError)
        } else {
            Err(MacaroonError::TextValidityError)
        }
    }
}

/// The token assembled from a packet sequence, starting from the empty state.
pub open spec fn spec_assemble(ps: Seq<PacketV>) -> Result<TokenV, MacaroonError> {
    spec_assemble_from(ps, init_token(), init_caveat(), false)
}

/// Signature truncation, at any point of any packet stream: a `signature`
/// packet whose value is at least 32 bytes finalizes any open caveat and
/// installs exactly the first 32 bytes of the value as the token signature,
/// discarding any excess; a shorter value is a malformed-sequence error.
pub proof fn lemma_signature_truncation(ps: Seq<PacketV>, tok: TokenV, acc: CaveatV, saw: bool)
    requires
        ps.len() > 0,
        ps[0].tag == spec_signature_tag(),
    ensures
        ps[0].value.len() < 32 ==> spec_assemble_from(ps, tok, acc, saw) == Err::<
            TokenV,
            MacaroonError,
        >(MacaroonError::MalformedSequenceError),
        ps[0].value.len() >= 32 ==> spec_assemble_from(ps, tok, acc, saw) == spec_assemble_from(
            ps.drop_first(),
            (TokenV {
                caveats: tok.caveats + flush(acc),
                signature: ps[0].value.subrange(0, 32),
                ..tok
            }),
            init_caveat(),
            true,
        ),
{
    assert(spec_signature_tag().len() == 9 && spec_location_tag().len() == 8
        && spec_identifier_tag().len() == 10);
}

/// Unknown-tag rejection, at any point of any packet stream: a packet whose
/// tag is none of the six recognized keys stops assembly with an unknown-tag
/// error — or a text-validity error where the tag is not even valid text —
/// and is never silently skipped.
pub proof fn lemma_unknown_tag_rejection(ps: Seq<PacketV>, tok: TokenV, acc: CaveatV, saw: bool)
    requires
        ps.len() > 0,
        ps[0].tag != spec_location_tag(),
        ps[0].tag != spec_identifier_tag(),
        ps[0].tag != spec_signature_tag(),
        ps[0].tag != spec_cid_tag(),
        ps[0].tag != spec_vid_tag(),
        ps[0].tag != spec_cl_tag(),
    ensures
        valid_utf8(ps[0].tag) ==> spec_assemble_from(ps, tok, acc, saw) == Err::<
            TokenV,
            MacaroonError,
        >(MacaroonError::UnknownTagError),
        !valid_utf8(ps[0].tag) ==> spec_assemble_from(ps, tok, acc, saw) == Err::<
            TokenV,
            MacaroonError,
        >(MacaroonError::TextValidityError),
{
}

/// A string's encoding is empty exactly when the string is.
proof fn lemma_encode_utf8_empty(s: Seq<char>)
    ensures
        (vstd::utf8::encode_utf8(s).len() == 0) <==> (s.len() == 0),
{
    if s.len() > 0 {
        assert(vstd::utf8::encode_utf8(s) == vstd::utf8::encode_scalar(s[0] as u32)
            + vstd::utf8::encode_utf8(s.drop_first()));
        assert(vstd::utf8::encode_scalar(s[0] as u32).len() > 0);
    }
}

/// Consumes the ordered raw-packet sequence and reconstructs the token.
pub fn assemble(packets: &Vec<Packet>) -> (r: Result<Token, MacaroonError>)
    ensures
        match r {
            Ok(t) => spec_assemble(packets@.map_values(|p: Packet| p@)) == Ok::<
                TokenV,
                MacaroonError,
            >(t@),
            Err(e) => spec_assemble(packets@.map_values(|p: Packet| p@)) == Err::<
                TokenV,
                MacaroonError,
            >(e),
        },
{
    let ghost ps = packets@.map_values(|p: Packet| p@);
    let loc_tag = location_tag();
    let ident_tag = identifier_tag();
    let sig_tag = signature_tag();
    let c_tag = cid_tag();
    let v_tag = vid_tag();
    let l_tag = cl_tag();
    let mut token = Token {
        location: String::new(),
        identifier: String::new(),
        caveats: Vec::new(),
        signature: Vec::new(),
    };
    let mut caveat = Caveat { id: String::new(), verifier_id: None, location: None };
    let mut saw_sig = false;
    let mut idx: usize = 0;
    let len = packets.len();
    proof {
        assert(token@ =~= init_token());
        assert(caveat@ =~= init_caveat());
        assert(ps.subrange(0, len as int) =~= ps);
    }
    while idx < len
        invariant
            idx <= len,
            len == packets@.len(),
            ps == packets@.map_values(|p: Packet| p@),
            loc_tag@ == spec_location_tag(),
            ident_tag@ == spec_identifier_tag(),
            sig_tag@ == spec_signature_tag(),
            c_tag@ == spec_cid_tag(),
            v_tag@ == spec_vid_tag(),
            l_tag@ == spec_cl_tag(),
            spec_assemble(ps) == spec_assemble_from(
                ps.subrange(idx as int, len as int),
                token@,
                caveat@,
                saw_sig,
            ),
        decreases len - idx,
    {
        let ghost remaining = ps.subrange(idx as int, len as int);
        let ghost prev_tok = token@;
        let ghost prev_acc = caveat@;
        let ghost prev_saw = saw_sig;
        proof {
            assert(remaining[0] == ps[idx as int]);
            assert(remaining.drop_first() =~= ps.subrange(idx + 1 as int, len as int));
        }
        let p = vstd::slice::slice_index_get(packets.as_slice(), idx);
        let ghost tv = spec_trim(p@.value);
        proof {
            assert(p@ == ps[idx as int]);
        }
        if tag_eq(p.tag.as_slice(), &loc_tag) {
            let trimmed = trim_bytes(p.value.as_slice());
            match bytes_to_string(trimmed.as_slice()) {
                Some(s) => {
                    proof {
                        decode_utf8_encode_utf8(tv);
                    }
                    token.location = s;
                    proof {
                        assert(token@ =~= TokenV { location: tv, ..prev_tok });
                    }
                },
                None => {
                    return Err(MacaroonError::TextValidityError);
                },
            }
        } else if tag_eq(p.tag.as_slice(), &ident_tag) {
            let trimmed = trim_bytes(p.value.as_slice());
            match bytes_to_string(trimmed.as_slice()) {
                Some(s) => {
                    proof {
                        decode_utf8_encode_utf8(tv);
                    }
                    token.identifier = s;
                    proof {
                        assert(token@ =~= TokenV { identifier: tv, ..prev_tok });
                    }
                },
                None => {
                    return Err(MacaroonError::TextValidityError);
                },
            }
        } else if tag_eq(p.tag.as_slice(), &sig_tag) {
            if p.value.len() < 32 {
                return Err(MacaroonError::MalformedSequenceError);
            }
            proof {
                lemma_encode_utf8_empty(caveat.id@);
            }
            if !caveat.id.as_str().is_empty() {
                let done = caveat;
                token.caveats.push(done);
            }
            caveat = Caveat { id: String::new(), verifier_id: None, location: None };
            proof {
                assert(token@.caveats =~= prev_tok.caveats + flush(prev_acc));
            }
            token.signature = vstd::slice::slice_to_vec(
                vstd::slice::slice_subrange(p.value.as_slice(), 0, 32),
            );
            saw_sig = true;
            proof {
                assert(caveat@ =~= init_caveat());
                assert(token@ =~= TokenV {
                    caveats: prev_tok.caveats + flush(prev_acc),
                    signature: remaining[0].value.subrange(0, 32),
                    ..prev_tok
                });
            }
        } else if tag_eq(p.tag.as_slice(), &c_tag) {
            let trimmed = trim_bytes(p.value.as_slice());
            match bytes_to_string(trimmed.as_slice()) {
                Some(s) => {
                    proof {
                        decode_utf8_encode_utf8(tv);
                        lemma_encode_utf8_empty(caveat.id@);
                    }
                    if caveat.id.as_str().is_empty() {
                        caveat.id = s;
                        proof {
                            assert(caveat@ =~= CaveatV { id: tv, ..prev_acc });
                        }
                    } else {
                        let done = caveat;
                        token.caveats.push(done);
                        caveat = Caveat { id: s, verifier_id: None, location: None };
                        proof {
                            assert(token@.caveats =~= prev_tok.caveats.push(prev_acc));
                            assert(token@ =~= TokenV {
                                caveats: prev_tok.caveats.push(prev_acc),
                                ..prev_tok
                            });
                            assert(caveat@ =~= CaveatV {
                                id: tv,
                                verifier_id: None,
                                location: None,
                            });
                        }
                    }
                },
                None => {
                    return Err(MacaroonError::TextValidityError);
                },
            }
        } else if tag_eq(p.tag.as_slice(), &v_tag) {
            proof {
                lemma_encode_utf8_empty(caveat.id@);
            }
            if caveat.id.as_str().is_empty() {
                return Err(MacaroonError::MalformedSequenceError);
            }
            let trimmed = trim_bytes(p.value.as_slice());
            match bytes_to_string(trimmed.as_slice()) {
                Some(s) => {
                    proof {
                        decode_utf8_encode_utf8(tv);
                    }
                    caveat.verifier_id = Some(s);
                    proof {
                        assert(caveat@ =~= CaveatV { verifier_id: Some(tv), ..prev_acc });
                    }
                },
                None => {
                    return Err(MacaroonError::TextValidityError);
                },
            }
        } else if tag_eq(p.tag.as_slice(), &l_tag) {
            proof {
                lemma_encode_utf8_empty(caveat.id@);
            }
            if caveat.id.as_str().is_empty() {
                return Err(MacaroonError::MalformedSequenceError);
            }
            let trimmed = trim_bytes(p.value.as_slice());
            match bytes_to_string(trimmed.as_slice()) {
                Some(s) => {
                    proof {
                        decode_utf8_encode_utf8(tv);
                    }
                    caveat.location = Some(s);
                    proof {
                        assert(caveat@ =~= CaveatV { location: Some(tv), ..prev_acc });
                    }
                },
                None => {
                    return Err(MacaroonError::TextValidityError);
                },
            }
        } else {
            match bytes_to_string(p.tag.as_slice()) {
                Some(_) => {
                    return Err(MacaroonError::UnknownTagError);
                },
                None => {
                    return Err(MacaroonError::TextValidityError);
                },
            }
        }
        proof {
            assert(spec_assemble_from(remaining, prev_tok, prev_acc, prev_saw)
                == spec_assemble_from(remaining.drop_first(), token@, caveat@, saw_sig));
        }
        idx = idx + 1;
    }
    proof {
        assert(ps.subrange(idx as int, len as int) =~= Seq::<PacketV>::empty());
    }
    if saw_sig {
        Ok(token)
    } else {
        Err(MacaroonError::MalformedSequenceError)
    }
}

} // verus!

