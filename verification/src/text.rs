//! Byte-level text handling: whitespace trimming and UTF-8 validation.
//!
//! Deserialization trims each text value of incidental ASCII whitespace (the
//! framer's trailing newline is already stripped before a value reaches the
//! assembler) and converts the remaining bytes into a `String`, rejecting
//! bytes that are not valid UTF-8.

use vstd::prelude::*;
use vstd::slice::{slice_subrange, slice_to_vec};
use vstd::utf8::{decode_utf8, valid_utf8};

verus! {

/// ASCII whitespace: tab, line feed, vertical tab, form feed, carriage
/// return, and space.
pub open spec fn spec_is_ws(b: u8) -> bool {
    b == 9 || b == 10 || b == 11 || b == 12 || b == 13 || b == 32
}

/// `s` without its leading ASCII whitespace.
pub open spec fn spec_trim_front(s: Seq<u8>) -> Seq<u8>
    decreases s.len(),
{
    if s.len() > 0 && spec_is_ws(s[0]) {
        spec_trim_front(s.drop_first())
    } else {
        s
    }
}

/// `s` without its trailing ASCII whitespace.
pub open spec fn spec_trim_back(s: Seq<u8>) -> Seq<u8>
    decreases s.len(),
{
    if s.len() > 0 && spec_is_ws(s.last()) {
        spec_trim_back(s.drop_last())
    } else {
        s
    }
}

/// `s` without leading and trailing ASCII whitespace.
pub open spec fn spec_trim(s: Seq<u8>) -> Seq<u8> {
    spec_trim_back(spec_trim_front(s))
}

proof fn lemma_trim_front_skip(s: Seq<u8>, k: int)
    requires
        0 <= k <= s.len(),
        forall|j: int| 0 <= j < k ==> spec_is_ws(#[trigger] s[j]),
        k == s.len() || !spec_is_ws(s[k]),
    ensures
        spec_trim_front(s) == s.subrange(k, s.len() as int),
    decreases k,
{
    if k == 0 {
        assert(s.subrange(0, s.len() as int) =~= s);
    } else {
        lemma_trim_front_skip(s.drop_first(), k - 1);
        assert(s.drop_first().subrange(k - 1, s.drop_first().len() as int) =~= s.subrange(
            k,
            s.len() as int,
        ));
    }
}

proof fn lemma_trim_back_take(s: Seq<u8>, k: int)
    requires
        0 <= k <= s.len(),
        forall|j: int| k <= j < s.len() ==> spec_is_ws(#[trigger] s[j]),
        k == 0 || !spec_is_ws(s[k - 1]),
    ensures
        spec_trim_back(s) == s.subrange(0, k),
    decreases s.len() - k,
{
    if k == s.len() {
        assert(s.subrange(0, k) =~= s);
    } else {
        lemma_trim_back_take(s.drop_last(), k);
        assert(s.drop_last().subrange(0, k) =~= s.subrange(0, k));
    }
}

/// Copies `v` without its leading and trailing ASCII whitespace.
pub fn trim_bytes(v: &[u8]) -> (r: Vec<u8>)
    ensures
        r@ == spec_trim(v@),
{
    let len = v.len();
    let mut start: usize = 0;
    while start < len && is_ws(v[start])
        invariant
            0 <= start <= len,
            len == v@.len(),
            forall|j: int| 0 <= j < start ==> spec_is_ws(#[trigger] v@[j]),
        decreases len - start,
    {
        start = start + 1;
    }
    proof {
        lemma_trim_front_skip(v@, start as int);
    }
    if start == len {
        proof {
            assert(spec_trim_front(v@) =~= Seq::<u8>::empty());
        }
        Vec::new()
    } else {
        let mut end: usize = len;
        while end > start && is_ws(v[end - 1])
            invariant
                start <= end <= len,
                len == v@.len(),
                forall|j: int| end <= j < len ==> spec_is_ws(#[trigger] v@[j]),
            decreases end,
        {
            end = end - 1;
        }
        // the scan stopped either at `start`, whose byte is not whitespace,
        // or at a non-whitespace byte just before `end`
        let r = slice_to_vec(slice_subrange(v, start, end));
        proof {
            let front = v@.subrange(start as int, len as int);
            lemma_trim_back_take(front, end - start as int);
            assert(front.subrange(0, end - start as int) =~= v@.subrange(
                start as int,
                end as int,
            ));
        }
        r
    }
}

/// Whether `b` is ASCII whitespace.
fn is_ws(b: u8) -> (r: bool)
    ensures
        r == spec_is_ws(b),
{
    b == 9 || b == 10 || b == 11 || b == 12 || b == 13 || b == 32
}

/// ASCII bytes are valid UTF-8.
pub proof fn lemma_ascii_valid_utf8(s: Seq<u8>)
    requires
        forall|j: int| 0 <= j < s.len() ==> s[j] < 128,
    ensures
        valid_utf8(s),
{
    assert(s.subrange(0, 0) =~= Seq::<u8>::empty());
    assert(vstd::utf8::partial_valid_utf8(s, 0));
    vstd::utf8::partial_valid_utf8_extend_ascii_block(s, 0, s.len() as int);
    assert(s.subrange(0, s.len() as int) =~= s);
}

/// Relies on `core::str::from_utf8`: it succeeds exactly on valid UTF-8 and
/// returns the text those bytes encode, here copied into an owned `String`.
#[verifier::external_body]
pub fn bytes_to_string(v: &[u8]) -> (r: Option<String>)
    ensures
        r is Some <==> valid_utf8(v@),
        r matches Some(s) ==> s@ == decode_utf8(v@),
{
    match core::str::from_utf8(v) {
        Ok(s) => Some(s.to_string()),
        Err(_) => None,
    }
}

} // verus!
