use vstd::prelude::*;

verus! {

/// The byte `%`, which opens an escape.
pub const PERCENT: u8 = 37;

/// The value of an ASCII hexadecimal digit (`0`-`9`, `A`-`F`, `a`-`f`), if `c` is one.
pub open spec fn hex_value(c: u8) -> Option<u8> {
    if 48 <= c && c <= 57 {
        Some((c - 48) as u8)
    } else if 65 <= c && c <= 70 {
        Some((c - 55) as u8)
    } else if 97 <= c && c <= 102 {
        Some((c - 87) as u8)
    } else {
        None
    }
}

/// Percent-decoding of raw bytes: each `%` followed by two hexadecimal digits
/// becomes the byte they spell; every other byte, a malformed escape
/// included, passes through unchanged.
pub open spec fn percent_decode(s: Seq<u8>) -> Seq<u8>
    decreases s.len(),
{
    if s.len() == 0 {
        Seq::empty()
    } else if s[0] == PERCENT && s.len() >= 3 && hex_value(s[1]) is Some && hex_value(s[2]) is Some {
        seq![(hex_value(s[1])->0 * 16 + hex_value(s[2])->0) as u8] + percent_decode(s.subrange(3, s.len() as int))
    } else {
        seq![s[0]] + percent_decode(s.subrange(1, s.len() as int))
    }
}

/// Relies on urlencoding::decode_binary: `%` and two hex digits (either case)
/// decode to one byte, and any other byte, a stray `%` included, is copied.
#[verifier::external_body]
pub(crate) fn decode_binary(data: &[u8]) -> (r: Vec<u8>)
    ensures
        r@ == percent_decode(data@),
{
    urlencoding::decode_binary(data).into_owned()
}

/// Bytes without a `%` decode to themselves.
pub proof fn lemma_decode_plain(s: Seq<u8>)
    requires
        forall|i: int| 0 <= i < s.len() ==> s[i] != PERCENT,
    ensures
        percent_decode(s) == s,
    decreases s.len(),
{
    if s.len() > 0 {
        let t = s.subrange(1, s.len() as int);
        lemma_decode_plain(t);
        assert(seq![s[0]] + t =~= s);
    }
}

} // verus!
