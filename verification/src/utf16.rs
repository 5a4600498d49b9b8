//! UTF-16 encoding and decoding as long directory entries store names:
//! the mathematical form of both directions, trusted bridges to the
//! standard library's converters, and the round-trip argument.

use vstd::prelude::*;
use vstd::utf8::char_is_scalar;
use vstd::utf8::char_u32_cast;

verus! {

broadcast use vstd::utf8::char_is_scalar, vstd::utf8::char_u32_cast;

/// The replacement character that lossy decoding substitutes for an
/// unpaired surrogate.
pub const REPLACEMENT: char = '\u{FFFD}';

pub open spec fn is_high_surrogate(u: u16) -> bool {
    0xD800 <= u < 0xDC00
}

pub open spec fn is_low_surrogate(u: u16) -> bool {
    0xDC00 <= u < 0xE000
}

/// The scalar value a surrogate pair stands for.
pub open spec fn combine_surrogates(hi: u16, lo: u16) -> u32 {
    (0x10000 + (hi - 0xD800) * 0x400 + (lo - 0xDC00)) as u32
}

/// UTF-16 code units of one character: itself when it lies in the basic
/// plane, a surrogate pair otherwise.
pub open spec fn utf16_encode_char(c: char) -> Seq<u16> {
    if (c as u32) < 0x10000 {
        seq![(c as u32) as u16]
    } else {
        seq![
            (0xD800 + ((c as u32) - 0x10000) / 0x400) as u16,
            (0xDC00 + ((c as u32) - 0x10000) % 0x400) as u16,
        ]
    }
}

/// UTF-16 code units of a character sequence.
pub open spec fn utf16_encode(s: Seq<char>) -> Seq<u16>
    decreases s.len(),
{
    if s.len() == 0 {
        Seq::empty()
    } else {
        utf16_encode_char(s[0]) + utf16_encode(s.drop_first())
    }
}

/// Lossy UTF-16 decoding: a high surrogate followed by a low surrogate
/// yields the combined scalar, an unpaired surrogate yields the replacement
/// character, and any other unit stands for itself.
pub open spec fn utf16_decode_lossy(s: Seq<u16>) -> Seq<char>
    decreases s.len(),
{
    if s.len() == 0 {
        Seq::empty()
    } else if is_high_surrogate(s[0]) && s.len() >= 2 && is_low_surrogate(s[1]) {
        seq![(combine_surrogates(s[0], s[1]) as char)] + utf16_decode_lossy(s.skip(2))
    } else if is_high_surrogate(s[0]) || is_low_surrogate(s[0]) {
        seq![REPLACEMENT] + utf16_decode_lossy(s.skip(1))
    } else {
        seq![((s[0] as u32) as char)] + utf16_decode_lossy(s.skip(1))
    }
}

/// Relies on str::encode_utf16: the standard UTF-16 encoding of the
/// string's characters, collected into a vector.
#[verifier::external_body]
pub fn encode_utf16_vec(s: &str) -> (r: Vec<u16>)
    ensures
        r@ == utf16_encode(s@),
{
    s.encode_utf16().collect()
}

/// Relies on String::from_utf16_lossy: decodes UTF-16, replacing an
/// unpaired surrogate with the replacement character.
#[verifier::external_body]
pub fn decode_utf16_lossy(units: &[u16]) -> (r: String)
    ensures
        r@ == utf16_decode_lossy(units@),
{
    String::from_utf16_lossy(units)
}

/// Relies on String::insert_str: prepends a string.
#[verifier::external_body]
pub fn prepend_str(s: &mut String, front: &str)
    ensures
        final(s)@ == front@ + old(s)@,
{
    s.insert_str(0, front);
}

/// Relies on String::push: appends one character.
#[verifier::external_body]
pub fn push_char(s: &mut String, c: char)
    ensures
        final(s)@ == old(s)@.push(c),
{
    s.push(c);
}

/// No character encodes to a zero code unit except the NUL character, and
/// every encoded unit count is one or two per character.
pub proof fn lemma_encode_char_shape(c: char)
    ensures
        1 <= utf16_encode_char(c).len() <= 2,
        (c as u32) >= 0x10000 ==> utf16_encode_char(c).len() == 2,
        c != 0u32 as char ==> forall|i: int|
            0 <= i < utf16_encode_char(c).len() ==> utf16_encode_char(c)[i] != 0,
{
    char_is_scalar(c);
    if (c as u32) < 0x10000 {
        if c != 0u32 as char {
            if (c as u32) as u16 == 0 {
                assert((c as u32) == 0);
                char_u32_cast(c, 0);
                assert(false);
            }
        }
    } else {
        let v = (c as u32) - 0x10000;
        assert(0xD800 + v / 0x400 > 0 && 0xDC00 + v % 0x400 > 0);
    }
}

/// Decoding inverts encoding: the law behind reading a stored long name
/// back. Holds for every character sequence, since characters are scalar
/// values and so never encode to unpaired surrogates.
pub proof fn lemma_utf16_roundtrip(s: Seq<char>)
    ensures
        utf16_decode_lossy(utf16_encode(s)) =~= s,
    decreases s.len(),
{
    if s.len() == 0 {
    } else {
        let c = s[0];
        let rest = s.drop_first();
        let enc = utf16_encode(s);
        char_is_scalar(c);
        lemma_utf16_roundtrip(rest);
        if (c as u32) < 0x10000 {
            let u = (c as u32) as u16;
            assert(u == c as u32);
            assert(!is_high_surrogate(u) && !is_low_surrogate(u)) by {
                assert(vstd::utf8::is_scalar(c as u32));
            }
            assert(enc.skip(1) =~= utf16_encode(rest));
            char_u32_cast(c, u as u32);
            assert(utf16_decode_lossy(enc) =~= seq![c] + utf16_decode_lossy(enc.skip(1)));
            assert(seq![c] + rest =~= s);
        } else {
            let v = (c as u32) - 0x10000;
            assert(v < 0x100000) by {
                assert(vstd::utf8::is_scalar(c as u32));
            }
            let hi = (0xD800 + v / 0x400) as u16;
            let lo = (0xDC00 + v % 0x400) as u16;
            assert(v / 0x400 < 0x400) by (nonlinear_arith)
                requires
                    0 <= v < 0x100000,
            ;
            assert(0 <= v % 0x400 < 0x400);
            assert(is_high_surrogate(hi) && is_low_surrogate(lo));
            assert(enc[0] == hi && enc[1] == lo);
            assert(combine_surrogates(hi, lo) == c as u32) by {
                vstd::arithmetic::div_mod::lemma_fundamental_div_mod(v as int, 0x400);
            }
            char_u32_cast(c, combine_surrogates(hi, lo));
            assert(enc.skip(2) =~= utf16_encode(rest));
            assert(utf16_decode_lossy(enc) =~= seq![c] + utf16_decode_lossy(enc.skip(2)));
            assert(seq![c] + rest =~= s);
        }
    }
}

/// Encoded length is additive and bounded by twice the character count.
pub proof fn lemma_encode_len(s: Seq<char>)
    ensures
        s.len() <= utf16_encode(s).len() <= 2 * s.len(),
    decreases s.len(),
{
    if s.len() > 0 {
        lemma_encode_char_shape(s[0]);
        lemma_encode_len(s.drop_first());
    }
}

/// A sequence without the NUL character encodes to units that are all
/// non-zero.
pub proof fn lemma_encode_no_zero(s: Seq<char>)
    requires
        forall|i: int| 0 <= i < s.len() ==> s[i] != 0u32 as char,
    ensures
        forall|i: int| 0 <= i < utf16_encode(s).len() ==> utf16_encode(s)[i] != 0,
    decreases s.len(),
{
    if s.len() > 0 {
        lemma_encode_char_shape(s[0]);
        assert(forall|i: int| 0 <= i < s.drop_first().len() ==> s.drop_first()[i] != 0u32 as char);
        lemma_encode_no_zero(s.drop_first());
        let e0 = utf16_encode_char(s[0]);
        let erest = utf16_encode(s.drop_first());
        assert forall|i: int| 0 <= i < utf16_encode(s).len() implies utf16_encode(s)[i] != 0 by {
            if i < e0.len() {
                assert(utf16_encode(s)[i] == e0[i]);
            } else {
                assert(utf16_encode(s)[i] == erest[i - e0.len()]);
            }
        }
    }
}

} // verus!
