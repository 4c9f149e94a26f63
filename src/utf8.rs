//! UTF-8 helpers shared by the text containers: the leading-byte width table
//! and decoding of one character out of a byte sequence.
use vstd::prelude::*;
use vstd::utf8::*;

verus! {

/// Number of bytes announced by a leading byte; `0` for a byte that cannot
/// start a character.
pub open spec fn width_of(b: u8) -> usize {
    if b <= 0x7f {
        1
    } else if 0xc2 <= b && b <= 0xdf {
        2
    } else if 0xe0 <= b && b <= 0xef {
        3
    } else if 0xf0 <= b && b <= 0xf4 {
        4
    } else {
        0
    }
}

/// The characters of a valid UTF-8 sequence, each paired with the absolute
/// offset of its first byte, the sequence itself starting at `base`.
pub open spec fn char_indices(bytes: Seq<u8>, base: int) -> Seq<(char, usize)>
    decreases bytes.len(),
    when valid_utf8(bytes)
{
    if bytes.len() == 0 {
        seq![]
    } else {
        seq![(decode_first_scalar(bytes) as char, base as usize)] + char_indices(
            pop_first_scalar(bytes),
            base + length_of_first_scalar(bytes),
        )
    }
}

/// Width table lookup for a leading byte.
pub fn utf8_char_width(b: u8) -> (r: usize)
    ensures
        r == width_of(b),
{
    if b <= 0x7f {
        1
    } else if 0xc2 <= b && b <= 0xdf {
        2
    } else if 0xe0 <= b && b <= 0xef {
        3
    } else if 0xf0 <= b && b <= 0xf4 {
        4
    } else {
        0
    }
}

/// Relies on `char::from_u32`: `Some` exactly for Unicode scalar values,
/// holding the character with that code.
#[verifier::external_body]
fn char_from_u32(v: u32) -> (r: Option<char>)
    ensures
        is_scalar(v) ==> r == Some(v as char),
        !is_scalar(v) ==> r is None,
{
    char::from_u32(v)
}

proof fn lemma_width_bits(b1: u8, b2: u8, b3: u8, b4: u8)
    ensures
        codepoint_width_1(b1) <= 0x7f,
        codepoint_width_2(b1, b2) <= 0x7ff,
        codepoint_width_3(b1, b2, b3) <= 0xffff,
        0xc0 <= b1 <= 0xc1 ==> codepoint_width_2(b1, b2) < 0x80,
        0xf5 <= b1 <= 0xf7 ==> codepoint_width_4(b1, b2, b3, b4) > 0x10ffff,
{
    assert(0xc0 <= b1 <= 0xc1 ==> (((b1 & 0x1f) as u32) << 6) | ((b2 & 0x3f) as u32) < 0x80)
        by (bit_vector);
    assert(0xf5 <= b1 <= 0xf7 ==> (((b1 & 0x07) as u32) << 18) | (((b2 & 0x3f) as u32) << 12)
        | (((b3 & 0x3f) as u32) << 6) | ((b4 & 0x3f) as u32) > 0x10ffff) by (bit_vector);
    assert((b1 & 0x7f) as u32 <= 0x7f) by (bit_vector);
    assert((((b1 & 0x1f) as u32) << 6) | ((b2 & 0x3f) as u32) <= 0x7ff) by (bit_vector);
    assert((((b1 & 0x0f) as u32) << 12) | (((b2 & 0x3f) as u32) << 6) | ((b3 & 0x3f) as u32)
        <= 0xffff) by (bit_vector);
}

/// Decodes the character whose encoding starts at `bytes[i]`, returning it
/// with its width in bytes, or `None` where no valid encoding starts there.
pub fn decode_char(bytes: &[u8], i: usize) -> (r: Option<(char, usize)>)
    requires
        i < bytes@.len(),
    ensures
        ({
            let rest = bytes@.subrange(i as int, bytes@.len() as int);
            match r {
                Some((c, w)) => valid_first_scalar(rest) && c == decode_first_scalar(rest) as char
                    && w == length_of_first_scalar(rest),
                None => !valid_first_scalar(rest),
            }
        }),
{
    let ghost rest = bytes@.subrange(i as int, bytes@.len() as int);
    let n = bytes.len();
    let b1 = bytes[i];
    let width = utf8_char_width(b1);
    if width == 0 || n - i < width {
        proof {
            let b2 = if rest.len() > 1 { rest[1] } else { 0u8 };
            let b3 = if rest.len() > 2 { rest[2] } else { 0u8 };
            let b4 = if rest.len() > 3 { rest[3] } else { 0u8 };
            lemma_width_bits(b1, b2, b3, b4);
        }
        return None;
    }
    let b2: u8 = if width >= 2 { bytes[i + 1] } else { 0 };
    let b3: u8 = if width >= 3 { bytes[i + 2] } else { 0 };
    let b4: u8 = if width >= 4 { bytes[i + 3] } else { 0 };
    proof {
        lemma_width_bits(b1, b2, b3, b4);
    }
    let cp: u32;
    if width == 1 {
        cp = (b1 & 0x7f) as u32;
    } else if width == 2 {
        if !(0x80 <= b2 && b2 <= 0xbf) {
            return None;
        }
        cp = (((b1 & 0x1f) as u32) << 6) | ((b2 & 0x3f) as u32);
        if cp < 0x80 {
            return None;
        }
    } else if width == 3 {
        if !(0x80 <= b2 && b2 <= 0xbf && 0x80 <= b3 && b3 <= 0xbf) {
            return None;
        }
        cp = (((b1 & 0x0f) as u32) << 12) | (((b2 & 0x3f) as u32) << 6) | ((b3 & 0x3f) as u32);
        if cp < 0x800 || (0xd800 <= cp && cp <= 0xdfff) {
            return None;
        }
    } else {
        if !(0x80 <= b2 && b2 <= 0xbf && 0x80 <= b3 && b3 <= 0xbf && 0x80 <= b4 && b4 <= 0xbf) {
            return None;
        }
        cp = (((b1 & 0x07) as u32) << 18) | (((b2 & 0x3f) as u32) << 12) | (((b3 & 0x3f) as u32)
            << 6) | ((b4 & 0x3f) as u32);
        if cp < 0x10000 || cp > 0x10ffff {
            return None;
        }
    }
    assert(cp == decode_first_scalar(rest));
    match char_from_u32(cp) {
        Some(c) => Some((c, width)),
        None => None,
    }
}

/// Relies on `String::from_utf8`: `Some` exactly for valid UTF-8, holding
/// the characters that the bytes encode.
#[verifier::external_body]
pub(crate) fn string_from_utf8(v: Vec<u8>) -> (r: Option<String>)
    ensures
        r is Some <==> valid_utf8(v@),
        r matches Some(s) ==> s@ == decode_utf8(v@),
{
    String::from_utf8(v).ok()
}

/// Decoding a concatenation of two valid sequences decodes each in turn.
pub proof fn lemma_char_indices_concat(a: Seq<u8>, b: Seq<u8>, base: int)
    requires
        valid_utf8(a),
        valid_utf8(b),
    ensures
        valid_utf8(a + b),
        char_indices(a + b, base) == char_indices(a, base) + char_indices(b, base + a.len()),
    decreases a.len(),
{
    valid_utf8_concat(a, b);
    if a.len() == 0 {
        assert(a + b =~= b);
        assert(char_indices(a, base) =~= seq![]);
        assert(seq![] + char_indices(b, base) =~= char_indices(b, base));
    } else {
        let ab = a + b;
        let k = length_of_first_scalar(a);
        assert(ab[0] == a[0]);
        assert(k <= a.len());
        assert(valid_first_scalar(ab) && decode_first_scalar(ab) == decode_first_scalar(a)
            && length_of_first_scalar(ab) == k) by {
            assert(forall|i: int| 0 <= i < a.len() ==> ab[i] == a[i]);
        }
        assert(pop_first_scalar(ab) =~= pop_first_scalar(a) + b);
        lemma_char_indices_concat(pop_first_scalar(a), b, base + k);
        assert(char_indices(ab, base) =~= char_indices(a, base) + char_indices(b, base + a.len()));
    }
}

/// The characters that `char_indices` pairs with offsets are those that the
/// bytes decode to, in order, and the first of them starts at `base`.
pub proof fn lemma_char_indices_decode(bytes: Seq<u8>, base: int)
    requires
        valid_utf8(bytes),
    ensures
        char_indices(bytes, base).len() == decode_utf8(bytes).len(),
        forall|i: int|
            0 <= i < decode_utf8(bytes).len() ==> (#[trigger] char_indices(bytes, base)[i]).0
                == decode_utf8(bytes)[i],
        bytes.len() > 0 ==> char_indices(bytes, base)[0].1 == base as usize,
    decreases bytes.len(),
{
    if bytes.len() > 0 {
        let w = length_of_first_scalar(bytes);
        let rest = pop_first_scalar(bytes);
        lemma_char_indices_decode(rest, base + w);
        let ci = char_indices(bytes, base);
        let d = decode_utf8(bytes);
        assert forall|i: int| 0 <= i < d.len() implies (#[trigger] ci[i]).0 == d[i] by {
            if i > 0 {
                assert(ci[i] == char_indices(rest, base + w)[i - 1]);
                assert(d[i] == decode_utf8(rest)[i - 1]);
            }
        }
    }
}

} // verus!
