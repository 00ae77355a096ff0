//! The character mapper: a bidirectional, branch-free mapping between
//! six-bit values and the 64-symbol Base64 alphabet.

use vstd::prelude::*;

verus! {

/// The Base64 alphabet character for a six-bit value, stated directly:
/// `0..=25` map to `A..=Z`, `26..=51` to `a..=z`, `52..=61` to `0..=9`,
/// `62` to `+` and `63` to `/`.
pub open spec fn encode_char_spec(v: u8) -> u8 {
    if v < 26 {
        (v + 0x41) as u8
    } else if v < 52 {
        (v + 0x47) as u8
    } else if v < 62 {
        (v - 4) as u8
    } else if v == 62 {
        0x2b
    } else {
        0x2f
    }
}

/// Whether a byte is one of the 64 alphabet characters (`=` is not).
pub open spec fn is_base64_char(c: u8) -> bool {
    (0x41 <= c && c <= 0x5a) || (0x61 <= c && c <= 0x7a) || (0x30 <= c && c <= 0x39) || c == 0x2b
        || c == 0x2f
}

/// The six-bit value of an alphabet character, and the sentinel `0xff`
/// (high bit set) for every byte outside the alphabet.
pub open spec fn decode_char_spec(c: u8) -> u8 {
    if 0x41 <= c && c <= 0x5a {
        (c - 0x41) as u8
    } else if 0x61 <= c && c <= 0x7a {
        (c - 0x47) as u8
    } else if 0x30 <= c && c <= 0x39 {
        (c + 4) as u8
    } else if c == 0x2b {
        62
    } else {
        if c == 0x2f {
            63
        } else {
            0xff
        }
    }
}

/// The encoder's branch-free arithmetic: each comparison of the six-bit
/// value against a range boundary is folded into a mask that adjusts the
/// offset added to the value.
pub open spec fn encode_char_arith(six_bits: u8) -> u8 {
    let x = six_bits as u16;
    let o1 = 0x41u16.wrapping_add((25u16.wrapping_sub(x) >> 8) & 6);
    let o2 = o1.wrapping_sub((51u16.wrapping_sub(x) >> 8) & 75);
    let o3 = o2.wrapping_sub((61u16.wrapping_sub(x) >> 8) & 15);
    let o4 = o3.wrapping_add((62u16.wrapping_sub(x) >> 8) & 3);
    six_bits.wrapping_add(o4 as u8)
}

/// The decoder's branch-free arithmetic: five overlapping range tests,
/// each folded into a mask, whose contributions are summed onto `-1`.
pub open spec fn decode_char_arith(c: u8) -> u8 {
    let x = c as u16;
    let r1 = 0xffffu16.wrapping_add(
        ((0x40u16.wrapping_sub(x) & x.wrapping_sub(0x5b)) >> 8) & x.wrapping_sub(64),
    );
    let r2 = r1.wrapping_add(
        ((0x60u16.wrapping_sub(x) & x.wrapping_sub(0x7b)) >> 8) & x.wrapping_sub(70),
    );
    let r3 = r2.wrapping_add(
        ((0x2fu16.wrapping_sub(x) & x.wrapping_sub(0x3a)) >> 8) & x.wrapping_add(5),
    );
    let r4 = r3.wrapping_add(((0x2au16.wrapping_sub(x) & x.wrapping_sub(0x2c)) >> 8) & 63);
    let r5 = r4.wrapping_add(((0x2eu16.wrapping_sub(x) & x.wrapping_sub(0x30)) >> 8) & 64);
    r5 as u8
}

/// The encoder's mask arithmetic computes exactly the alphabet mapping
/// on the six-bit domain.
proof fn lemma_encode_char_arith(v: u8)
    by (bit_vector)
    ensures
        v < 64 ==> encode_char_arith(v) == encode_char_spec(v),
{
}

/// The decoder's mask arithmetic computes exactly the inverse mapping,
/// with the sentinel `0xff` for every byte outside the alphabet.
proof fn lemma_decode_char_arith(c: u8)
    by (bit_vector)
    ensures
        decode_char_arith(c) == decode_char_spec(c),
{
}

/// Encode the lower six bits of a byte into the equivalent Base64
/// character, in constant time.
///
/// The caller is expected to mask its argument to six bits; for values
/// above 63 the result is unspecified, but the function still returns
/// without panicking.
pub fn encode_base64_char(six_bits: u8) -> (r: u8)
    ensures
        six_bits < 64 ==> r == encode_char_spec(six_bits),
{
    let x: u16 = six_bits as u16;
    let mut offset: u16 = 0x41;

    offset = offset.wrapping_add((25u16.wrapping_sub(x) >> 8) & 6);
    offset = offset.wrapping_sub((51u16.wrapping_sub(x) >> 8) & 75);
    offset = offset.wrapping_sub((61u16.wrapping_sub(x) >> 8) & 15);
    offset = offset.wrapping_add((62u16.wrapping_sub(x) >> 8) & 3);

    let r = six_bits.wrapping_add(#[verifier::truncate] (offset as u8));
    proof {
        assert(r == encode_char_arith(six_bits));
        lemma_encode_char_arith(six_bits);
    }
    r
}

/// Decode a Base64 character into its six-bit value, in constant time.
///
/// Any byte may be passed in: a byte outside the alphabet yields the
/// sentinel `0xff`, whose set high bit lets a caller accumulate an
/// aggregate validity flag without branching per symbol.
pub fn decode_base64_char(chr: u8) -> (r: u8)
    ensures
        r == decode_char_spec(chr),
{
    let x: u16 = chr as u16;
    let mut ret: u16 = 0xffff;

    ret = ret.wrapping_add(
        ((0x40u16.wrapping_sub(x) & x.wrapping_sub(0x5b)) >> 8) & x.wrapping_sub(64),
    );
    ret = ret.wrapping_add(
        ((0x60u16.wrapping_sub(x) & x.wrapping_sub(0x7b)) >> 8) & x.wrapping_sub(70),
    );
    ret = ret.wrapping_add(
        ((0x2fu16.wrapping_sub(x) & x.wrapping_sub(0x3a)) >> 8) & x.wrapping_add(5),
    );
    ret = ret.wrapping_add(((0x2au16.wrapping_sub(x) & x.wrapping_sub(0x2c)) >> 8) & 63);
    ret = ret.wrapping_add(((0x2eu16.wrapping_sub(x) & x.wrapping_sub(0x30)) >> 8) & 64);

    let r = #[verifier::truncate] (ret as u8);
    proof {
        assert(r == decode_char_arith(chr));
        lemma_decode_char_arith(chr);
    }
    r
}

/// Every alphabet index maps to an alphabet character, and never to the
/// padding character `=`.
pub proof fn lemma_encode_char_valid(v: u8)
    requires
        v < 64,
    ensures
        is_base64_char(encode_char_spec(v)),
        encode_char_spec(v) != 0x3d,
{
}

/// Decoding inverts encoding on the six-bit domain.
pub proof fn lemma_char_round_trip(v: u8)
    requires
        v < 64,
    ensures
        decode_char_spec(encode_char_spec(v)) == v,
{
}

/// The decoded value is below 64 exactly on the alphabet, and is the
/// sentinel `0xff` everywhere else.
pub proof fn lemma_decode_char_range(c: u8)
    ensures
        is_base64_char(c) <==> decode_char_spec(c) < 64,
        !is_base64_char(c) ==> decode_char_spec(c) == 0xff,
{
}

} // verus!
