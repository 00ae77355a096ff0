//! The buffer transcoder: drives the character mapper over 3-byte /
//! 4-character chunks of a buffer, with padding handling.

use crate::chars::decode_base64_char;
use crate::chars::decode_char_spec;
use crate::chars::encode_base64_char;
use crate::chars::encode_char_spec;
use crate::chars::is_base64_char;
use crate::error::ErrorKind;
use vstd::prelude::*;

verus! {

/// The four alphabet characters of one full 3-byte group.
pub open spec fn encode_group_spec(b0: u8, b1: u8, b2: u8) -> Seq<u8> {
    seq![
        encode_char_spec(b0 >> 2),
        encode_char_spec(((b0 << 4) | (b1 >> 4)) & 63),
        encode_char_spec(((b1 << 2) | (b2 >> 6)) & 63),
        encode_char_spec(b2 & 63),
    ]
}

/// The Base64 encoding of a byte sequence: full 3-byte groups become four
/// characters each; a final group of 2 bytes becomes three characters and,
/// if padding is requested, one `=`; a final group of 1 byte becomes two
/// characters and, if padding is requested, two `=`.
pub open spec fn encode_spec(s: Seq<u8>, add_padding: bool) -> Seq<u8>
    decreases s.len(),
{
    if s.len() >= 3 {
        encode_group_spec(s[0], s[1], s[2]) + encode_spec(s.skip(3), add_padding)
    } else if s.len() == 2 {
        seq![
            encode_char_spec(s[0] >> 2),
            encode_char_spec(((s[0] << 4) | (s[1] >> 4)) & 63),
            encode_char_spec((s[1] << 2) & 63),
        ] + if add_padding { seq![0x3du8] } else { Seq::<u8>::empty() }
    } else if s.len() == 1 {
        seq![encode_char_spec(s[0] >> 2), encode_char_spec((s[0] << 4) & 63)] + if add_padding {
            seq![0x3du8, 0x3du8]
        } else {
            Seq::<u8>::empty()
        }
    } else {
        Seq::<u8>::empty()
    }
}

/// Give the upper bound for the size of the buffer needed to contain the
/// result of encoding a bytestring `sz` bytes long into Base64.
pub fn base64_encoded_max_size(sz: usize) -> (r: usize)
    requires
        sz / 3 + 1 <= usize::MAX / 4,
    ensures
        r == (sz / 3 + 1) * 4,
{
    (sz / 3 + 1) * 4
}

/// Give the upper bound for the size of the buffer needed to contain the
/// result of decoding a Base64 string `sz` bytes long.
pub fn base64_decoded_max_size(sz: usize) -> (r: usize)
    ensures
        r == (sz / 4 + 1) * 3,
{
    proof {
        assert((sz / 4 + 1) * 3 <= usize::MAX) by (nonlinear_arith)
            requires
                sz <= usize::MAX,
        ;
    }
    (sz / 4 + 1) * 3
}

/// Encode a bytestring into Base64 in constant time.
///
/// The length bound keeps the pre-sized output buffer's capacity within
/// `usize`.
pub fn base64_encode(bytestring: &[u8], add_padding: bool) -> (r: Vec<u8>)
    requires
        bytestring@.len() / 3 + 1 <= usize::MAX / 4,
    ensures
        r@ == encode_spec(bytestring@, add_padding),
{
    let ghost s = bytestring@;
    let len = bytestring.len();
    // Guesstimate needed space (overprovision to avoid reallocs)
    let mut dest: Vec<u8> = Vec::with_capacity(base64_encoded_max_size(len));
    let mut i: usize = 0;

    proof {
        assert(s.skip(0) =~= s);
        assert(dest@ + encode_spec(s, add_padding) =~= encode_spec(s, add_padding));
    }
    while len - i >= 3
        invariant
            i <= len,
            len == s.len(),
            bytestring@ == s,
            encode_spec(s, add_padding) == dest@ + encode_spec(s.skip(i as int), add_padding),
        decreases len - i,
    {
        let b0 = bytestring[i];
        let b1 = bytestring[i + 1];
        let b2 = bytestring[i + 2];

        dest.push(encode_base64_char(b0 >> 2));
        dest.push(encode_base64_char((b0 << 4 | b1 >> 4) & 63));
        dest.push(encode_base64_char((b1 << 2 | b2 >> 6) & 63));
        dest.push(encode_base64_char(b2 & 63));

        proof {
            assert(b0 >> 2 < 64 && (b0 << 4 | b1 >> 4) & 63 < 64 && (b1 << 2 | b2 >> 6) & 63 < 64
                && b2 & 63 < 64) by (bit_vector);
            let t = s.skip(i as int);
            assert(t.len() >= 3);
            assert(t[0] == s[i as int] && t[1] == s[i as int + 1] && t[2] == s[i as int + 2]);
            assert(t.skip(3) =~= s.skip(i as int + 3));
            assert(encode_spec(t, add_padding) == encode_group_spec(s[i as int], s[i as int + 1],
                s[i as int + 2]) + encode_spec(s.skip(i as int + 3), add_padding));
            assert(dest@ + encode_spec(s.skip(i as int + 3), add_padding) =~= encode_spec(s,
                add_padding));
        }
        i += 3;
    }

    if len - i == 2 {
        let b0 = bytestring[i];
        let b1 = bytestring[i + 1];

        dest.push(encode_base64_char(b0 >> 2));
        dest.push(encode_base64_char((b0 << 4 | b1 >> 4) & 63));
        dest.push(encode_base64_char((b1 << 2) & 63));
        if add_padding {
            dest.push(0x3d);
        }
        proof {
            assert(b0 >> 2 < 64 && (b0 << 4 | b1 >> 4) & 63 < 64 && (b1 << 2) & 63 < 64)
                by (bit_vector);
            let t = s.skip(i as int);
            assert(t.len() == 2 && t[0] == s[i as int] && t[1] == s[i as int + 1]);
            assert(dest@ =~= encode_spec(s, add_padding));
        }
    } else if len - i == 1 {
        let b0 = bytestring[i];

        dest.push(encode_base64_char(b0 >> 2));
        dest.push(encode_base64_char((b0 << 4) & 63));
        if add_padding {
            dest.push(0x3d);
            dest.push(0x3d);
        }
        proof {
            assert(b0 >> 2 < 64 && (b0 << 4) & 63 < 64) by (bit_vector);
            let t = s.skip(i as int);
            assert(t.len() == 1 && t[0] == s[i as int]);
            assert(dest@ =~= encode_spec(s, add_padding));
        }
    } else {
        proof {
            assert(s.skip(i as int).len() == 0);
            assert(dest@ =~= encode_spec(s, add_padding));
        }
    }

    dest
}

/// The first output byte of a decoded group: the six bits of `x` followed
/// by the top two bits of `y`'s six.
pub open spec fn decode_b0_spec(x: u8, y: u8) -> u8 {
    (decode_char_spec(x) << 2) | (decode_char_spec(y) >> 4)
}

/// The second output byte of a decoded group.
pub open spec fn decode_b1_spec(y: u8, z: u8) -> u8 {
    (decode_char_spec(y) << 4) | (decode_char_spec(z) >> 2)
}

/// The third output byte of a decoded group.
pub open spec fn decode_b2_spec(z: u8, w: u8) -> u8 {
    (decode_char_spec(z) << 6) | decode_char_spec(w)
}

/// The bytes recovered from an unpadded region: each full group of four
/// characters yields three bytes; a final group of three characters yields
/// two bytes, of two characters one byte, and a dangling single character
/// yields nothing.
pub open spec fn decode_region_spec(s: Seq<u8>) -> Seq<u8>
    decreases s.len(),
{
    if s.len() >= 4 {
        seq![
            decode_b0_spec(s[0], s[1]),
            decode_b1_spec(s[1], s[2]),
            decode_b2_spec(s[2], s[3]),
        ] + decode_region_spec(s.skip(4))
    } else if s.len() == 3 {
        seq![decode_b0_spec(s[0], s[1]), decode_b1_spec(s[1], s[2])]
    } else if s.len() == 2 {
        seq![decode_b0_spec(s[0], s[1])]
    } else {
        Seq::<u8>::empty()
    }
}

/// Whether every byte of a sequence is an alphabet character.
pub open spec fn all_alphabet(s: Seq<u8>) -> bool {
    forall|j: int| 0 <= j < s.len() ==> is_base64_char(s[j])
}

/// The characters of an unpadded region whose validity the decoder checks:
/// all of them, except a dangling single character at the end of a region
/// of length 1 modulo 4, which is skipped rather than decoded.
pub open spec fn checked_prefix(s: Seq<u8>) -> Seq<u8> {
    if s.len() % 4 == 1 {
        s.take(s.len() - 1)
    } else {
        s
    }
}

/// The length that strict-mode padding trimming leaves: for an input whose
/// length is a multiple of four, up to two trailing `=` are removed.
pub open spec fn strict_trim_len(s: Seq<u8>) -> int {
    let l = s.len() as int;
    if l % 4 == 0 && l > 0 && s[l - 1] == 0x3d {
        if s[l - 2] == 0x3d {
            l - 2
        } else {
            l - 1
        }
    } else {
        l
    }
}

/// The number of trailing `=` characters.
pub open spec fn trailing_pad_count(s: Seq<u8>) -> int
    decreases s.len(),
{
    if s.len() > 0 && s[s.len() - 1] == 0x3d {
        1 + trailing_pad_count(s.drop_last())
    } else {
        0
    }
}

/// The length of the unpadded region that decoding works on: strict mode
/// trims exactly the padding that the length calls for, lenient mode strips
/// every trailing `=`.
pub open spec fn unpadded_len(s: Seq<u8>, strict_padding: bool) -> int {
    if strict_padding {
        strict_trim_len(s)
    } else {
        s.len() - trailing_pad_count(s)
    }
}

/// What decoding returns: the empty input yields the empty buffer; in
/// strict mode a trimmed length of 1 modulo 4, or leftover `=` next to the
/// trimmed region, is `BadPadding`; any checked character outside the
/// alphabet is `InvalidEncodingChar`; otherwise the decoded bytes.
pub open spec fn decode_spec(s: Seq<u8>, strict_padding: bool) -> Result<Seq<u8>, ErrorKind> {
    if s.len() == 0 {
        Ok(Seq::<u8>::empty())
    } else {
        let e = unpadded_len(s, strict_padding);
        if strict_padding && (e % 4 == 1 || s[e - 1] == 0x3d) {
            Err(ErrorKind::BadPadding)
        } else {
            let region = s.take(e);
            if all_alphabet(checked_prefix(region)) {
                Ok(decode_region_spec(region))
            } else {
                Err(ErrorKind::InvalidEncodingChar)
            }
        }
    }
}

/// A decode result with the output buffer seen as a sequence.
pub open spec fn decoded_view(r: Result<Vec<u8>, ErrorKind>) -> Result<Seq<u8>, ErrorKind> {
    match r {
        Ok(v) => Ok(v@),
        Err(e) => Err(e),
    }
}

/// A scan that stopped at the last non-`=` byte has counted exactly the
/// trailing padding.
proof fn lemma_trailing_pad_count(s: Seq<u8>, e: int)
    requires
        0 <= e <= s.len(),
        forall|j: int| e <= j < s.len() ==> s[j] == 0x3d,
        e == 0 || s[e - 1] != 0x3d,
    ensures
        trailing_pad_count(s) == s.len() - e,
    decreases s.len(),
{
    if s.len() == 0 {
    } else if e == s.len() as int {
        assert(s[s.len() - 1] != 0x3d);
    } else {
        let t = s.drop_last();
        assert(s[s.len() - 1] == 0x3d);
        assert(forall|j: int| e <= j < t.len() ==> t[j] == s[j]);
        lemma_trailing_pad_count(t, e);
    }
}

/// A byte's high bit survives into the aggregate of a bitwise or.
proof fn lemma_or_high_bit(a: u8, b: u8)
    ensures
        ((a | b) & 0x80 == 0) <==> (a & 0x80 == 0 && b & 0x80 == 0),
{
    assert(((a | b) & 0x80 == 0) <==> (a & 0x80 == 0 && b & 0x80 == 0)) by (bit_vector);
}

/// The decoded value of a byte has its high bit clear exactly when the
/// byte is an alphabet character.
proof fn lemma_decode_high_bit(c: u8)
    ensures
        (decode_char_spec(c) & 0x80 == 0) <==> is_base64_char(c),
{
    crate::chars::lemma_decode_char_range(c);
    let d = decode_char_spec(c);
    assert((d < 64 || d == 0xff) ==> ((d & 0x80 == 0) <==> d < 64)) by (bit_vector);
}

/// Decode a Base64 encoded bytestring in constant time.
#[verifier::rlimit(50)]
pub fn base64_decode(encoded: &[u8], strict_padding: bool) -> (r: Result<Vec<u8>, ErrorKind>)
    ensures
        decoded_view(r) == decode_spec(encoded@, strict_padding),
{
    if encoded.len() == 0 {
        return Ok(Vec::new());
    }
    let ghost s = encoded@;
    let len = encoded.len();

    let end_len: usize = if strict_padding {
        let mut e = len;
        if e % 4 == 0 && encoded[e - 1] == 0x3d {
            e = e - 1;
            if encoded[e - 1] == 0x3d {
                e = e - 1;
            }
        }
        proof {
            assert(e == strict_trim_len(s));
        }
        if e % 4 == 1 {
            return Err(ErrorKind::BadPadding);
        }
        if encoded[e - 1] == 0x3d {
            return Err(ErrorKind::BadPadding);
        }
        e
    } else {
        let mut e = len;
        while e > 0 && encoded[e - 1] == 0x3d
            invariant
                e <= len,
                len == s.len(),
                encoded@ == s,
                forall|j: int| e <= j < len ==> s[j] == 0x3d,
            decreases e,
        {
            e = e - 1;
        }
        proof {
            lemma_trailing_pad_count(s, e as int);
        }
        e
    };

    let ghost region = s.take(end_len as int);
    let mut out: Vec<u8> = Vec::with_capacity(base64_decoded_max_size(len));
    let mut acc: u8 = 0;
    let mut i: usize = 0;

    proof {
        assert(region.skip(0) =~= region);
        assert(out@ + decode_region_spec(region) =~= decode_region_spec(region));
        assert(0u8 & 0x80 == 0) by (bit_vector);
    }
    while end_len - i >= 4
        invariant
            i <= end_len,
            i % 4 == 0,
            end_len <= len,
            len == s.len(),
            encoded@ == s,
            s.len() > 0,
            region == s.take(end_len as int),
            end_len as int == unpadded_len(s, strict_padding),
            strict_padding ==> end_len % 4 != 1 && s[end_len - 1] != 0x3d,
            decode_region_spec(region) == out@ + decode_region_spec(region.skip(i as int)),
            (acc & 0x80 == 0) <==> (forall|j: int| 0 <= j < i ==> is_base64_char(region[j])),
        decreases end_len - i,
    {
        let c0 = decode_base64_char(encoded[i]);
        let c1 = decode_base64_char(encoded[i + 1]);
        let c2 = decode_base64_char(encoded[i + 2]);
        let c3 = decode_base64_char(encoded[i + 3]);

        out.push(c0 << 2 | c1 >> 4);
        out.push(c1 << 4 | c2 >> 2);
        out.push(c2 << 6 | c3);

        let joined = c0 | c1 | c2 | c3;
        let ghost acc_old = acc;
        acc = acc | joined;

        proof {
            assert(region[i as int] == s[i as int] && region[i as int + 1] == s[i as int + 1]
                && region[i as int + 2] == s[i as int + 2] && region[i as int + 3] == s[i as int
                + 3]);
            let t = region.skip(i as int);
            assert(t.len() >= 4);
            assert(t[0] == region[i as int] && t[1] == region[i as int + 1] && t[2] == region[
                i as int + 2] && t[3] == region[i as int + 3]);
            assert(t.skip(4) =~= region.skip(i as int + 4));
            assert(out@ + decode_region_spec(region.skip(i as int + 4)) =~= decode_region_spec(
                region,
            ));

            lemma_or_high_bit(acc_old, joined);
            lemma_or_high_bit(c0 | c1 | c2, c3);
            lemma_or_high_bit(c0 | c1, c2);
            lemma_or_high_bit(c0, c1);
            lemma_decode_high_bit(region[i as int]);
            lemma_decode_high_bit(region[i as int + 1]);
            lemma_decode_high_bit(region[i as int + 2]);
            lemma_decode_high_bit(region[i as int + 3]);
            assert((acc & 0x80 == 0) <==> (acc_old & 0x80 == 0 && is_base64_char(region[i as int])
                && is_base64_char(region[i as int + 1]) && is_base64_char(region[i as int + 2])
                && is_base64_char(region[i as int + 3])));
            if acc & 0x80 == 0 {
                assert forall|j: int| 0 <= j < i + 4 implies is_base64_char(region[j]) by {
                    if j == i {
                    } else if j == i + 1 {
                    } else if j == i + 2 {
                    } else if j == i + 3 {
                    } else {
                        assert(0 <= j < i);
                    }
                }
            }
            if forall|j: int| 0 <= j < i + 4 ==> is_base64_char(region[j]) {
                assert(is_base64_char(region[i as int]));
                assert(is_base64_char(region[i as int + 1]));
                assert(is_base64_char(region[i as int + 2]));
                assert(is_base64_char(region[i as int + 3]));
                assert(forall|j: int| 0 <= j < i ==> is_base64_char(region[j]));
                assert(acc & 0x80 == 0);
            }
        }
        i += 4;
    }

    let rem = end_len - i;
    if rem == 3 {
        let c0 = decode_base64_char(encoded[i]);
        let c1 = decode_base64_char(encoded[i + 1]);
        let c2 = decode_base64_char(encoded[i + 2]);

        out.push(c0 << 2 | c1 >> 4);
        out.push(c1 << 4 | c2 >> 2);

        let joined = c0 | c1 | c2;
        let ghost acc_old = acc;
        acc = acc | joined;

        proof {
            assert(region[i as int] == s[i as int] && region[i as int + 1] == s[i as int + 1]
                && region[i as int + 2] == s[i as int + 2]);
            let t = region.skip(i as int);
            assert(t.len() == 3);
            assert(t[0] == region[i as int] && t[1] == region[i as int + 1] && t[2] == region[
                i as int + 2]);
            assert(out@ =~= decode_region_spec(region));

            lemma_or_high_bit(acc_old, joined);
            lemma_or_high_bit(c0 | c1, c2);
            lemma_or_high_bit(c0, c1);
            lemma_decode_high_bit(region[i as int]);
            lemma_decode_high_bit(region[i as int + 1]);
            lemma_decode_high_bit(region[i as int + 2]);
            assert((acc & 0x80 == 0) <==> (acc_old & 0x80 == 0 && is_base64_char(region[i as int])
                && is_base64_char(region[i as int + 1]) && is_base64_char(region[i as int + 2])));
            assert(checked_prefix(region) == region);
            if acc & 0x80 == 0 {
                assert forall|j: int| 0 <= j < region.len() implies is_base64_char(region[j]) by {
                    if j == i {
                    } else if j == i + 1 {
                    } else if j == i + 2 {
                    } else {
                        assert(0 <= j < i);
                    }
                }
                assert(all_alphabet(region));
            }
            if all_alphabet(region) {
                assert(is_base64_char(region[i as int]));
                assert(is_base64_char(region[i as int + 1]));
                assert(is_base64_char(region[i as int + 2]));
                assert(forall|j: int| 0 <= j < i ==> is_base64_char(region[j]));
                assert(acc & 0x80 == 0);
            }
            assert((acc & 0x80 == 0) <==> all_alphabet(checked_prefix(region)));
        }
    } else if rem == 2 {
        let c0 = decode_base64_char(encoded[i]);
        let c1 = decode_base64_char(encoded[i + 1]);

        out.push(c0 << 2 | c1 >> 4);

        let joined = c0 | c1;
        let ghost acc_old = acc;
        acc = acc | joined;

        proof {
            assert(region[i as int] == s[i as int] && region[i as int + 1] == s[i as int + 1]);
            let t = region.skip(i as int);
            assert(t.len() == 2);
            assert(t[0] == region[i as int] && t[1] == region[i as int + 1]);
            assert(out@ =~= decode_region_spec(region));

            lemma_or_high_bit(acc_old, joined);
            lemma_or_high_bit(c0, c1);
            lemma_decode_high_bit(region[i as int]);
            lemma_decode_high_bit(region[i as int + 1]);
            assert((acc & 0x80 == 0) <==> (acc_old & 0x80 == 0 && is_base64_char(region[i as int])
                && is_base64_char(region[i as int + 1])));
            assert(checked_prefix(region) == region);
            if acc & 0x80 == 0 {
                assert forall|j: int| 0 <= j < region.len() implies is_base64_char(region[j]) by {
                    if j == i {
                    } else if j == i + 1 {
                    } else {
                        assert(0 <= j < i);
                    }
                }
                assert(all_alphabet(region));
            }
            if all_alphabet(region) {
                assert(is_base64_char(region[i as int]));
                assert(is_base64_char(region[i as int + 1]));
                assert(forall|j: int| 0 <= j < i ==> is_base64_char(region[j]));
                assert(acc & 0x80 == 0);
            }
            assert((acc & 0x80 == 0) <==> all_alphabet(checked_prefix(region)));
        }
    } else if rem == 1 {
        // A dangling single symbol taints the accumulator in strict mode;
        // strict trimming has already rejected every length of 1 modulo 4,
        // so only lenient mode reaches this group, and skips it.
        proof {
            assert(end_len % 4 == 1);
            assert(!strict_padding);
        }
        if strict_padding {
            acc = acc | 0x80;
        }
        proof {
            let t = region.skip(i as int);
            assert(t.len() == 1);
            assert(out@ =~= decode_region_spec(region));
            let cp = checked_prefix(region);
            assert(cp == region.take(i as int));
            assert(cp.len() == i);
            assert(forall|j: int| 0 <= j < i ==> cp[j] == region[j]);
            if acc & 0x80 == 0 {
                assert forall|j: int| 0 <= j < cp.len() implies is_base64_char(cp[j]) by {
                    assert(cp[j] == region[j]);
                }
                assert(all_alphabet(cp));
            }
            if all_alphabet(cp) {
                assert forall|j: int| 0 <= j < i implies is_base64_char(region[j]) by {
                    assert(cp[j] == region[j]);
                    assert(is_base64_char(cp[j]));
                }
                assert(acc & 0x80 == 0);
            }
            assert((acc & 0x80 == 0) <==> all_alphabet(checked_prefix(region)));
        }
    } else {
        proof {
            let t = region.skip(i as int);
            assert(t.len() == 0);
            assert(out@ =~= decode_region_spec(region));
            assert(checked_prefix(region) == region);
            assert(region.len() == i);
            assert((acc & 0x80 == 0) <==> all_alphabet(checked_prefix(region)));
        }
    }

    if acc & 0x80 != 0 {
        Err(ErrorKind::InvalidEncodingChar)
    } else {
        Ok(out)
    }
}

} // verus!
