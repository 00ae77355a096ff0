//! Laws relating encoding and decoding: padded encodings always have a
//! length that is a multiple of four, decoding inverts encoding, and a
//! strict-mode input of length 1 modulo 4 is always rejected.

use crate::base64::all_alphabet;
use crate::base64::checked_prefix;
use crate::base64::decode_region_spec;
use crate::base64::decode_spec;
use crate::base64::encode_group_spec;
use crate::base64::encode_spec;
use crate::base64::strict_trim_len;
use crate::base64::unpadded_len;
use crate::chars::encode_char_spec;
use crate::chars::is_base64_char;
use crate::chars::lemma_char_round_trip;
use crate::chars::lemma_encode_char_valid;
use crate::error::ErrorKind;
use vstd::prelude::*;

verus! {

/// The padding that encoding appends after the unpadded characters of a
/// byte sequence of length `l`.
pub open spec fn pad_suffix(l: int) -> Seq<u8> {
    if l % 3 == 1 {
        seq![0x3du8, 0x3du8]
    } else if l % 3 == 2 {
        seq![0x3du8]
    } else {
        Seq::<u8>::empty()
    }
}

/// For every byte sequence, the padded encoding's length is a multiple of
/// four.
pub proof fn lemma_encode_padded_length(s: Seq<u8>)
    ensures
        encode_spec(s, true).len() % 4 == 0,
    decreases s.len(),
{
    if s.len() >= 3 {
        lemma_encode_padded_length(s.skip(3));
    }
}

/// Every character of an unpadded encoding is an alphabet character.
proof fn lemma_encode_unpadded_alphabet(s: Seq<u8>)
    ensures
        all_alphabet(encode_spec(s, false)),
    decreases s.len(),
{
    let u = encode_spec(s, false);
    if s.len() >= 3 {
        let b0 = s[0];
        let b1 = s[1];
        let b2 = s[2];
        assert(b0 >> 2 < 64 && ((b0 << 4) | (b1 >> 4)) & 63 < 64 && ((b1 << 2) | (b2 >> 6)) & 63
            < 64 && b2 & 63 < 64) by (bit_vector);
        lemma_encode_char_valid(b0 >> 2);
        lemma_encode_char_valid(((b0 << 4) | (b1 >> 4)) & 63);
        lemma_encode_char_valid(((b1 << 2) | (b2 >> 6)) & 63);
        lemma_encode_char_valid(b2 & 63);
        lemma_encode_unpadded_alphabet(s.skip(3));
        let rest = encode_spec(s.skip(3), false);
        assert forall|j: int| 0 <= j < u.len() implies is_base64_char(u[j]) by {
            if j >= 4 {
                assert(u[j] == rest[j - 4]);
            }
        }
    } else if s.len() == 2 {
        let b0 = s[0];
        let b1 = s[1];
        assert(b0 >> 2 < 64 && ((b0 << 4) | (b1 >> 4)) & 63 < 64 && (b1 << 2) & 63 < 64)
            by (bit_vector);
        lemma_encode_char_valid(b0 >> 2);
        lemma_encode_char_valid(((b0 << 4) | (b1 >> 4)) & 63);
        lemma_encode_char_valid((b1 << 2) & 63);
    } else if s.len() == 1 {
        let b0 = s[0];
        assert(b0 >> 2 < 64 && (b0 << 4) & 63 < 64) by (bit_vector);
        lemma_encode_char_valid(b0 >> 2);
        lemma_encode_char_valid((b0 << 4) & 63);
    }
}

/// The padded encoding is the unpadded one followed by the padding that
/// the input length calls for.
proof fn lemma_encode_pad_split(s: Seq<u8>)
    ensures
        encode_spec(s, true) == encode_spec(s, false) + pad_suffix(s.len() as int),
    decreases s.len(),
{
    if s.len() >= 3 {
        lemma_encode_pad_split(s.skip(3));
        assert(encode_spec(s, true) =~= encode_spec(s, false) + pad_suffix(s.len() as int));
    } else {
        assert(encode_spec(s, true) =~= encode_spec(s, false) + pad_suffix(s.len() as int));
    }
}

/// The length of an unpadded encoding, by the input length's residue
/// modulo three.
proof fn lemma_encode_unpadded_length(s: Seq<u8>)
    ensures
        s.len() % 3 == 0 ==> encode_spec(s, false).len() == 4 * (s.len() / 3),
        s.len() % 3 == 1 ==> encode_spec(s, false).len() == 4 * (s.len() / 3) + 2,
        s.len() % 3 == 2 ==> encode_spec(s, false).len() == 4 * (s.len() / 3) + 3,
    decreases s.len(),
{
    if s.len() >= 3 {
        lemma_encode_unpadded_length(s.skip(3));
    }
}

/// Decoding recovers the bytes from an unpadded encoding.
proof fn lemma_decode_region_of_encode(s: Seq<u8>)
    ensures
        decode_region_spec(encode_spec(s, false)) == s,
    decreases s.len(),
{
    let u = encode_spec(s, false);
    if s.len() >= 3 {
        let b0 = s[0];
        let b1 = s[1];
        let b2 = s[2];
        let v0 = b0 >> 2;
        let v1 = ((b0 << 4) | (b1 >> 4)) & 63;
        let v2 = ((b1 << 2) | (b2 >> 6)) & 63;
        let v3 = b2 & 63;
        assert(v0 < 64 && v1 < 64 && v2 < 64 && v3 < 64) by (bit_vector)
            requires
                v0 == b0 >> 2,
                v1 == ((b0 << 4) | (b1 >> 4)) & 63,
                v2 == ((b1 << 2) | (b2 >> 6)) & 63,
                v3 == b2 & 63,
        ;
        lemma_char_round_trip(v0);
        lemma_char_round_trip(v1);
        lemma_char_round_trip(v2);
        lemma_char_round_trip(v3);
        assert(((v0 << 2) | (v1 >> 4)) == b0 && ((v1 << 4) | (v2 >> 2)) == b1 && ((v2 << 6) | v3)
            == b2) by (bit_vector)
            requires
                v0 == b0 >> 2,
                v1 == ((b0 << 4) | (b1 >> 4)) & 63,
                v2 == ((b1 << 2) | (b2 >> 6)) & 63,
                v3 == b2 & 63,
        ;
        let rest = encode_spec(s.skip(3), false);
        assert(u == encode_group_spec(b0, b1, b2) + rest);
        assert(u.len() >= 4);
        assert(u[0] == encode_char_spec(v0) && u[1] == encode_char_spec(v1) && u[2]
            == encode_char_spec(v2) && u[3] == encode_char_spec(v3));
        assert(u.skip(4) =~= rest);
        lemma_decode_region_of_encode(s.skip(3));
        assert(decode_region_spec(u) =~= s);
    } else if s.len() == 2 {
        let b0 = s[0];
        let b1 = s[1];
        let v0 = b0 >> 2;
        let v1 = ((b0 << 4) | (b1 >> 4)) & 63;
        let v2 = (b1 << 2) & 63;
        assert(v0 < 64 && v1 < 64 && v2 < 64) by (bit_vector)
            requires
                v0 == b0 >> 2,
                v1 == ((b0 << 4) | (b1 >> 4)) & 63,
                v2 == (b1 << 2) & 63,
        ;
        lemma_char_round_trip(v0);
        lemma_char_round_trip(v1);
        lemma_char_round_trip(v2);
        assert(((v0 << 2) | (v1 >> 4)) == b0 && ((v1 << 4) | (v2 >> 2)) == b1) by (bit_vector)
            requires
                v0 == b0 >> 2,
                v1 == ((b0 << 4) | (b1 >> 4)) & 63,
                v2 == (b1 << 2) & 63,
        ;
        assert(u.len() == 3);
        assert(u[0] == encode_char_spec(v0) && u[1] == encode_char_spec(v1) && u[2]
            == encode_char_spec(v2));
        assert(decode_region_spec(u) =~= s);
    } else if s.len() == 1 {
        let b0 = s[0];
        let v0 = b0 >> 2;
        let v1 = (b0 << 4) & 63;
        assert(v0 < 64 && v1 < 64) by (bit_vector)
            requires
                v0 == b0 >> 2,
                v1 == (b0 << 4) & 63,
        ;
        lemma_char_round_trip(v0);
        lemma_char_round_trip(v1);
        assert(((v0 << 2) | (v1 >> 4)) == b0) by (bit_vector)
            requires
                v0 == b0 >> 2,
                v1 == (b0 << 4) & 63,
        ;
        assert(u.len() == 2);
        assert(u[0] == encode_char_spec(v0) && u[1] == encode_char_spec(v1));
        assert(decode_region_spec(u) =~= s);
    } else {
        assert(decode_region_spec(u) =~= s);
    }
}

/// For every byte sequence, decoding its padded encoding under strict
/// padding gives back exactly the original bytes.
pub proof fn lemma_encode_decode_round_trip(s: Seq<u8>)
    ensures
        decode_spec(encode_spec(s, true), true) == Ok::<Seq<u8>, ErrorKind>(s),
{
    let u = encode_spec(s, false);
    let e = encode_spec(s, true);
    lemma_encode_pad_split(s);
    lemma_encode_unpadded_length(s);
    lemma_encode_unpadded_alphabet(s);
    lemma_decode_region_of_encode(s);

    if s.len() == 0 {
        assert(e.len() == 0);
        assert(decode_spec(e, true) == Ok::<Seq<u8>, ErrorKind>(Seq::<u8>::empty()));
        assert(s =~= Seq::<u8>::empty());
    } else {
        let l = s.len() as int;
        let k = l / 3;
        if l % 3 == 0 {
            assert(e =~= u);
            assert(u.len() == 4 * k && k >= 1);
            assert(u.len() % 4 == 0);
            assert(is_base64_char(u[u.len() - 1]));
            assert(u[u.len() - 1] != 0x3d);
            assert(strict_trim_len(e) == u.len());
        } else if l % 3 == 1 {
            assert(u.len() == 4 * k + 2);
            assert(e.len() == 4 * k + 4);
            assert(e.len() % 4 == 0);
            assert(e[e.len() - 1] == 0x3d);
            assert(e[e.len() - 2] == 0x3d);
            assert(strict_trim_len(e) == u.len());
        } else {
            assert(u.len() == 4 * k + 3);
            assert(e.len() == 4 * k + 4);
            assert(e.len() % 4 == 0);
            assert(e[e.len() - 1] == 0x3d);
            assert(e[e.len() - 2] == u[u.len() - 1]);
            assert(is_base64_char(u[u.len() - 1]));
            assert(u[u.len() - 1] != 0x3d);
            assert(strict_trim_len(e) == u.len());
        }
        let t = strict_trim_len(e);
        assert(t == u.len());
        assert(unpadded_len(e, true) == t);
        assert(t % 4 != 1);
        assert(u.len() >= 2);
        assert(e[t - 1] == u[u.len() - 1]);
        assert(is_base64_char(u[u.len() - 1]));
        assert(e[t - 1] != 0x3d);
        let region = e.take(t);
        assert(region =~= u);
        assert(checked_prefix(region) == region);
        assert(all_alphabet(region));
        assert(decode_spec(e, true) == Ok::<Seq<u8>, ErrorKind>(decode_region_spec(u)));
        assert(decode_region_spec(u) == s);
    }
}

/// Decoding an input of length 1 modulo 4 under strict padding fails with
/// `BadPadding`, whatever its bytes.
pub proof fn lemma_length_one_mod_four_rejected(s: Seq<u8>)
    requires
        s.len() % 4 == 1,
    ensures
        decode_spec(s, true) == Err::<Seq<u8>, ErrorKind>(ErrorKind::BadPadding),
{
    assert(strict_trim_len(s) == s.len());
}

} // verus!

