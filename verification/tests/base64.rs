use ct_base64::base64_decode;
use ct_base64::base64_decoded_max_size;
use ct_base64::base64_encode;
use ct_base64::base64_encoded_max_size;
use ct_base64::decode_base64_char;
use ct_base64::encode_base64_char;
use ct_base64::ErrorKind;

#[test]
fn test_encoding() {
    let mut encoded: Vec<u8> = Vec::new();
    for x in 0u8..64u8 {
        encoded.push(encode_base64_char(x));
    }
    assert_eq!(
        encoded,
        "ABCDEFGHIJKLMNOPQRSTUVWXYZabcdefghijklmnopqrstuvwxyz0123456789+/"
            .as_bytes()
            .to_owned()
    );
}

#[test]
fn test_decoding() {
    let mut decoded: Vec<u8> = Vec::new();
    for x in b"ABCDEFGHIJKLMNOPQRSTUVWXYZabcdefghijklmnopqrstuvwxyz0123456789+/".iter() {
        decoded.push(decode_base64_char(*x));
    }
    let expected: Vec<u8> = (0u8..64u8).collect();
    assert_eq!(decoded, expected);
}

#[test]
fn test_can_encode() {
    assert_eq!(
        &base64_encode(b"Hello, world!", true),
        b"SGVsbG8sIHdvcmxkIQ=="
    );
}

#[test]
fn test_can_decode() {
    assert_eq!(
        &*base64_decode(b"SGVsbG8sIHdvcmxkIQ==", true).unwrap(),
        b"Hello, world!"
    );
}

#[test]
fn test_can_encode_empty() {
    assert_eq!(&base64_encode(b"", true), b"");
}

#[test]
fn test_can_decode_empty() {
    assert_eq!(*base64_decode(b"", true).unwrap(), []);
}

#[test]
fn test_char_round_trip() {
    for v in 0u8..64u8 {
        assert_eq!(decode_base64_char(encode_base64_char(v)), v);
    }
}

#[test]
fn test_invalid_chars_decode_to_sentinel() {
    assert_eq!(decode_base64_char(b'='), 0xff);
    assert_eq!(decode_base64_char(b'!'), 0xff);
    assert_eq!(decode_base64_char(b' '), 0xff);
    assert_eq!(decode_base64_char(0x00), 0xff);
    assert_eq!(decode_base64_char(0xff), 0xff);
}

#[test]
fn test_encode_always_correctly_padded() {
    let mut bytes: Vec<u8> = Vec::new();
    for n in 0u8..=50u8 {
        bytes.push(n.wrapping_mul(37).wrapping_add(11));
        assert_eq!(base64_encode(&bytes, true).len() % 4, 0);
    }
}

#[test]
fn test_encode_decode_is_identity() {
    let mut bytes: Vec<u8> = Vec::new();
    for n in 0u8..=255u8 {
        bytes.push(n);
        let decoded = base64_decode(&base64_encode(&bytes, true), true).unwrap();
        assert_eq!(bytes, decoded);
    }
}

#[test]
fn test_encode_without_padding() {
    assert_eq!(&base64_encode(b"Hello, world!", false), b"SGVsbG8sIHdvcmxkIQ");
    assert_eq!(&base64_encode(b"Hi", false), b"SGk");
    assert_eq!(&base64_encode(b"H", false), b"SA");
}

#[test]
fn test_missing_padding_char_is_bad_padding() {
    assert_eq!(
        base64_decode(b"SGVsbG8sIHdvcmxkIQ=", true),
        Err(ErrorKind::BadPadding)
    );
}

#[test]
fn test_lenient_accepts_correct_padding() {
    assert_eq!(
        &*base64_decode(b"SGVsbG8sIHdvcmxkIQ==", false).unwrap(),
        b"Hello, world!"
    );
}

#[test]
fn test_lenient_strips_excess_padding() {
    assert_eq!(
        &*base64_decode(b"SGVsbG8sIHdvcmxkIQ===", false).unwrap(),
        b"Hello, world!"
    );
    assert_eq!(&*base64_decode(b"SGk=", false).unwrap(), b"Hi");
}

#[test]
fn test_invalid_encoding_char() {
    assert_eq!(base64_decode(b"!!!!", true), Err(ErrorKind::InvalidEncodingChar));
    assert_eq!(base64_decode(b"AB C", true), Err(ErrorKind::InvalidEncodingChar));
}

#[test]
fn test_length_one_mod_four_is_bad_padding() {
    assert_eq!(base64_decode(b"A", true), Err(ErrorKind::BadPadding));
    assert_eq!(base64_decode(b"SGVsb", true), Err(ErrorKind::BadPadding));
    assert_eq!(base64_decode(b"QQ===", true), Err(ErrorKind::BadPadding));
}

#[test]
fn test_over_padding_is_bad_padding() {
    assert_eq!(base64_decode(b"A===", true), Err(ErrorKind::BadPadding));
    assert_eq!(base64_decode(b"====", true), Err(ErrorKind::BadPadding));
}

#[test]
fn test_lenient_skips_dangling_symbol() {
    assert_eq!(*base64_decode(b"Q", false).unwrap(), []);
    assert_eq!(&*base64_decode(b"SGkxQ", false).unwrap(), b"Hi1");
    assert_eq!(
        base64_decode(b"SGk=Q", false),
        Err(ErrorKind::InvalidEncodingChar)
    );
}

#[test]
fn test_two_byte_and_one_byte_tails() {
    assert_eq!(&base64_encode(b"Hi", true), b"SGk=");
    assert_eq!(&base64_encode(b"H", true), b"SA==");
    assert_eq!(&*base64_decode(b"SGk=", true).unwrap(), b"Hi");
    assert_eq!(&*base64_decode(b"SA==", true).unwrap(), b"H");
}

#[test]
fn test_max_size_estimators() {
    assert_eq!(base64_encoded_max_size(0), 4);
    assert_eq!(base64_encoded_max_size(3), 8);
    assert_eq!(base64_encoded_max_size(13), 20);
    assert_eq!(base64_decoded_max_size(0), 3);
    assert_eq!(base64_decoded_max_size(4), 6);
    assert_eq!(base64_decoded_max_size(20), 18);
}
