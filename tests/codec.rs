use base64_block::{decode_block, decoded_len, encode_block, encoded_len, DecodeError};

#[test]
fn test_encode_block() {
    assert_eq!("".to_string(), encode_block(b""));
    assert_eq!("Zg==".to_string(), encode_block(b"f"));
    assert_eq!("Zm8=".to_string(), encode_block(b"fo"));
    assert_eq!("Zm9v".to_string(), encode_block(b"foo"));
    assert_eq!("Zm9vYg==".to_string(), encode_block(b"foob"));
    assert_eq!("Zm9vYmE=".to_string(), encode_block(b"fooba"));
    assert_eq!("Zm9vYmFy".to_string(), encode_block(b"foobar"));
}

#[test]
fn test_decode_block() {
    assert_eq!(b"".to_vec(), decode_block("").unwrap());
    assert_eq!(b"f".to_vec(), decode_block("Zg==").unwrap());
    assert_eq!(b"fo".to_vec(), decode_block("Zm8=").unwrap());
    assert_eq!(b"foo".to_vec(), decode_block("Zm9v").unwrap());
    assert_eq!(b"foob".to_vec(), decode_block("Zm9vYg==").unwrap());
    assert_eq!(b"fooba".to_vec(), decode_block("Zm9vYmE=").unwrap());
    assert_eq!(b"foobar".to_vec(), decode_block("Zm9vYmFy").unwrap());
}

#[test]
fn test_strip_whitespace() {
    assert_eq!(b"foobar".to_vec(), decode_block(" Zm9vYmFy\n").unwrap());
    assert_eq!(b"foob".to_vec(), decode_block(" Zm9vYg==\n").unwrap());
}

const SCENARIOS: [(&str, &str); 7] = [
    ("", ""),
    ("f", "Zg=="),
    ("fo", "Zm8="),
    ("foo", "Zm9v"),
    ("foob", "Zm9vYg=="),
    ("fooba", "Zm9vYmE="),
    ("foobar", "Zm9vYmFy"),
];

#[test]
fn scenarios_decode_with_surrounding_whitespace() {
    for (plain, text) in SCENARIOS.iter() {
        let wrapped = format!(" {}\n", text);
        assert_eq!(plain.as_bytes().to_vec(), decode_block(&wrapped).unwrap());
        assert_eq!(plain.as_bytes().to_vec(), decode_block(text).unwrap());
    }
}

#[test]
fn round_trip_all_byte_values() {
    let bytes: Vec<u8> = (0..=255u8).collect();
    for len in 0..bytes.len() {
        let src = &bytes[..len];
        let text = encode_block(src);
        assert_eq!(src.to_vec(), decode_block(&text).unwrap());
        let spaced = format!(" {}\n", text);
        assert_eq!(src.to_vec(), decode_block(&spaced).unwrap());
    }
}

#[test]
fn round_trip_high_bytes() {
    let src: Vec<u8> = vec![0xff, 0xfe, 0xfd, 0x00, 0x80, 0x7f, 0x3f];
    let text = encode_block(&src);
    assert_eq!("//79AIB/Pw==".to_string(), text);
    assert_eq!(src, decode_block(&text).unwrap());
}

#[test]
fn encoded_length_law() {
    for len in 0..40usize {
        let src = vec![0x5au8; len];
        let expected = if len == 0 { 0 } else { 4 * ((len + 2) / 3) };
        assert_eq!(expected, encode_block(&src).len());
    }
}

#[test]
fn encode_uses_whole_alphabet() {
    assert_eq!(
        "AAECAwQFBgcICQoLDA0ODxAREhMUFRYXGBkaGxwdHh8=".to_string(),
        encode_block(&(0..32u8).collect::<Vec<u8>>())
    );
    assert_eq!("+/+/".to_string(), encode_block(&[0xfb, 0xff, 0xbf]));
}

#[test]
fn decode_rejects_partial_group() {
    assert_eq!(Err(DecodeError), decode_block("Zm9"));
    assert_eq!(Err(DecodeError), decode_block(" Zm9vY \n"));
    assert_eq!(Err(DecodeError), decode_block("Z"));
}

#[test]
fn decode_rejects_bad_symbol() {
    assert_eq!(Err(DecodeError), decode_block("Zm9!"));
    assert_eq!(Err(DecodeError), decode_block("Zm-v"));
    assert_eq!(Err(DecodeError), decode_block("Zm\u{e9}v"));
}

#[test]
fn decode_rejects_interior_whitespace() {
    assert_eq!(Err(DecodeError), decode_block("Zm9 Ym8="));
    assert_eq!(Err(DecodeError), decode_block("Zm9v\nYmFy"));
}

#[test]
fn decode_rejects_misplaced_padding() {
    assert_eq!(Err(DecodeError), decode_block("Zm=v"));
    assert_eq!(Err(DecodeError), decode_block("Z==="));
    assert_eq!(Err(DecodeError), decode_block("===="));
    assert_eq!(Err(DecodeError), decode_block("Zg==Zm8="));
}

#[test]
fn decode_trims_unicode_whitespace() {
    assert_eq!(b"foo".to_vec(), decode_block("\u{3000}\tZm9v\u{a0}\r\n").unwrap());
    assert_eq!(b"".to_vec(), decode_block(" \n\t ").unwrap());
}

#[test]
fn decode_keeps_non_canonical_bits() {
    assert_eq!(b"f".to_vec(), decode_block("Zh==").unwrap());
}

#[test]
fn encoded_len_values() {
    assert_eq!(Some(1), encoded_len(0));
    assert_eq!(Some(5), encoded_len(1));
    assert_eq!(Some(5), encoded_len(3));
    assert_eq!(Some(9), encoded_len(4));
    assert_eq!(Some(2147483645), encoded_len(1610612733));
    assert_eq!(None, encoded_len(1610612734));
    assert_eq!(None, encoded_len(i32::MAX));
}

#[test]
fn decoded_len_values() {
    assert_eq!(Some(0), decoded_len(0));
    assert_eq!(Some(3), decoded_len(1));
    assert_eq!(Some(3), decoded_len(4));
    assert_eq!(Some(6), decoded_len(5));
    assert_eq!(Some(1610612736), decoded_len(i32::MAX));
}
