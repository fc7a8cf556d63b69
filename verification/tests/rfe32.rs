use sqp_core::rfe32::{decode, encode};
use sqp_core::SqpError;

#[test]
fn roundtrip_all_bytes() {
    let bytes: [u8; 20] = [
        0, 1, 2, 3, 4, 5, 6, 7, 8, 9, 250, 251, 252, 253, 254, 255, 128, 64, 32, 16,
    ];
    let s = encode(&bytes);
    assert_eq!(s.len(), 32);
    assert_eq!(decode(&s).unwrap(), bytes);
}

#[test]
fn decode_rejects_wrong_length() {
    assert_eq!(decode("ABC"), Err(SqpError::BadLength(3)));
}

#[test]
fn decode_rejects_bad_char() {
    let bad = "I".to_string() + &"A".repeat(31);
    assert_eq!(decode(&bad), Err(SqpError::CharNotInAlphabet('I')));
}

#[test]
fn encode_of_zero_and_ones() {
    assert_eq!(encode(&[0u8; 20]), "A".repeat(32));
    assert_eq!(encode(&[255u8; 20]), "9".repeat(32));
    let mut one = [0u8; 20];
    one[19] = 1;
    assert_eq!(encode(&one), "A".repeat(31) + "B");
    let mut top = [0u8; 20];
    top[0] = 0x80;
    assert_eq!(encode(&top), "S".to_string() + &"A".repeat(31));
}

#[test]
fn decode_then_encode_gives_text_back() {
    let s = "ABCDEFGHJKLMNPQRSTUVWXYZ23456789";
    let b = decode(s).unwrap();
    assert_eq!(encode(&b), s);
}

#[test]
fn decode_counts_characters_not_bytes() {
    let s = "\u{e9}".repeat(32);
    assert_eq!(decode(&s), Err(SqpError::CharNotInAlphabet('\u{e9}')));
    assert_eq!(decode(&"\u{e9}".repeat(31)), Err(SqpError::BadLength(31)));
    let later = "A".repeat(5) + "O" + &"0".repeat(26);
    assert_eq!(decode(&later), Err(SqpError::CharNotInAlphabet('O')));
}
