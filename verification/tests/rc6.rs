use sqp_core::rc6::{decrypt_block, encrypt_block, key_schedule};

fn hex16(s: &str) -> [u8; 16] {
    let mut out = [0u8; 16];
    for i in 0..16 {
        out[i] = u8::from_str_radix(&s[2 * i..2 * i + 2], 16).unwrap();
    }
    out
}

#[test]
fn encrypt_then_decrypt_is_identity() {
    let key: [u8; 16] = *b"0123456789abcdef";
    let pt: [u8; 16] = *b"FEDCBA9876543210";
    let s = key_schedule(&key);
    assert_eq!(s.len(), 44);
    let ct = encrypt_block(&pt, &s);
    assert_ne!(ct, pt);
    let back = decrypt_block(&ct, &s);
    assert_eq!(back, pt);
}

#[test]
fn rc6_published_vector_zero_key() {
    let key = [0u8; 16];
    let pt = [0u8; 16];
    let s = key_schedule(&key);
    let ct = encrypt_block(&pt, &s);
    assert_eq!(ct, hex16("8fc3a53656b1f778c129df4e9848a41e"));
    assert_eq!(decrypt_block(&ct, &s), pt);
}

#[test]
fn rc6_published_vector_128_bit_key() {
    let key = hex16("0123456789abcdef0112233445566778");
    let pt = hex16("02132435465768798a9bacbdcedfe0f1");
    let s = key_schedule(&key);
    let ct = encrypt_block(&pt, &s);
    assert_eq!(ct, hex16("524e192f4715c6231f51f6367ea43f18"));
    assert_eq!(decrypt_block(&ct, &s), pt);
}

#[test]
fn key_schedule_of_longer_keys() {
    let key24: Vec<u8> = (0u8..24).collect();
    let key32: Vec<u8> = (100u8..132).collect();
    let s24 = key_schedule(&key24);
    let s32 = key_schedule(&key32);
    assert_eq!(s24.len(), 44);
    assert_eq!(s32.len(), 44);
    assert_ne!(s24, s32);
    let pt: [u8; 16] = *b"sixteen byte blk";
    for s in [&s24, &s32] {
        let ct = encrypt_block(&pt, s);
        assert_ne!(ct, pt);
        assert_eq!(decrypt_block(&ct, s), pt);
    }
}

#[test]
fn round_trip_with_short_schedules() {
    let s: Vec<u32> = vec![1, 2, 3, 4];
    let pt: [u8; 16] = [9; 16];
    let ct = encrypt_block(&pt, &s);
    assert_eq!(decrypt_block(&ct, &s), pt);
    let s6: Vec<u32> = vec![0xdead_beef, 7, 11, 13, 17, 19];
    let ct6 = encrypt_block(&pt, &s6);
    assert_eq!(decrypt_block(&ct6, &s6), pt);
}

#[test]
fn decrypt_then_encrypt_is_identity() {
    let key = hex16("0123456789abcdef0112233445566778");
    let s = key_schedule(&key);
    let ct = hex16("00112233445566778899aabbccddeeff");
    let pt = decrypt_block(&ct, &s);
    assert_ne!(pt, ct);
    assert_eq!(encrypt_block(&pt, &s), ct);
    let short: Vec<u32> = vec![1, 2, 3, 4, 5, 6];
    assert_eq!(encrypt_block(&decrypt_block(&ct, &short), &short), ct);
}
