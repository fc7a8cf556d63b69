use sqp_core::bytepool::BytePool;
use sqp_core::codec::{
    decode, derive_key, encode, pack_plaintext, pack_preview, parse_plaintext, parse_preview,
    undash_string, Fields,
};
use sqp_core::maps::{color_id, derive_ink_type_id, volume_id, InkType};
use sqp_core::{rfe32, SqpError};

fn sample_pool() -> BytePool {
    let bytes: Vec<u8> = (0..4096u32).map(|i| ((i * 31 + 17) % 251) as u8).collect();
    BytePool::from_bytes(bytes).unwrap()
}

fn sample() -> Fields {
    Fields {
        volume: 20,
        color: 1,
        number: 34291,
        month: 5,
        year: 2027,
        ink_type_id: 19,
        legacy_tara_raw: 20,
        batch: "UB26082F1".into(),
    }
}

#[allow(clippy::too_many_arguments)]
fn fields(
    ink: InkType,
    color: &str,
    vol: u8,
    month: u8,
    year: i32,
    batch: &str,
    number: u16,
    tara: u8,
) -> Fields {
    Fields {
        volume: volume_id(vol).unwrap(),
        color: color_id(color).unwrap(),
        number,
        month,
        year,
        ink_type_id: derive_ink_type_id(ink, color).unwrap(),
        legacy_tara_raw: tara,
        batch: batch.to_string(),
    }
}

fn reference_cases() -> Vec<(Fields, &'static str)> {
    vec![
        (
            fields(InkType::Kx2, "Black", 5, 5, 2027, "UB26082F1", 34291, 20),
            "2XEL-58NW-D4PC-L34B-5E3M-8E6F-LYWJ-LCML",
        ),
        (
            fields(InkType::Kx2, "Cyan", 5, 5, 2027, "UB26103F1", 1, 18),
            "8QSS-N7GW-D9RD-5FDC-6MTA-TGAF-3ZWT-A8DL",
        ),
        (
            fields(InkType::Sqsg3, "Magenta", 1, 12, 2028, "UB17483F1", 65535, 7),
            "AKZZ-JK7J-G3AE-U27D-29XY-SG76-RVCK-KT8L",
        ),
        (
            fields(InkType::Kx2, "Clear", 1, 1, 2030, "AAAAAAAAA", 0, 9),
            "PZCT-7VDJ-ASEY-99AJ-HHCE-UYDT-P9MJ-P2CM",
        ),
        (
            fields(InkType::Kx2, "Yellow", 5, 5, 2027, "UB26168F1", 39920, 22),
            "P6VR-43AW-V8LR-ZQ2E-N2EJ-2W6F-A2J7-Z4ZL",
        ),
    ]
}

#[test]
fn decode_roundtrips_and_is_valid() {
    let pool = sample_pool();
    let code = encode(&sample(), &pool);
    let r = decode(&code, &pool).unwrap();
    assert!(r.valid);
    assert_eq!(r.fields.volume, 20);
    assert_eq!(r.fields.color, 1);
    assert_eq!(r.fields.number, 34291);
    assert_eq!(r.fields.month, 5);
    assert_eq!(r.fields.year, 2027);
    assert_eq!(r.fields.batch, "UB26082F1");
}

#[test]
fn every_reference_field_set_round_trips() {
    let pool = sample_pool();
    for (f, _) in reference_cases() {
        let code = encode(&f, &pool);
        let r = decode(&code, &pool).unwrap();
        assert!(r.valid);
        assert_eq!(r.fields, f);
        let undashed: String = code.chars().filter(|&c| c != '-').collect();
        let r2 = decode(&undashed, &pool).unwrap();
        assert_eq!(r2.fields, f);
    }
}

#[test]
fn reference_codes_carry_their_preview_fields() {
    for (f, expected) in reference_cases() {
        let raw: String = expected.chars().filter(|&c| c != '-').collect();
        let rev_str: String = raw.chars().rev().collect();
        let mut rev = rfe32::decode(&rev_str).unwrap();
        rev.reverse();
        let pv = parse_preview(&[rev[19], rev[14], rev[9], rev[4]]);
        assert_eq!(pv.number, f.number & 0xFFF);
        assert_eq!(pv.year as i32, f.year - 2007);
        assert_eq!(pv.month, f.month);
        assert_eq!(pv.color, f.color);
        assert_eq!(pv.volume, f.volume);
        let packed = pack_preview(f.number & 0xFFF, (f.year - 2007) as u8, f.month, f.color, f.volume);
        assert_eq!(packed, [rev[19], rev[14], rev[9], rev[4]]);
    }
}

#[test]
fn code_is_eight_dashed_groups() {
    let pool = sample_pool();
    let code = encode(&sample(), &pool);
    assert_eq!(code.len(), 39);
    for (k, c) in code.chars().enumerate() {
        if k % 5 == 4 {
            assert_eq!(c, '-');
        } else {
            assert!(rfe32::decode(&c.to_string().repeat(32)).is_ok());
        }
    }
}

#[test]
fn decode_rejects_code_of_wrong_length() {
    let pool = sample_pool();
    assert_eq!(
        decode("ABC-D", &pool).unwrap_err(),
        SqpError::DecodeError("length 4 != 32".into())
    );
    assert_eq!(
        decode("", &pool).unwrap_err(),
        SqpError::DecodeError("length 0 != 32".into())
    );
    let long = "A".repeat(33);
    assert_eq!(
        decode(&long, &pool).unwrap_err(),
        SqpError::DecodeError("length 33 != 32".into())
    );
}

#[test]
fn decode_counts_bytes_then_characters() {
    let pool = sample_pool();
    let s = "\u{e9}".to_string() + &"A".repeat(30);
    assert_eq!(decode(&s, &pool).unwrap_err(), SqpError::BadLength(31));
    let bad = "AAAA-AAAA-AAAA-AAAA-AAAA-AAAA-AAAA-AAAI";
    assert_eq!(decode(bad, &pool).unwrap_err(), SqpError::CharNotInAlphabet('I'));
}

#[test]
fn year_outside_window_decodes_as_invalid() {
    let pool = sample_pool();
    let mut f = sample();
    f.year = 2071;
    let r = decode(&encode(&f, &pool), &pool).unwrap();
    assert!(!r.valid);
    assert_eq!(r.fields.year, 2071);
    f.year = 2006;
    let r = decode(&encode(&f, &pool), &pool).unwrap();
    assert!(!r.valid);
    assert_eq!(r.fields.year, 2006);
    f.year = 2007 + 1024;
    let r = decode(&encode(&f, &pool), &pool).unwrap();
    assert!(r.valid);
    assert_eq!(r.fields.year, 2007);
}

#[test]
fn wide_fields_come_back_cut_to_width() {
    let pool = sample_pool();
    let f = Fields {
        volume: 0xFF,
        color: 0xE3,
        number: 0xFFFF,
        month: 0x1C,
        year: 2010,
        ink_type_id: 0,
        legacy_tara_raw: 255,
        batch: "A\u{0}BCDEFGHIJKL".into(),
    };
    let r = decode(&encode(&f, &pool), &pool).unwrap();
    assert!(r.valid);
    assert_eq!(r.fields.volume, 0x1F);
    assert_eq!(r.fields.color, 0x03);
    assert_eq!(r.fields.number, 0xFFFF);
    assert_eq!(r.fields.month, 0x0C);
    assert_eq!(r.fields.year, 2010);
    assert_eq!(r.fields.ink_type_id, 0);
    assert_eq!(r.fields.legacy_tara_raw, 255);
    assert_eq!(r.fields.batch, "ABCDEFGH");
}

#[test]
fn pool_changes_the_code_but_not_the_preview() {
    let pool = sample_pool();
    let other = BytePool::from_bytes(vec![0u8; 4096]).unwrap();
    let a = encode(&sample(), &pool);
    let b = encode(&sample(), &other);
    assert_ne!(a, b);
    let r = decode(&a, &other).unwrap();
    assert!(!r.valid || r.fields != sample());
}

#[test]
fn packing_parsed_preview_gives_bytes_back() {
    for b in [[0u8, 0, 0, 0], [0xFF, 0xFF, 0xFF, 0xFF], [0x13, 0xA7, 0x5C, 0xE2], [7, 128, 8, 255]] {
        let p = parse_preview(&b);
        assert_eq!(pack_preview(p.number, p.year, p.month, p.color, p.volume), b);
    }
}

#[test]
fn packing_parsed_plaintext_gives_bytes_back() {
    let mut p = [0u8; 16];
    for (i, b) in [0xE5u8, 0x3C, 0x81, 0x9B, 0x07, 19, 20].iter().enumerate() {
        p[i] = *b;
    }
    p[7..12].copy_from_slice(b"UB26Z");
    assert_eq!(pack_plaintext(&parse_plaintext(&p)), p);
    p[7..16].copy_from_slice(b"UB26082F1");
    assert_eq!(pack_plaintext(&parse_plaintext(&p)), p);
}

#[test]
fn derived_key_ignores_number_bits_six_to_eleven() {
    let pool = sample_pool();
    let b = [0x13u8, 0xA7, 0x5C, 0xE2];
    let masked = [b[0] & 0xF8, b[1] & 0xF8, b[2], b[3]];
    assert_eq!(derive_key(&b, &pool), derive_key(&masked, &pool));
    assert_eq!(derive_key(&b, &pool).len(), 32);
    assert_ne!(derive_key(&b, &pool), derive_key(&[b[0], b[1], b[2] ^ 1, b[3]], &pool));
}

#[test]
fn encode_depends_only_on_carried_bits() {
    let pool = sample_pool();
    let f = sample();
    let code = encode(&f, &pool);
    let mut g = f.clone();
    g.year += 1024;
    assert_eq!(encode(&g, &pool), code);
    let mut h = f.clone();
    h.volume += 32;
    h.color += 64;
    h.month += 16;
    h.batch = "UB26082F1XYZ".into();
    assert_eq!(encode(&h, &pool), code);
    let mut k = f.clone();
    k.number ^= 1;
    assert_ne!(encode(&k, &pool), code);
}

#[test]
fn reencoding_decoded_fields_gives_the_canonical_code() {
    let pool = sample_pool();
    let code = encode(&sample(), &pool);
    let undashed = undash_string(&code);
    let lower_dashes = format!("{}-{}", &undashed[..10], &undashed[10..]);
    for text in [code.clone(), undashed.clone(), lower_dashes] {
        let r = decode(&text, &pool).unwrap();
        assert!(r.valid);
        assert_eq!(encode(&r.fields, &pool), code);
    }
}
