use sqp_core::bytepool::BytePool;
use sqp_core::codec::decode;
use sqp_core::codec::{encode, Fields};
use sqp_core::generate::{place_code, valid_batch};
use sqp_core::{
    auto_batch, generate, generate_with, CalendarDate, CodeRng, CodeSet, GenerateRequest, InkType,
    SqpError,
};

fn sample_pool() -> BytePool {
    let bytes: Vec<u8> = (0..4096u32).map(|i| ((i * 13 + 5) % 256) as u8).collect();
    BytePool::from_bytes(bytes).unwrap()
}

fn request(ink_type: InkType, color: &str, batch: &str, count: u8) -> GenerateRequest {
    GenerateRequest {
        ink_type,
        color: color.into(),
        volume_l: 5,
        expires_year: 2027,
        expires_month: 5,
        batch: batch.into(),
        count,
    }
}

#[test]
fn auto_batch_matches_ruby_strftime() {
    let d = CalendarDate::from_ymd(2026, 6, 17).unwrap();
    assert_eq!(auto_batch(&d), "UB26168F1");
}

#[test]
fn auto_batch_pads_year_and_day() {
    assert_eq!(auto_batch(&CalendarDate::from_ymd(2005, 1, 1).unwrap()), "UB05001F1");
    assert_eq!(auto_batch(&CalendarDate::from_ymd(2024, 12, 31).unwrap()), "UB24366F1");
    assert_eq!(auto_batch(&CalendarDate::from_ymd(2023, 12, 31).unwrap()), "UB23365F1");
    assert_eq!(auto_batch(&CalendarDate::from_ymd(1900, 3, 1).unwrap()), "UB00060F1");
    assert_eq!(auto_batch(&CalendarDate::from_ymd(-5, 1, 10).unwrap()), "UB-5010F1");
    assert_eq!(auto_batch(&CalendarDate::from_ymd(-1999, 2, 1).unwrap()), "UB-99032F1");
    assert!(valid_batch(&auto_batch(&CalendarDate::from_ymd(2026, 6, 17).unwrap())));
}

#[test]
fn calendar_dates_follow_the_gregorian_calendar() {
    assert!(CalendarDate::from_ymd(2024, 2, 29).is_some());
    assert!(CalendarDate::from_ymd(2023, 2, 29).is_none());
    assert!(CalendarDate::from_ymd(1900, 2, 29).is_none());
    assert!(CalendarDate::from_ymd(2000, 2, 29).is_some());
    assert!(CalendarDate::from_ymd(2015, 0, 14).is_none());
    assert!(CalendarDate::from_ymd(2015, 4, 31).is_none());
    assert!(CalendarDate::from_ymd(400000, 1, 1).is_none());
    assert!(CalendarDate::from_ymd(-4, 2, 29).is_some());
}

#[test]
fn valid_batch_rules() {
    assert!(valid_batch("UB26103F1"));
    assert!(valid_batch("AAAAAAAAA"));
    assert!(valid_batch("123456789"));
    assert!(!valid_batch("bad"));
    assert!(!valid_batch("ub26103f1"));
    assert!(!valid_batch("UB26103F1X"));
    assert!(!valid_batch("UB2610-F1"));
    assert!(!valid_batch("UB2610\u{c9}F"));
}

#[test]
fn generate_produces_requested_count_of_valid_codes() {
    let pool = sample_pool();
    let req = request(InkType::Kx2, "Cyan", "UB26103F1", 3);
    let mut seen = CodeSet::new();
    let out = generate(&req, &pool, &mut seen).unwrap();
    assert_eq!(out.len(), 3);
    for g in &out {
        assert_eq!(g.code_undashed, g.code.replace('-', ""));
        let r = decode(&g.code, &pool).unwrap();
        assert!(r.valid);
    }
    assert_eq!(seen.len(), 3);
}

#[test]
fn generate_rejects_bad_batch() {
    let pool = sample_pool();
    let req = request(InkType::Kx2, "Cyan", "bad", 1);
    let mut seen = CodeSet::new();
    assert!(matches!(generate(&req, &pool, &mut seen), Err(SqpError::BadBatch(_))));
}

#[test]
fn generate_rejects_sqsg3_clear() {
    let pool = sample_pool();
    let req = request(InkType::Sqsg3, "Clear", "UB26103F1", 1);
    let mut seen = CodeSet::new();
    assert!(matches!(
        generate(&req, &pool, &mut seen),
        Err(SqpError::InvalidCombo(_))
    ));
}

#[test]
fn generate_codes_carry_the_request() {
    let pool = sample_pool();
    let req = GenerateRequest {
        ink_type: InkType::Sqsg3,
        color: "Magenta".into(),
        volume_l: 1,
        expires_year: 2030,
        expires_month: 11,
        batch: "UB17483F1".into(),
        count: 20,
    };
    let mut seen = CodeSet::new();
    let out = generate(&req, &pool, &mut seen).unwrap();
    assert_eq!(out.len(), 20);
    for g in &out {
        assert!([7u8, 8, 9].contains(&g.legacy_tara_raw));
        assert!(seen.contains(&g.code));
        let r = decode(&g.code_undashed, &pool).unwrap();
        assert!(r.valid);
        assert_eq!(r.fields.volume, 8);
        assert_eq!(r.fields.color, 3);
        assert_eq!(r.fields.ink_type_id, 21);
        assert_eq!(r.fields.month, 11);
        assert_eq!(r.fields.year, 2030);
        assert_eq!(r.fields.number, g.number);
        assert_eq!(r.fields.legacy_tara_raw, g.legacy_tara_raw);
        assert_eq!(r.fields.batch, "UB17483F1");
    }
    for i in 0..out.len() {
        for j in 0..i {
            assert_ne!(out[i].code, out[j].code);
        }
    }
    let again = generate(&req, &pool, &mut seen).unwrap();
    assert_eq!(seen.len(), 40);
    for g in &again {
        assert!(out.iter().all(|h| h.code != g.code));
    }
}

#[test]
fn generate_reports_setup_errors_in_order() {
    let pool = sample_pool();
    let mut seen = CodeSet::new();
    let r = generate(&request(InkType::Kx2, "Puce", "UB26103F1", 1), &pool, &mut seen);
    assert_eq!(r.unwrap_err(), SqpError::UnknownColor("Puce".into()));
    let mut bad_volume = request(InkType::Kx2, "Cyan", "UB26103F1", 1);
    bad_volume.volume_l = 3;
    assert_eq!(generate(&bad_volume, &pool, &mut seen).unwrap_err(), SqpError::UnknownVolume(3));
    let r = generate(&request(InkType::Sqsg3, "Clear", "bad", 1), &pool, &mut seen);
    assert_eq!(r.unwrap_err(), SqpError::BadBatch("bad".into()));
    assert_eq!(seen.len(), 0);
}

#[test]
fn generate_rejects_a_year_outside_the_window() {
    let pool = sample_pool();
    let mut req = request(InkType::Kx2, "Cyan", "UB26103F1", 2);
    req.expires_year = 2100;
    let mut seen = CodeSet::new();
    assert!(matches!(
        generate(&req, &pool, &mut seen),
        Err(SqpError::EncoderRegression(_))
    ));
    assert_eq!(seen.len(), 0);
    req.count = 0;
    assert_eq!(generate(&req, &pool, &mut seen).unwrap().len(), 0);
}

#[test]
fn code_set_keeps_each_code_once() {
    let mut s = CodeSet::new();
    assert_eq!(s.len(), 0);
    assert!(s.insert("AAAA".into()));
    assert!(s.insert("BBBB".into()));
    assert!(!s.insert("AAAA".into()));
    assert_eq!(s.len(), 2);
    assert!(s.contains("BBBB"));
    assert!(!s.contains("CCCC"));
}

#[test]
fn place_code_records_new_codes_once() {
    let pool = sample_pool();
    let f = Fields {
        volume: 20,
        color: 2,
        number: 4242,
        month: 5,
        year: 2027,
        ink_type_id: 19,
        legacy_tara_raw: 18,
        batch: "UB26103F1".into(),
    };
    let mut seen = CodeSet::new();
    let g = place_code(&f, &pool, &mut seen).unwrap().unwrap();
    assert_eq!(g.code, encode(&f, &pool));
    assert_eq!(g.code_undashed, g.code.replace('-', ""));
    assert_eq!(g.number, 4242);
    assert_eq!(g.legacy_tara_raw, 18);
    assert!(seen.contains(&g.code));
    assert!(place_code(&f, &pool, &mut seen).unwrap().is_none());
    assert_eq!(seen.len(), 1);
    let mut late = f.clone();
    late.year = 2071;
    let e = place_code(&late, &pool, &mut seen).unwrap_err();
    assert_eq!(e, SqpError::EncoderRegression(encode(&late, &pool)));
    assert_eq!(seen.len(), 1);
}

#[test]
fn generate_zero_codes_leaves_the_set_alone() {
    let pool = sample_pool();
    let req = request(InkType::Kx2, "Cyan", "UB26103F1", 0);
    let mut seen = CodeSet::new();
    seen.insert("ALREADY".to_string());
    assert!(generate(&req, &pool, &mut seen).unwrap().is_empty());
    assert_eq!(seen.len(), 1);
}

#[test]
fn generate_one_code_into_an_empty_set_succeeds() {
    let pool = sample_pool();
    let req = request(InkType::Kx2, "Cyan", "UB26103F1", 1);
    for _ in 0..20 {
        let mut seen = CodeSet::new();
        let out = generate(&req, &pool, &mut seen).unwrap();
        assert_eq!(out.len(), 1);
        assert!(seen.contains(&out[0].code));
        assert_eq!(seen.len(), 1);
    }
}

#[test]
fn generate_with_one_source_gives_unique_codes_across_requests() {
    let pool = sample_pool();
    let mut rng = CodeRng::new();
    let mut seen = CodeSet::new();
    let first = generate_with(&request(InkType::Kx2, "Cyan", "UB26103F1", 4), &pool, &mut seen, &mut rng)
        .unwrap();
    let second =
        generate_with(&request(InkType::Kx2, "Cyan", "UB26103F1", 4), &pool, &mut seen, &mut rng)
            .unwrap();
    assert_eq!(first.len(), 4);
    assert_eq!(second.len(), 4);
    assert_eq!(seen.len(), 8);
    for g in first.iter().chain(second.iter()) {
        assert!(seen.contains(&g.code));
        assert!(decode(&g.code, &pool).unwrap().valid);
    }
    let bad = generate_with(&request(InkType::Kx2, "Cyan", "bad", 1), &pool, &mut seen, &mut rng);
    assert_eq!(bad.unwrap_err(), SqpError::BadBatch("bad".into()));
    assert_eq!(seen.len(), 8);
}
