//! The SQP product-code codec: the 4 clear "preview" bytes, the 16-byte
//! plaintext, key derivation from the byte pool, and the top-level `encode`
//! and `decode` of the canister code (32 RFE32 characters in dashed groups).

use vstd::prelude::*;
use crate::{SqpError, SqpErrorView, result_view};
use crate::bytepool::{BytePool, pool_slice, slice};
use crate::rc6;
use crate::rfe32;
use crate::text::{chars_of, push_char, push_decimal, decimal};
use vstd::utf8::encode_utf8;
use vstd::arithmetic::div_mod::{
    lemma_add_mod_noop, lemma_fundamental_div_mod, lemma_mod_add_multiples_vanish, lemma_mod_bound,
    lemma_mod_mod, lemma_mod_multiples_vanish, lemma_small_mod,
};

verus! {

/// The decoded, human-meaningful fields of a canister code.
#[derive(Debug, Clone, PartialEq, Eq)]
pub struct Fields {
    pub volume: u8,
    pub color: u8,
    pub number: u16,
    pub month: u8,
    pub year: i32,
    pub ink_type_id: u8,
    pub legacy_tara_raw: u8,
    pub batch: String,
}

/// The value of `Fields`, with the batch taken by its characters.
pub struct FieldsView {
    pub volume: u8,
    pub color: u8,
    pub number: u16,
    pub month: u8,
    pub year: i32,
    pub ink_type_id: u8,
    pub legacy_tara_raw: u8,
    pub batch: Seq<char>,
}

impl View for Fields {
    type V = FieldsView;

    open spec fn view(&self) -> FieldsView {
        FieldsView {
            volume: self.volume,
            color: self.color,
            number: self.number,
            month: self.month,
            year: self.year,
            ink_type_id: self.ink_type_id,
            legacy_tara_raw: self.legacy_tara_raw,
            batch: self.batch@,
        }
    }
}

/// Result of decoding a code: the recovered fields, and whether the clear
/// preview agrees with the decrypted plaintext.
#[derive(Debug)]
pub struct DecodeResult {
    pub fields: Fields,
    pub valid: bool,
}

impl View for DecodeResult {
    type V = (FieldsView, bool);

    open spec fn view(&self) -> (FieldsView, bool) {
        (self.fields@, self.valid)
    }
}

// ---------------------------------------------------------------------------
// Preview: four clear bytes
// ---------------------------------------------------------------------------

/// The fields that the four clear bytes of a code carry.
#[derive(Debug, Clone, Copy, PartialEq, Eq, Structural)]
pub struct Preview {
    pub number: u16,
    pub year: u8,
    pub month: u8,
    pub color: u8,
    pub volume: u8,
}

/// Reading the preview: byte `k` holds 3 bits of the 12-bit number in its low
/// bits; the high bits hold the 6-bit year (over bytes 0 and 1), the 4-bit
/// month, the 5-bit color and the 5-bit volume.
pub open spec fn parse_preview_spec(b: Seq<u8>) -> Preview {
    Preview {
        number: ((b[0] % 8) * 512 + (b[1] % 8) * 64 + (b[2] % 8) * 8 + b[3] % 8) as u16,
        year: ((b[0] / 8) * 2 + b[1] / 128) as u8,
        month: ((b[1] / 8) % 16) as u8,
        color: (b[2] / 8) as u8,
        volume: (b[3] / 8) as u8,
    }
}

/// Writing the preview from a 12-bit number, 6-bit year, 4-bit month, 5-bit
/// color and 5-bit volume (each cut to its width).
pub open spec fn pack_preview_spec(number12: u16, year6: u8, month4: u8, color5: u8, volume5: u8) -> Seq<u8> {
    let n = number12 % 4096;
    let y = year6 % 64;
    let m = month4 % 16;
    let c = color5 % 32;
    let v = volume5 % 32;
    seq![
        (n / 512 + (y / 2) * 8) as u8,
        ((n / 64) % 8 + m * 8 + (y % 2) * 128) as u8,
        ((n / 8) % 8 + c * 8) as u8,
        (n % 8 + v * 8) as u8,
    ]
}

/// Reads the fields of the four preview bytes.
pub fn parse_preview(b: &[u8; 4]) -> (p: Preview)
    ensures
        p == parse_preview_spec(b@),
{
    let (b0, b1, b2, b3) = (b[0] as u16, b[1] as u16, b[2] as u16, b[3] as u16);
    let number = (((b0 & 7) << 3 | (b1 & 7)) << 3 | (b2 & 7)) << 3 | (b3 & 7);
    let year = ((b[0] >> 3) << 1) | (b[1] >> 7);
    let month = (b[1] >> 3) & 0xF;
    let color = b[2] >> 3;
    let volume = b[3] >> 3;
    assert(number == (((b0 % 8) * 512 + (b1 % 8) * 64 + (b2 % 8) * 8 + b3 % 8) as u16))
        by (bit_vector)
        requires
            b0 < 256,
            b1 < 256,
            b2 < 256,
            b3 < 256,
            number == (((b0 & 7) << 3 | (b1 & 7)) << 3 | (b2 & 7)) << 3 | (b3 & 7),
    ;
    let (x0, x1, x2, x3) = (b[0], b[1], b[2], b[3]);
    assert(year == (((x0 / 8) * 2 + x1 / 128) as u8) && month == (((x1 / 8) % 16) as u8) && color
        == ((x2 / 8) as u8) && volume == ((x3 / 8) as u8)) by (bit_vector)
        requires
            year == ((x0 >> 3) << 1) | (x1 >> 7),
            month == (x1 >> 3) & 0xF,
            color == x2 >> 3,
            volume == x3 >> 3,
    ;
    Preview { number, year, month, color, volume }
}

/// Packs the preview fields into four bytes.
pub fn pack_preview(number12: u16, year6: u8, month4: u8, color5: u8, volume5: u8) -> (b: [u8; 4])
    ensures
        b@ == pack_preview_spec(number12, year6, month4, color5, volume5),
{
    let number = (number12 & 0xFFF) as u32;
    let year = (year6 & 0x3F) as u32;
    let month = (month4 & 0x0F) as u32;
    let color = (color5 & 0x1F) as u32;
    let volume = (volume5 & 0x1F) as u32;
    let b0 = ((number >> 9) & 7) | (((year >> 1) & 0x1F) << 3);
    let b1 = ((number >> 6) & 7) | ((month & 0xF) << 3) | ((year & 1) << 7);
    let b2 = ((number >> 3) & 7) | ((color & 0x1F) << 3);
    let b3 = (number & 7) | ((volume & 0x1F) << 3);
    let (n0, y0, m0, c0, v0) = (number12 as u32, year6 as u32, month4 as u32, color5 as u32,
    volume5 as u32);
    assert(number == n0 & 0xFFF) by (bit_vector)
        requires
            number == (number12 & 0xFFF) as u32,
            n0 == number12 as u32,
    ;
    assert(year == y0 & 0x3F) by (bit_vector)
        requires
            year == (year6 & 0x3F) as u32,
            y0 == year6 as u32,
    ;
    assert(month == m0 & 0x0F) by (bit_vector)
        requires
            month == (month4 & 0x0F) as u32,
            m0 == month4 as u32,
    ;
    assert(color == c0 & 0x1F) by (bit_vector)
        requires
            color == (color5 & 0x1F) as u32,
            c0 == color5 as u32,
    ;
    assert(volume == v0 & 0x1F) by (bit_vector)
        requires
            volume == (volume5 & 0x1F) as u32,
            v0 == volume5 as u32,
    ;
    assert(b0 == (((n0 % 4096) / 512 + ((y0 % 64) / 2) * 8) as u32) && b1 == ((((n0 % 4096) / 64)
        % 8 + (m0 % 16) * 8 + ((y0 % 64) % 2) * 128) as u32) && b2 == ((((n0 % 4096) / 8) % 8 + (c0
        % 32) * 8) as u32) && b3 == (((n0 % 4096) % 8 + (v0 % 32) * 8) as u32)) by (bit_vector)
        requires
            n0 < 65536,
            y0 < 256,
            m0 < 256,
            c0 < 256,
            v0 < 256,
            number == n0 & 0xFFF,
            year == y0 & 0x3F,
            month == m0 & 0x0F,
            color == c0 & 0x1F,
            volume == v0 & 0x1F,
            b0 == ((number >> 9) & 7) | (((year >> 1) & 0x1F) << 3),
            b1 == ((number >> 6) & 7) | ((month & 0xF) << 3) | ((year & 1) << 7),
            b2 == ((number >> 3) & 7) | ((color & 0x1F) << 3),
            b3 == (number & 7) | ((volume & 0x1F) << 3),
    ;
    let out = [b0 as u8, b1 as u8, b2 as u8, b3 as u8];
    assert(out@ =~= pack_preview_spec(number12, year6, month4, color5, volume5));
    out
}

/// Reading packed preview bytes gives back each field cut to its width.
pub proof fn lemma_parse_pack_preview(number12: u16, year6: u8, month4: u8, color5: u8, volume5: u8)
    ensures
        parse_preview_spec(pack_preview_spec(number12, year6, month4, color5, volume5))
            == (Preview {
            number: number12 % 4096,
            year: year6 % 64,
            month: month4 % 16,
            color: color5 % 32,
            volume: volume5 % 32,
        }),
{
    let b = pack_preview_spec(number12, year6, month4, color5, volume5);
    let (n0, y0, m0, c0, v0) = (number12 as u32, year6 as u32, month4 as u32, color5 as u32,
    volume5 as u32);
    let (x0, x1, x2, x3) = (b[0] as u32, b[1] as u32, b[2] as u32, b[3] as u32);
    assert((x0 % 8) * 512 + (x1 % 8) * 64 + (x2 % 8) * 8 + x3 % 8 == n0 % 4096 && (x0 / 8) * 2 + x1
        / 128 == y0 % 64 && (x1 / 8) % 16 == m0 % 16 && x2 / 8 == c0 % 32 && x3 / 8 == v0 % 32)
        by (bit_vector)
        requires
            n0 < 65536,
            y0 < 256,
            m0 < 256,
            c0 < 256,
            v0 < 256,
            x0 == (n0 % 4096) / 512 + ((y0 % 64) / 2) * 8,
            x1 == ((n0 % 4096) / 64) % 8 + (m0 % 16) * 8 + ((y0 % 64) % 2) * 128,
            x2 == ((n0 % 4096) / 8) % 8 + (c0 % 32) * 8,
            x3 == (n0 % 4096) % 8 + (v0 % 32) * 8,
    ;
}

// ---------------------------------------------------------------------------
// Plaintext: sixteen bytes under RC6
// ---------------------------------------------------------------------------

/// The batch characters that the nine batch bytes carry: each non-zero byte,
/// as the character with that code, in order.
pub open spec fn batch_chars(bs: Seq<u8>) -> Seq<char>
    decreases bs.len(),
{
    if bs.len() == 0 {
        Seq::empty()
    } else {
        let rest = batch_chars(bs.drop_last());
        if bs.last() == 0 {
            rest
        } else {
            rest.push(bs.last() as char)
        }
    }
}

/// The nine batch bytes of a batch: the first nine bytes of its UTF-8 text,
/// then zeros.
pub open spec fn batch_bytes(batch: Seq<char>) -> Seq<u8> {
    let bytes = encode_utf8(batch);
    Seq::new(9, |i: int| if i < bytes.len() { bytes[i] } else { 0 })
}

/// The 10-bit year field of the plaintext: `year - 2007 + 0x2CC`, modulo 1024.
pub open spec fn year_bits(year: int) -> int {
    (year - 2007 + 716) % 1024
}

/// Reading the plaintext: volume (5 bits), color (5), number (16), month (4)
/// and the 10-bit year field, packed from the low bits of byte 0 upward, then
/// the ink-type id, the tara, and the nine batch bytes.
pub open spec fn parse_plaintext_spec(p: Seq<u8>) -> FieldsView {
    FieldsView {
        volume: (p[0] % 32) as u8,
        color: (p[0] / 32 + (p[1] % 4) * 8) as u8,
        number: (p[1] / 4 + p[2] * 64 + (p[3] % 4) * 16384) as u16,
        month: ((p[3] / 4) % 16) as u8,
        year: (p[3] / 64 + p[4] * 4 - 716 + 2007) as i32,
        ink_type_id: p[5],
        legacy_tara_raw: p[6],
        batch: batch_chars(p.subrange(7, 16)),
    }
}

/// Writing the plaintext of some fields (each numeric field cut to its width).
pub open spec fn pack_plaintext_spec(f: FieldsView) -> Seq<u8> {
    let v = f.volume % 32;
    let c = f.color % 32;
    let n = f.number as int;
    let m = f.month % 16;
    let yb = year_bits(f.year as int);
    seq![
        (v + (c % 8) * 32) as u8,
        (c / 8 + (n % 64) * 4) as u8,
        ((n / 64) % 256) as u8,
        (n / 16384 + m * 4 + (yb % 4) * 64) as u8,
        (yb / 4) as u8,
        f.ink_type_id,
        f.legacy_tara_raw,
    ] + batch_bytes(f.batch)
}

/// The fields that reading back the plaintext of `f` gives.
pub open spec fn unpacked_fields(f: FieldsView) -> FieldsView {
    FieldsView {
        volume: f.volume % 32,
        color: f.color % 32,
        number: f.number,
        month: f.month % 16,
        year: (year_bits(f.year as int) - 716 + 2007) as i32,
        ink_type_id: f.ink_type_id,
        legacy_tara_raw: f.legacy_tara_raw,
        batch: batch_chars(batch_bytes(f.batch)),
    }
}

fn mod_1024(x: i64) -> (r: u32)
    requires
        x > i64::MIN,
    ensures
        r == x % 1024,
{
    if x >= 0 {
        (x % 1024) as u32
    } else {
        let t = (-x) % 1024;
        if t == 0 {
            0
        } else {
            (1024 - t) as u32
        }
    }
}

fn mod_256(x: i64) -> (r: u8)
    requires
        x > i64::MIN,
    ensures
        r == x % 256,
{
    if x >= 0 {
        (x % 256) as u8
    } else {
        let t = (-x) % 256;
        if t == 0 {
            0
        } else {
            (256 - t) as u8
        }
    }
}

/// Reads the fields of a 16-byte plaintext.
pub fn parse_plaintext(p: &[u8; 16]) -> (f: Fields)
    ensures
        f@ == parse_plaintext_spec(p@),
{
    let (c0, c1, c2, c3, c4) = (p[0] as u32, p[1] as u32, p[2] as u32, p[3] as u32, p[4] as u32);
    let volume = (c0 & 0x1F) as u8;
    let color = ((c0 >> 5) | ((c1 & 0x3) << 3)) as u8;
    let number = (c1 >> 2) | (c2 << 6) | ((c3 & 0x3) << 14);
    let month = ((c3 >> 2) & 0xF) as u8;
    let year_field = (c3 >> 6) | (c4 << 2);
    assert(c0 & 0x1F == c0 % 32 && (c0 >> 5) | ((c1 & 0x3) << 3) == c0 / 32 + (c1 % 4) * 8 && (
    c1 >> 2) | (c2 << 6) | ((c3 & 0x3) << 14) == c1 / 4 + c2 * 64 + (c3 % 4) * 16384 && (c3 >> 2)
        & 0xF == (c3 / 4) % 16 && (c3 >> 6) | (c4 << 2) == c3 / 64 + c4 * 4) by (bit_vector)
        requires
            c0 < 256,
            c1 < 256,
            c2 < 256,
            c3 < 256,
            c4 < 256,
    ;
    assert(year_field < 1024 && number < 65536 && (number & 0xFFFF) == number) by (bit_vector)
        requires
            c1 < 256,
            c2 < 256,
            c3 < 256,
            c4 < 256,
            year_field == (c3 >> 6) | (c4 << 2),
            number == (c1 >> 2) | (c2 << 6) | ((c3 & 0x3) << 14),
    ;
    let year_raw = (year_field as i32) - 0x2CC;
    let mut batch = String::new();
    let mut k: usize = 7;
    while k < 16
        invariant
            7 <= k <= 16,
            batch@ == batch_chars(p@.subrange(7, k as int)),
        decreases 16 - k,
    {
        let b = p[k];
        if b != 0 {
            push_char(&mut batch, b as char);
        }
        k = k + 1;
        assert(p@.subrange(7, k as int).drop_last() =~= p@.subrange(7, (k - 1) as int));
    }
    Fields {
        volume,
        color,
        number: (number & 0xFFFF) as u16,
        month,
        year: year_raw + 0x7D7,
        ink_type_id: p[5],
        legacy_tara_raw: p[6],
        batch,
    }
}

/// Packs fields into a 16-byte plaintext.
pub fn pack_plaintext(f: &Fields) -> (p: [u8; 16])
    requires
        f.year >= i32::MIN + 2007,
    ensures
        p@ == pack_plaintext_spec(f@),
{
    let (fv, fc, fn_, fm) = (f.volume, f.color, f.number, f.month);
    let volume = (fv & 0x1F) as u32;
    let color = (fc & 0x1F) as u32;
    let number = (fn_ as u32) & 0xFFFF;
    let month = (fm & 0x0F) as u32;
    let year_bits = mod_1024(f.year as i64 - 2007 + 0x2CC);
    let (v0, c0, n0, m0) = (fv as u32, fc as u32, fn_ as u32, fm as u32);
    assert(volume == v0 & 0x1F && color == c0 & 0x1F && number == n0 & 0xFFFF && month == m0
        & 0x0F) by (bit_vector)
        requires
            volume == (fv & 0x1F) as u32,
            color == (fc & 0x1F) as u32,
            number == (fn_ as u32) & 0xFFFF,
            month == (fm & 0x0F) as u32,
            v0 == fv as u32,
            c0 == fc as u32,
            n0 == fn_ as u32,
            m0 == fm as u32,
    ;
    let o0 = (volume & 0x1F) | ((color & 0x7) << 5);
    let o1 = ((color >> 3) & 0x3) | ((number & 0x3F) << 2);
    let o2 = (number >> 6) & 0xFF;
    let o3 = ((number >> 14) & 0x3) | ((month & 0xF) << 2) | ((year_bits & 0x3) << 6);
    let o4 = (year_bits >> 2) & 0xFF;
    assert(o0 == (v0 % 32) + ((c0 % 32) % 8) * 32 && o1 == (c0 % 32) / 8 + (n0 % 64) * 4 && o2 == (
    n0 / 64) % 256 && o3 == n0 / 16384 + (m0 % 16) * 4 + (year_bits % 4) * 64 && o4 == year_bits
        / 4) by (bit_vector)
        requires
            v0 < 256,
            c0 < 256,
            n0 < 65536,
            m0 < 256,
            year_bits < 1024,
            volume == v0 & 0x1F,
            color == c0 & 0x1F,
            number == n0 & 0xFFFF,
            month == m0 & 0x0F,
            o0 == (volume & 0x1F) | ((color & 0x7) << 5),
            o1 == ((color >> 3) & 0x3) | ((number & 0x3F) << 2),
            o2 == (number >> 6) & 0xFF,
            o3 == ((number >> 14) & 0x3) | ((month & 0xF) << 2) | ((year_bits & 0x3) << 6),
            o4 == (year_bits >> 2) & 0xFF,
    ;
    let bytes = f.batch.as_str().as_bytes();
    let ghost bb = batch_bytes(f.batch@);
    let mut batch9: [u8; 9] = [0u8; 9];
    let mut out: Vec<u8> = Vec::new();
    let mut i: usize = 0;
    while i < 9
        invariant
            i <= 9,
            bytes@ == encode_utf8(f.batch@),
            bb == batch_bytes(f.batch@),
            out@ == bb.take(i as int),
        decreases 9 - i,
    {
        if i < bytes.len() {
            out.push(bytes[i]);
        } else {
            out.push(0);
        }
        i = i + 1;
        assert(out@ =~= bb.take(i as int));
    }
    let p: [u8; 16] = [
        o0 as u8,
        o1 as u8,
        o2 as u8,
        o3 as u8,
        o4 as u8,
        f.ink_type_id,
        f.legacy_tara_raw,
        out[0],
        out[1],
        out[2],
        out[3],
        out[4],
        out[5],
        out[6],
        out[7],
        out[8],
    ];
    assert(p@ =~= pack_plaintext_spec(f@));
    p
}

/// Reading back the plaintext of `f` gives `f` with each numeric field cut
/// to its width, the year brought into the 10-bit window, and the batch as
/// its nine batch bytes spell it.
pub proof fn lemma_parse_pack_plaintext(f: FieldsView)
    ensures
        parse_plaintext_spec(pack_plaintext_spec(f)) == unpacked_fields(f),
{
    let p = pack_plaintext_spec(f);
    let yb = year_bits(f.year as int);
    let (v0, c0, n0, m0, y0) = (f.volume as u32, f.color as u32, f.number as u32, f.month as u32,
    yb as u32);
    let (x0, x1, x2, x3, x4) = (p[0] as u32, p[1] as u32, p[2] as u32, p[3] as u32, p[4] as u32);
    assert(x0 % 32 == v0 % 32 && x0 / 32 + (x1 % 4) * 8 == c0 % 32 && x1 / 4 + x2 * 64 + (x3 % 4)
        * 16384 == n0 && (x3 / 4) % 16 == m0 % 16 && x3 / 64 + x4 * 4 == y0) by (bit_vector)
        requires
            v0 < 256,
            c0 < 256,
            n0 < 65536,
            m0 < 256,
            y0 < 1024,
            x0 == (v0 % 32) + ((c0 % 32) % 8) * 32,
            x1 == (c0 % 32) / 8 + (n0 % 64) * 4,
            x2 == (n0 / 64) % 256,
            x3 == n0 / 16384 + (m0 % 16) * 4 + (y0 % 4) * 64,
            x4 == y0 / 4,
    ;
    assert(p.subrange(7, 16) =~= batch_bytes(f.batch));
    assert(parse_plaintext_spec(p) =~= unpacked_fields(f));
}

// ---------------------------------------------------------------------------
// Key derivation
// ---------------------------------------------------------------------------

/// The three pool offsets that the preview fields select.
pub open spec fn key_bases(pv: Preview) -> (int, int, int) {
    let b0 = (pv.number % 256) as int;
    let base0 = (((pv.volume % 32) * 8 + b0 % 8) * 0x111DF) % 4096;
    let base1 = (((b0 / 8) % 8 + (pv.color % 32) * 8) * 0x165B9) % 4096;
    let base2 = ((pv.month + pv.year * 16) * 0x185E1) % 4096;
    (base0, base1, base2)
}

/// The 32-byte RC6 key of some preview bytes: 7, 19 and 6 pool bytes taken at
/// the three offsets that the preview fields select.
pub open spec fn derive_key_spec(preview: Seq<u8>, pool: Seq<u8>) -> Seq<u8> {
    let (base0, base1, base2) = key_bases(parse_preview_spec(preview));
    pool_slice(pool, base0, 7) + pool_slice(pool, base1, 19) + pool_slice(pool, base2, 6)
}

/// Derives the 32-byte RC6 key of a code from its preview bytes.
pub fn derive_key(preview_bytes: &[u8; 4], pool: &BytePool) -> (key: Vec<u8>)
    ensures
        key@ == derive_key_spec(preview_bytes@, pool@),
        key@.len() == 32,
{
    let pv = parse_preview(preview_bytes);
    let b0 = (pv.number & 0xFF) as u32;
    let i4 = pv.year as u32;
    let i8v = pv.month as u32;
    let b12 = pv.color as u32;
    let b16 = pv.volume as u32;
    let size = pool.len() as u32;
    let n0 = pv.number;
    assert(b0 == n0 % 256) by (bit_vector)
        requires
            b0 == (n0 & 0xFF) as u32,
    ;
    let x0 = ((b16 & 0x1F) << 3) | (b0 & 7);
    let x1 = ((b0 >> 3) & 7) | ((b12 & 0x1F) << 3);
    let x2 = i8v | (i4 << 4);
    assert(x0 == (b16 % 32) * 8 + b0 % 8 && x1 == (b0 / 8) % 8 + (b12 % 32) * 8 && x2 == i8v + i4
        * 16 && x0 < 256 && x1 < 256 && x2 < 1024) by (bit_vector)
        requires
            b0 < 256,
            i8v < 16,
            i4 < 64,
            b12 < 256,
            b16 < 256,
            x0 == ((b16 & 0x1F) << 3) | (b0 & 7),
            x1 == ((b0 >> 3) & 7) | ((b12 & 0x1F) << 3),
            x2 == i8v | (i4 << 4),
    ;
    let base0 = (x0 * 0x111DF) % size;
    let base1 = (x1 * 0x165B9) % size;
    let base2 = (x2 * 0x185E1) % size;
    let mut key = slice(pool, base0 as usize, 7);
    let k1 = slice(pool, base1 as usize, 19);
    let k2 = slice(pool, base2 as usize, 6);
    let mut i: usize = 0;
    let ghost k0 = key@;
    while i < 19
        invariant
            i <= 19,
            k1@.len() == 19,
            key@ == k0 + k1@.take(i as int),
        decreases 19 - i,
    {
        key.push(k1[i]);
        i = i + 1;
        assert(key@ =~= k0 + k1@.take(i as int));
    }
    let ghost k01 = key@;
    let mut i: usize = 0;
    while i < 6
        invariant
            i <= 6,
            k2@.len() == 6,
            key@ == k01 + k2@.take(i as int),
        decreases 6 - i,
    {
        key.push(k2[i]);
        i = i + 1;
        assert(key@ =~= k01 + k2@.take(i as int));
    }
    assert(k1@.take(19) =~= k1@);
    assert(k2@.take(6) =~= k2@);
    key
}

// ---------------------------------------------------------------------------
// Code layout
// ---------------------------------------------------------------------------

/// Positions of the 16 ciphertext bytes among the 20 code bytes: all but
/// 4, 9, 14 and 19.
pub open spec fn ciphertext_indices_spec() -> Seq<usize> {
    Seq::new(16, |i: int| (i + i / 4) as usize)
}

/// The positions of the ciphertext bytes among the 20 code bytes.
pub fn ciphertext_indices() -> (v: Vec<usize>)
    ensures
        v@ == ciphertext_indices_spec(),
{
    let mut v: Vec<usize> = Vec::new();
    let mut i: usize = 0;
    while i < 20
        invariant
            i <= 20,
            v@ == ciphertext_indices_spec().take(i - i / 5),
        decreases 20 - i,
    {
        if !(i == 4 || i == 9 || i == 14 || i == 19) {
            v.push(i);
        }
        i = i + 1;
        assert(v@ =~= ciphertext_indices_spec().take(i - i / 5));
    }
    v
}

/// The 20 code bytes: the preview bytes, last first, at positions 4, 9, 14
/// and 19 (byte 0 at 19), and the ciphertext in order everywhere else.
pub open spec fn interleave(preview: Seq<u8>, ct: Seq<u8>) -> Seq<u8> {
    Seq::new(20, |k: int| if k % 5 == 4 { preview[3 - k / 5] } else { ct[k - k / 5] })
}

/// Characters grouped by four from the front, with a dash between groups.
pub open spec fn dashed(s: Seq<char>) -> Seq<char>
    decreases s.len(),
{
    if s.len() <= 4 {
        s
    } else {
        let m = ((s.len() - 1) / 4) * 4;
        dashed(s.take(m)) + seq!['-'] + s.skip(m)
    }
}

/// Characters with every dash left out.
pub open spec fn undashed(s: Seq<char>) -> Seq<char>
    decreases s.len(),
{
    if s.len() == 0 {
        Seq::empty()
    } else if s.last() == '-' {
        undashed(s.drop_last())
    } else {
        undashed(s.drop_last()).push(s.last())
    }
}

/// The preview bytes of some fields: the number cut to 12 bits, the year
/// after 2007 cut to 8 (then 6) bits, month, color and volume.
pub open spec fn preview_of_fields(f: FieldsView) -> Seq<u8> {
    pack_preview_spec(
        (f.number % 4096) as u16,
        ((f.year - 2007) % 256) as u8,
        f.month,
        f.color,
        f.volume,
    )
}

/// The dashed canister code of some fields under a byte pool.
#[verifier::opaque]
pub open spec fn encode_spec(f: FieldsView, pool: Seq<u8>) -> Seq<char> {
    let preview = preview_of_fields(f);
    let key = derive_key_spec(preview, pool);
    let ct = rc6::encrypt_spec(pack_plaintext_spec(f), rc6::key_schedule_spec(key));
    dashed(rfe32::encode_spec(interleave(preview, ct).reverse()).reverse())
}

/// Joins the characters in groups of four with dashes.
fn dash_groups(s: &Vec<char>) -> (out: String)
    ensures
        out@ == dashed(s@),
{
    let mut out = String::new();
    let mut i: usize = 0;
    while i < s.len()
        invariant
            i <= s@.len(),
            out@ == dashed(s@.take(i as int)),
        decreases s.len() - i,
    {
        let ghost t = s@.take(i as int + 1);
        if i > 0 && i % 4 == 0 {
            push_char(&mut out, '-');
        }
        push_char(&mut out, s[i]);
        proof {
            let m = (i as int / 4) * 4;
            if i >= 4 {
                assert(t.take(m) =~= s@.take(m));
                if i % 4 != 0 {
                    assert(s@.take(i as int).take(m) =~= s@.take(m));
                    assert(s@.take(i as int).skip(m) =~= s@.subrange(m, i as int));
                    assert(t.skip(m) =~= s@.subrange(m, i as int).push(s@[i as int]));
                } else {
                    assert(t.take(i as int) =~= s@.take(i as int));
                    assert(t.skip(i as int) =~= seq![s@[i as int]]);
                }
            } else {
                assert(t =~= s@.take(i as int).push(s@[i as int]));
            }
        }
        i = i + 1;
        assert(out@ =~= dashed(s@.take(i as int)));
    }
    assert(s@.take(s@.len() as int) =~= s@);
    out
}

/// Encodes fields into the dashed canister code: 32 RFE32 characters in
/// groups of four, 39 characters in all.
pub fn encode(f: &Fields, pool: &BytePool) -> (code: String)
    requires
        f.year >= i32::MIN + 2007,
    ensures
        code@ == encode_spec(f@, pool@),
{
    reveal(encode_spec);
    let d: i64 = f.year as i64 - 2007;
    let year6 = mod_256(d);
    let fnum = f.number;
    let number12 = fnum & 0xFFF;
    assert(number12 == fnum % 4096) by (bit_vector)
        requires
            number12 == fnum & 0xFFF,
    ;
    let preview_bytes = pack_preview(number12, year6, f.month, f.color, f.volume);
    let key = derive_key(&preview_bytes, pool);
    let schedule = rc6::key_schedule(key.as_slice());
    let plaintext = pack_plaintext(f);
    let ciphertext = rc6::encrypt_block(&plaintext, schedule.as_slice());
    let ghost code_bytes = interleave(preview_bytes@, ciphertext@);
    let ct_idx = ciphertext_indices();
    let mut rev: Vec<u8> = Vec::new();
    let mut k: usize = 0;
    while k < 20
        invariant
            k <= 20,
            ct_idx@ == ciphertext_indices_spec(),
            code_bytes == interleave(preview_bytes@, ciphertext@),
            rev@ == code_bytes.take(k as int),
        decreases 20 - k,
    {
        if k % 5 == 4 {
            rev.push(preview_bytes[3 - k / 5]);
        } else {
            rev.push(ciphertext[k - k / 5]);
        }
        k = k + 1;
        assert(rev@ =~= code_bytes.take(k as int));
    }
    let rfe_in: [u8; 20] = [
        rev[19], rev[18], rev[17], rev[16], rev[15], rev[14], rev[13], rev[12], rev[11], rev[10],
        rev[9], rev[8], rev[7], rev[6], rev[5], rev[4], rev[3], rev[2], rev[1], rev[0],
    ];
    assert(rfe_in@ =~= code_bytes.reverse());
    let encoded_reversed = rfe32::encode(&rfe_in);
    let er = chars_of(encoded_reversed.as_str());
    let mut encoded: Vec<char> = Vec::new();
    let mut j: usize = er.len();
    while j > 0
        invariant
            j <= er@.len(),
            encoded@ == er@.reverse().take(er@.len() - j),
        decreases j,
    {
        j = j - 1;
        encoded.push(er[j]);
        assert(encoded@ =~= er@.reverse().take(er@.len() - j));
    }
    assert(encoded@ =~= er@.reverse());
    dash_groups(&encoded)
}

/// The message of the error for a code whose dash-free text is not 32 bytes.
pub open spec fn length_message(n: nat) -> Seq<char> {
    "length "@ + decimal(n) + " != 32"@
}

/// Whether the clear preview agrees with the decrypted fields: volume, color,
/// month, year after 2007 and the low 12 bits of the number.
pub open spec fn preview_agrees(pv: Preview, f: FieldsView) -> bool {
    &&& pv.volume == f.volume
    &&& pv.color == f.color
    &&& pv.month == f.month
    &&& pv.year as int == f.year - 2007
    &&& pv.number == f.number % 4096
}

/// What decoding a code gives under a byte pool. The dashes are left out;
/// the rest must be 32 bytes of UTF-8, else `DecodeError`; read backwards it
/// must be RFE32 text, else the RFE32 error. Of the 20 bytes, read backwards
/// again, the preview sits at 19, 14, 9 and 4 and the ciphertext elsewhere;
/// the plaintext is the ciphertext decrypted under the key of the preview.
#[verifier::opaque]
pub open spec fn decode_spec(code: Seq<char>, pool: Seq<u8>) -> Result<(FieldsView, bool), SqpErrorView> {
    let raw = undashed(code);
    let n = encode_utf8(raw).len();
    if n != 32 {
        Err(SqpErrorView::DecodeError(length_message(n)))
    } else {
        match rfe32::decode_spec(raw.reverse()) {
            Err(e) => Err(e),
            Ok(b) => Ok(decode_bytes_spec(b.reverse(), pool)),
        }
    }
}

/// The characters of a code without its dashes.
fn undash(code: &str) -> (raw: Vec<char>)
    ensures
        raw@ == undashed(code@),
{
    let cs = chars_of(code);
    let mut kept: Vec<char> = Vec::new();
    let mut i: usize = 0;
    while i < cs.len()
        invariant
            i <= cs@.len(),
            kept@ == undashed(cs@.take(i as int)),
        decreases cs.len() - i,
    {
        if cs[i] != '-' {
            kept.push(cs[i]);
        }
        i = i + 1;
        assert(cs@.take(i as int).drop_last() =~= cs@.take(i - 1));
    }
    assert(cs@.take(cs@.len() as int) =~= cs@);
    kept
}

/// A code with its dashes left out.
pub fn undash_string(code: &str) -> (s: String)
    ensures
        s@ == undashed(code@),
{
    let kept = undash(code);
    crate::text::string_of(kept.as_slice())
}

/// The error for a code whose dash-free text is `n` bytes long.
fn length_error(n: u128) -> (e: SqpError)
    ensures
        e@ == SqpErrorView::DecodeError(length_message(n as nat)),
{
    let mut msg = "length ".to_owned();
    push_decimal(&mut msg, n);
    let tail = " != 32";
    let tail_chars = chars_of(tail);
    let mut k: usize = 0;
    let ghost m0 = msg@;
    while k < tail_chars.len()
        invariant
            k <= tail_chars@.len(),
            tail_chars@ == tail@,
            msg@ == m0 + tail@.take(k as int),
        decreases tail_chars.len() - k,
    {
        push_char(&mut msg, tail_chars[k]);
        k = k + 1;
        assert(msg@ =~= m0 + tail@.take(k as int));
    }
    assert(tail@.take(tail@.len() as int) =~= tail@);
    assert(msg@ =~= length_message(n as nat));
    SqpError::DecodeError(msg)
}

/// The characters in reverse order.
fn reversed(v: &Vec<char>) -> (r: Vec<char>)
    ensures
        r@ == v@.reverse(),
{
    let mut r: Vec<char> = Vec::new();
    let mut j: usize = v.len();
    while j > 0
        invariant
            j <= v@.len(),
            r@ == v@.reverse().take(v@.len() - j),
        decreases j,
    {
        j = j - 1;
        r.push(v[j]);
        assert(r@ =~= v@.reverse().take(v@.len() - j));
    }
    assert(r@ =~= v@.reverse());
    r
}

/// The 20 bytes in reverse order.
fn reverse20(b: &[u8; 20]) -> (r: [u8; 20])
    ensures
        r@ == b@.reverse(),
{
    let r: [u8; 20] = [
        b[19], b[18], b[17], b[16], b[15], b[14], b[13], b[12], b[11], b[10], b[9], b[8], b[7],
        b[6], b[5], b[4], b[3], b[2], b[1], b[0],
    ];
    assert(r@ =~= b@.reverse());
    r
}

/// What the 20 code bytes (in code order) decode to under a byte pool.
#[verifier::opaque]
pub open spec fn decode_bytes_spec(rev: Seq<u8>, pool: Seq<u8>) -> (FieldsView, bool) {
    let preview = seq![rev[19], rev[14], rev[9], rev[4]];
    let ct = Seq::new(16, |i: int| rev[i + i / 4]);
    let key = derive_key_spec(preview, pool);
    let pt = rc6::decrypt_spec(ct, rc6::key_schedule_spec(key));
    let fields = parse_plaintext_spec(pt);
    (fields, preview_agrees(parse_preview_spec(preview), fields))
}

/// Splits the 20 code bytes into preview and ciphertext, decrypts, and
/// checks the preview against the plaintext.
fn decode_bytes(rev: &[u8; 20], pool: &BytePool) -> (r: DecodeResult)
    ensures
        r@ == decode_bytes_spec(rev@, pool@),
{
    reveal(decode_bytes_spec);
    let preview_bytes: [u8; 4] = [rev[19], rev[14], rev[9], rev[4]];
    let preview = parse_preview(&preview_bytes);
    let ct_idx = ciphertext_indices();
    let mut ctv: Vec<u8> = Vec::new();
    let mut k: usize = 0;
    while k < 16
        invariant
            k <= 16,
            ct_idx@ == ciphertext_indices_spec(),
            ctv@ == Seq::new(16, |i: int| rev@[i + i / 4]).take(k as int),
        decreases 16 - k,
    {
        ctv.push(rev[ct_idx[k]]);
        k = k + 1;
        assert(ctv@ =~= Seq::new(16, |i: int| rev@[i + i / 4]).take(k as int));
    }
    let ct: [u8; 16] = [
        ctv[0], ctv[1], ctv[2], ctv[3], ctv[4], ctv[5], ctv[6], ctv[7], ctv[8], ctv[9], ctv[10],
        ctv[11], ctv[12], ctv[13], ctv[14], ctv[15],
    ];
    assert(ct@ =~= Seq::new(16, |i: int| rev@[i + i / 4]));
    assert(preview_bytes@ =~= seq![rev@[19], rev@[14], rev@[9], rev@[4]]);
    let key = derive_key(&preview_bytes, pool);
    let schedule = rc6::key_schedule(key.as_slice());
    let pt = rc6::decrypt_block(&ct, schedule.as_slice());
    let fields = parse_plaintext(&pt);
    let year_raw = fields.year - 0x7D7;
    let fnum = fields.number;
    let low12 = fnum & 0xFFF;
    assert(low12 == fnum % 4096) by (bit_vector)
        requires
            low12 == fnum & 0xFFF,
    ;
    let valid = preview.volume == fields.volume && preview.color == fields.color && preview.month
        == fields.month && (preview.year as i32) == year_raw && preview.number == low12;
    DecodeResult { fields, valid }
}

/// Decodes a dashed (or undashed) canister code back into its fields, with a
/// flag that says whether the clear preview agrees with the decrypted fields.
pub fn decode(code: &str, pool: &BytePool) -> (r: Result<DecodeResult, SqpError>)
    ensures
        result_view(r) == decode_spec(code@, pool@),
{
    reveal(decode_spec);
    let kept = undash(code);
    let n = crate::text::utf8_len(kept.as_slice());
    if n != 32 {
        return Err(length_error(n));
    }
    let rev_chars = reversed(&kept);
    let rev_str = crate::text::string_of(rev_chars.as_slice());
    let rfe_out = match rfe32::decode(rev_str.as_str()) {
        Ok(b) => b,
        Err(e) => {
            return Err(e);
        },
    };
    let rev = reverse20(&rfe_out);
    Ok(decode_bytes(&rev, pool))
}

// ---------------------------------------------------------------------------
// Decoding what was encoded
// ---------------------------------------------------------------------------

/// Whether the clear 6-bit year of a code agrees with its 10-bit year field:
/// exactly when `year - 2007`, taken modulo 1024, is below 64.
pub open spec fn year_in_window(year: int) -> bool {
    (year - 2007) % 1024 < 64
}

proof fn lemma_undashed_concat(a: Seq<char>, b: Seq<char>)
    ensures
        undashed(a + b) == undashed(a) + undashed(b),
    decreases b.len(),
{
    if b.len() == 0 {
        assert(a + b =~= a);
        assert(undashed(a) + undashed(b) =~= undashed(a));
    } else {
        assert((a + b).drop_last() =~= a + b.drop_last());
        lemma_undashed_concat(a, b.drop_last());
        if b.last() == '-' {
        } else {
            assert(undashed(a + b) =~= undashed(a) + undashed(b));
        }
    }
}

proof fn lemma_undashed_no_dash(s: Seq<char>)
    requires
        forall|i: int| 0 <= i < s.len() ==> #[trigger] s[i] != '-',
    ensures
        undashed(s) == s,
    decreases s.len(),
{
    if s.len() > 0 {
        lemma_undashed_no_dash(s.drop_last());
        assert(undashed(s) =~= s);
    }
}

/// Leaving out the dashes of dashed text without dashes gives the text back.
pub proof fn lemma_undashed_dashed(s: Seq<char>)
    requires
        forall|i: int| 0 <= i < s.len() ==> #[trigger] s[i] != '-',
    ensures
        undashed(dashed(s)) == s,
    decreases s.len(),
{
    if s.len() <= 4 {
        lemma_undashed_no_dash(s);
    } else {
        let m = ((s.len() - 1) / 4) * 4;
        lemma_undashed_dashed(s.take(m));
        lemma_undashed_concat(dashed(s.take(m)) + seq!['-'], s.skip(m));
        lemma_undashed_concat(dashed(s.take(m)), seq!['-']);
        assert(undashed(seq!['-']) =~= Seq::<char>::empty()) by {
            assert(seq!['-'].drop_last() =~= Seq::<char>::empty());
            assert(undashed(Seq::<char>::empty()) =~= Seq::<char>::empty());
        }
        lemma_undashed_no_dash(s.skip(m));
        assert(s.take(m) + s.skip(m) =~= s);
    }
}

proof fn lemma_year_check(year: int)
    ensures
        ((year - 2007) % 256) % 64 == year_bits(year) - 716 <==> year_in_window(year),
        0 <= year_bits(year) < 1024,
{
    let d = year - 2007;
    let r = d % 1024;
    lemma_mod_bound(d, 1024);
    lemma_mod_mod(d, 64, 4);
    lemma_mod_mod(d, 64, 16);
    assert(64 * 4 == 256 && 64 * 16 == 1024);
    assert((d % 256) % 64 == r % 64);
    lemma_add_mod_noop(d, 716, 1024);
    lemma_small_mod(716, 1024);
    assert(year_bits(year) == (r + 716) % 1024);
    if r < 308 {
        lemma_small_mod((r + 716) as nat, 1024);
        if r < 64 {
            lemma_small_mod(r as nat, 64);
        } else {
            lemma_mod_bound(r, 64);
        }
    } else {
        lemma_mod_add_multiples_vanish(r - 308, 1024);
        lemma_small_mod((r - 308) as nat, 1024);
        lemma_mod_bound(r, 64);
    }
}

/// The text of the 20 code bytes: decoding it leaves out no dash, finds 32
/// bytes, and reads the bytes back.
proof fn lemma_code_text(bytes: Seq<u8>)
    requires
        bytes.len() == 20,
    ensures
        ({
            let raw = rfe32::encode_spec(bytes.reverse()).reverse();
            &&& undashed(dashed(raw)) == raw
            &&& encode_utf8(raw).len() == 32
            &&& rfe32::decode_spec(raw.reverse()) == Ok::<Seq<u8>, SqpErrorView>(bytes.reverse())
        }),
{
    let e = rfe32::encode_spec(bytes.reverse());
    let raw = e.reverse();
    rfe32::lemma_encode_in_alphabet(bytes.reverse());
    assert forall|i: int| 0 <= i < raw.len() implies #[trigger] raw[i] != '-' && '\0' <= raw[i]
        <= '\u{7f}' by {
        assert(raw[i] == e[31 - i]);
        assert(rfe32::symbol_value(e[31 - i]) is Some);
    }
    lemma_undashed_dashed(raw);
    assert(vstd::utf8::is_ascii_chars(raw));
    vstd::utf8::is_ascii_chars_encode_utf8(raw);
    assert(raw.reverse() =~= e);
    rfe32::lemma_decode_encode(bytes.reverse());
}

/// Splitting interleaved bytes gives back the preview and the ciphertext.
proof fn lemma_split_interleave(preview: Seq<u8>, ct: Seq<u8>)
    requires
        preview.len() == 4,
        ct.len() == 16,
    ensures
        ({
            let bytes = interleave(preview, ct);
            &&& seq![bytes[19], bytes[14], bytes[9], bytes[4]] == preview
            &&& Seq::new(16, |i: int| bytes[i + i / 4]) == ct
        }),
{
    let bytes = interleave(preview, ct);
    assert(seq![bytes[19], bytes[14], bytes[9], bytes[4]] =~= preview);
    assert forall|i: int| 0 <= i < 16 implies #[trigger] bytes[i + i / 4] == ct[i] by {
        let k = i + i / 4;
        assert(k % 5 == i % 4 && k / 5 == i / 4);
    }
    assert(Seq::new(16, |i: int| bytes[i + i / 4]) =~= ct);
}

/// Decoding the dashed text of 20 code bytes gives what those bytes decode to.
proof fn lemma_decode_code_text(bytes: Seq<u8>, pool: Seq<u8>)
    requires
        bytes.len() == 20,
    ensures
        decode_spec(dashed(rfe32::encode_spec(bytes.reverse()).reverse()), pool) == Ok::<
            (FieldsView, bool),
            SqpErrorView,
        >(decode_bytes_spec(bytes, pool)),
{
    reveal(decode_spec);
    lemma_code_text(bytes);
    assert(bytes.reverse().reverse() =~= bytes);
}

/// The code bytes of a preview and the encryption of a plaintext under the
/// preview's key decode to the plaintext's fields, checked against the
/// preview.
proof fn lemma_decode_bytes_interleave(preview: Seq<u8>, pt: Seq<u8>, pool: Seq<u8>)
    requires
        preview.len() == 4,
        pt.len() == 16,
    ensures
        decode_bytes_spec(
            interleave(
                preview,
                rc6::encrypt_spec(pt, rc6::key_schedule_spec(derive_key_spec(preview, pool))),
            ),
            pool,
        ) == (parse_plaintext_spec(pt), preview_agrees(
            parse_preview_spec(preview),
            parse_plaintext_spec(pt),
        )),
{
    let key = derive_key_spec(preview, pool);
    let sched = rc6::key_schedule_spec(key);
    let ct = rc6::encrypt_spec(pt, sched);
    rc6::lemma_encrypt_len(pt, sched);
    lemma_split_interleave(preview, ct);
    rc6::lemma_key_schedule_len(key);
    rc6::lemma_decrypt_encrypt(pt, sched);
    reveal(decode_bytes_spec);
}

/// The code bytes of some fields decode to the fields as the plaintext
/// carries them, valid exactly when the year is in its window.
#[verifier::spinoff_prover]
proof fn lemma_decode_bytes_of_fields(f: FieldsView, pool: Seq<u8>)
    ensures
        ({
            let preview = preview_of_fields(f);
            let key = derive_key_spec(preview, pool);
            let ct = rc6::encrypt_spec(pack_plaintext_spec(f), rc6::key_schedule_spec(key));
            decode_bytes_spec(interleave(preview, ct), pool) == (
                unpacked_fields(f),
                year_in_window(f.year as int),
            )
        }),
{
    let preview = preview_of_fields(f);
    let pt = pack_plaintext_spec(f);
    assert(preview.len() == 4 && pt.len() == 16);
    lemma_decode_bytes_interleave(preview, pt, pool);
    let fields = parse_plaintext_spec(pt);
    assert(fields == unpacked_fields(f)) by {
        lemma_parse_pack_plaintext(f);
    }
    let pv = parse_preview_spec(preview);
    assert(preview_agrees(pv, fields) == year_in_window(f.year as int)) by {
        lemma_parse_pack_preview(
            (f.number % 4096) as u16,
            ((f.year - 2007) % 256) as u8,
            f.month,
            f.color,
            f.volume,
        );
        lemma_year_check(f.year as int);
    }
}

/// Decoding the code of some fields under the same pool gives back the
/// fields as the plaintext carries them (each numeric field cut to its
/// width, the year brought into its 10-bit window, the batch as its nine
/// batch bytes spell it), and says the code is valid exactly when the
/// year is in the window.
pub proof fn lemma_decode_encode(f: FieldsView, pool: Seq<u8>)
    ensures
        decode_spec(encode_spec(f, pool), pool) == Ok::<(FieldsView, bool), SqpErrorView>(
            (unpacked_fields(f), year_in_window(f.year as int)),
        ),
{
    let preview = preview_of_fields(f);
    let key = derive_key_spec(preview, pool);
    let ct = rc6::encrypt_spec(pack_plaintext_spec(f), rc6::key_schedule_spec(key));
    let bytes = interleave(preview, ct);
    reveal(encode_spec);
    lemma_decode_code_text(bytes, pool);
    lemma_decode_bytes_of_fields(f, pool);
}

/// A batch that the plaintext carries unchanged: at most nine characters,
/// each ASCII and not NUL.
pub open spec fn batch_fits(b: Seq<char>) -> bool {
    &&& b.len() <= 9
    &&& forall|i: int| 0 <= i < b.len() ==> '\u{1}' <= #[trigger] b[i] <= '\u{7f}'
}

/// Fields that a code carries unchanged: volume and color below 32, month
/// below 16, year from 2007 to 2070, and a batch that fits.
pub open spec fn fields_fit(f: FieldsView) -> bool {
    &&& f.volume < 32
    &&& f.color < 32
    &&& f.month < 16
    &&& 2007 <= f.year < 2071
    &&& batch_fits(f.batch)
}

proof fn lemma_batch_chars_prefix(bs: Seq<u8>, n: int)
    requires
        0 <= n <= bs.len(),
        forall|i: int| 0 <= i < n ==> #[trigger] bs[i] != 0,
        forall|i: int| n <= i < bs.len() ==> #[trigger] bs[i] == 0,
    ensures
        batch_chars(bs) == bs.take(n).map_values(|b: u8| b as char),
    decreases bs.len(),
{
    if bs.len() > 0 {
        if n == bs.len() {
            lemma_batch_chars_prefix(bs.drop_last(), n - 1);
            assert(bs.drop_last().take(n - 1) =~= bs.take(n - 1));
            assert(bs.take(n).map_values(|b: u8| b as char) =~= bs.take(n - 1).map_values(
                |b: u8| b as char,
            ).push(bs.last() as char));
        } else {
            lemma_batch_chars_prefix(bs.drop_last(), n);
            assert(bs.drop_last().take(n) =~= bs.take(n));
        }
    } else {
        assert(bs.take(n).map_values(|b: u8| b as char) =~= Seq::<char>::empty());
    }
}

/// A batch that fits is what its nine batch bytes spell.
pub proof fn lemma_batch_round_trip(b: Seq<char>)
    requires
        batch_fits(b),
    ensures
        batch_chars(batch_bytes(b)) == b,
{
    assert(vstd::utf8::is_ascii_chars(b));
    vstd::utf8::is_ascii_chars_encode_utf8(b);
    let bb = batch_bytes(b);
    let n = b.len() as int;
    assert forall|i: int| 0 <= i < n implies #[trigger] bb[i] != 0 && bb[i] as char == b[i] by {
        assert(encode_utf8(b)[i] == b[i] as u8);
    }
    lemma_batch_chars_prefix(bb, n);
    assert(bb.take(n).map_values(|x: u8| x as char) =~= b);
}

/// Fields that fit come back unchanged from their plaintext, and their year
/// is in its window.
pub proof fn lemma_unpacked_fields_fit(f: FieldsView)
    requires
        fields_fit(f),
    ensures
        unpacked_fields(f) == f,
        year_in_window(f.year as int),
{
    lemma_batch_round_trip(f.batch);
    assert(year_bits(f.year as int) == f.year - 2007 + 716);
    assert(unpacked_fields(f) =~= f);
}

/// Decoding the code of fields that fit gives exactly those fields, valid.
pub proof fn lemma_decode_encode_fitting(f: FieldsView, pool: Seq<u8>)
    requires
        fields_fit(f),
    ensures
        decode_spec(encode_spec(f, pool), pool) == Ok::<(FieldsView, bool), SqpErrorView>((f, true)),
{
    lemma_decode_encode(f, pool);
    lemma_unpacked_fields_fit(f);
}

proof fn lemma_dashed_shape(s: Seq<char>)
    requires
        s.len() >= 4,
        s.len() % 4 == 0,
    ensures
        dashed(s).len() == s.len() + s.len() / 4 - 1,
        forall|k: int|
            0 <= k < dashed(s).len() ==> #[trigger] dashed(s)[k] == if k % 5 == 4 {
                '-'
            } else {
                s[k - k / 5]
            },
    decreases s.len(),
{
    if s.len() > 4 {
        let m = ((s.len() - 1) / 4) * 4;
        assert(m == s.len() - 4);
        lemma_dashed_shape(s.take(m));
        let d = dashed(s.take(m));
        assert forall|k: int| 0 <= k < dashed(s).len() implies #[trigger] dashed(s)[k] == if k % 5
            == 4 {
            '-'
        } else {
            s[k - k / 5]
        } by {
            if k < d.len() {
                assert(dashed(s)[k] == d[k]);
            } else if k == d.len() {
                assert(k % 5 == 4);
            } else {
                let j = k - d.len() - 1;
                assert(dashed(s)[k] == s.skip(m)[j]);
                assert(k / 5 == m / 4 && k % 5 == j);
            }
        }
    }
}

/// A code is eight groups of four RFE32 characters, separated by dashes.
pub proof fn lemma_code_shape(f: FieldsView, pool: Seq<u8>)
    ensures
        encode_spec(f, pool).len() == 39,
        forall|k: int|
            0 <= k < 39 ==> if k % 5 == 4 {
                #[trigger] encode_spec(f, pool)[k] == '-'
            } else {
                rfe32::symbol_value(encode_spec(f, pool)[k]) is Some
            },
{
    reveal(encode_spec);
    let preview = preview_of_fields(f);
    let key = derive_key_spec(preview, pool);
    let ct = rc6::encrypt_spec(pack_plaintext_spec(f), rc6::key_schedule_spec(key));
    rc6::lemma_encrypt_len(pack_plaintext_spec(f), rc6::key_schedule_spec(key));
    let bytes = interleave(preview, ct);
    let e = rfe32::encode_spec(bytes.reverse());
    rfe32::lemma_encode_in_alphabet(bytes.reverse());
    let raw = e.reverse();
    lemma_dashed_shape(raw);
    assert forall|k: int| 0 <= k < 39 && k % 5 != 4 implies rfe32::symbol_value(
        #[trigger] encode_spec(f, pool)[k],
    ) is Some by {
        assert(encode_spec(f, pool)[k] == raw[k - k / 5]);
        assert(raw[k - k / 5] == e[31 - (k - k / 5)]);
    }
}

proof fn lemma_undashed_idempotent(s: Seq<char>)
    ensures
        undashed(undashed(s)) == undashed(s),
    decreases s.len(),
{
    if s.len() > 0 {
        lemma_undashed_idempotent(s.drop_last());
        if s.last() != '-' {
            let u = undashed(s.drop_last());
            assert(u.push(s.last()).drop_last() =~= u);
        }
    }
}

/// Decoding a code does not depend on its dashes: the code and the code
/// without dashes decode alike.
pub proof fn lemma_decode_ignores_dashes(code: Seq<char>, pool: Seq<u8>)
    ensures
        decode_spec(code, pool) == decode_spec(undashed(code), pool),
{
    reveal(decode_spec);
    lemma_undashed_idempotent(code);
}

// ---------------------------------------------------------------------------
// Laws of the parts
// ---------------------------------------------------------------------------

/// Packing the fields read from four preview bytes gives the bytes back.
pub proof fn lemma_pack_parse_preview(b: Seq<u8>)
    requires
        b.len() == 4,
    ensures
        ({
            let p = parse_preview_spec(b);
            pack_preview_spec(p.number, p.year, p.month, p.color, p.volume) == b
        }),
{
    let p = parse_preview_spec(b);
    let (x0, x1, x2, x3) = (b[0] as u32, b[1] as u32, b[2] as u32, b[3] as u32);
    let n = p.number as u32;
    let y = p.year as u32;
    let m = p.month as u32;
    let c = p.color as u32;
    let v = p.volume as u32;
    assert(n == (x0 % 8) * 512 + (x1 % 8) * 64 + (x2 % 8) * 8 + x3 % 8);
    assert(y == (x0 / 8) * 2 + x1 / 128);
    assert((n % 4096) / 512 + ((y % 64) / 2) * 8 == x0 && ((n % 4096) / 64) % 8 + (m % 16) * 8 + ((
    y % 64) % 2) * 128 == x1 && ((n % 4096) / 8) % 8 + (c % 32) * 8 == x2 && (n % 4096) % 8 + (v
        % 32) * 8 == x3) by (bit_vector)
        requires
            x0 < 256,
            x1 < 256,
            x2 < 256,
            x3 < 256,
            n == (x0 % 8) * 512 + (x1 % 8) * 64 + (x2 % 8) * 8 + x3 % 8,
            y == (x0 / 8) * 2 + x1 / 128,
            m == (x1 / 8) % 16,
            c == x2 / 8,
            v == x3 / 8,
    ;
    assert(pack_preview_spec(p.number, p.year, p.month, p.color, p.volume) =~= b);
}

/// The key of some preview bytes does not depend on bits 6 to 11 of the
/// preview number (the low three bits of the first two bytes).
pub proof fn lemma_derive_key_ignores_high_number_bits(b: Seq<u8>, pool: Seq<u8>)
    requires
        b.len() == 4,
    ensures
        derive_key_spec(seq![b[0] & 0xF8u8, b[1] & 0xF8u8, b[2], b[3]], pool) == derive_key_spec(
            b,
            pool,
        ),
{
    let b2 = seq![b[0] & 0xF8u8, b[1] & 0xF8u8, b[2], b[3]];
    let p = parse_preview_spec(b);
    let q = parse_preview_spec(b2);
    let (a0, a1, a2, a3) = (b[0], b[1], b[2], b[3]);
    let (c0, c1) = (a0 & 0xF8u8, a1 & 0xF8u8);
    let (x0, x1, x2, x3, y0, y1) = (a0 as u32, a1 as u32, a2 as u32, a3 as u32, c0 as u32,
    c1 as u32);
    assert(y0 == x0 & 0xF8 && y1 == x1 & 0xF8) by (bit_vector)
        requires
            c0 == a0 & 0xF8u8,
            c1 == a1 & 0xF8u8,
            x0 == a0 as u32,
            x1 == a1 as u32,
            y0 == c0 as u32,
            y1 == c1 as u32,
    ;
    let n = p.number as u32;
    let n2 = q.number as u32;
    assert(n == (x0 % 8) * 512 + (x1 % 8) * 64 + (x2 % 8) * 8 + x3 % 8);
    assert(n2 == (y0 % 8) * 512 + (y1 % 8) * 64 + (x2 % 8) * 8 + x3 % 8);
    assert((n % 256) % 8 == (n2 % 256) % 8 && ((n % 256) / 8) % 8 == ((n2 % 256) / 8) % 8 && (y0
        / 8) * 2 + y1 / 128 == (x0 / 8) * 2 + x1 / 128 && (y1 / 8) % 16 == (x1 / 8) % 16)
        by (bit_vector)
        requires
            x0 < 256,
            x1 < 256,
            x2 < 256,
            x3 < 256,
            y0 == x0 & 0xF8,
            y1 == x1 & 0xF8,
            n == (x0 % 8) * 512 + (x1 % 8) * 64 + (x2 % 8) * 8 + x3 % 8,
            n2 == (y0 % 8) * 512 + (y1 % 8) * 64 + (x2 % 8) * 8 + x3 % 8,
    ;
    assert(key_bases(q) == key_bases(p));
}

/// A plaintext packs back from its fields when its batch bytes are ASCII and
/// padded with zeros only at the end.
pub open spec fn plaintext_batch_canonical(p: Seq<u8>) -> bool {
    &&& forall|i: int| 7 <= i < 16 ==> #[trigger] p[i] < 128
    &&& forall|i: int, j: int| 7 <= i < j < 16 && #[trigger] p[i] == 0 ==> #[trigger] p[j] == 0
}

proof fn lemma_zero_split(bs: Seq<u8>, n: int) -> (k: int)
    requires
        0 <= n <= bs.len(),
        forall|i: int| 0 <= i < n ==> #[trigger] bs[i] != 0,
        forall|i: int, j: int| 0 <= i < j < bs.len() && #[trigger] bs[i] == 0 ==> #[trigger] bs[j]
            == 0,
    ensures
        n <= k <= bs.len(),
        forall|i: int| 0 <= i < k ==> #[trigger] bs[i] != 0,
        forall|i: int| k <= i < bs.len() ==> #[trigger] bs[i] == 0,
    decreases bs.len() - n,
{
    if n == bs.len() {
        n
    } else if bs[n] == 0 {
        assert forall|i: int| n <= i < bs.len() implies #[trigger] bs[i] == 0 by {
            if i > n {
                assert(bs[n] == 0 ==> bs[i] == 0);
            }
        }
        n
    } else {
        lemma_zero_split(bs, n + 1)
    }
}

/// Packing the fields read from a plaintext gives the plaintext back, when
/// its batch bytes are ASCII and padded with zeros only at the end.
pub proof fn lemma_pack_parse_plaintext(p: Seq<u8>)
    requires
        p.len() == 16,
        plaintext_batch_canonical(p),
    ensures
        pack_plaintext_spec(parse_plaintext_spec(p)) == p,
{
    let f = parse_plaintext_spec(p);
    let (x0, x1, x2, x3, x4) = (p[0] as u32, p[1] as u32, p[2] as u32, p[3] as u32, p[4] as u32);
    let yf = (x3 / 64 + x4 * 4) as u32;
    assert(yf == x3 / 64 + x4 * 4);
    assert(yf < 1024 && x1 / 4 + x2 * 64 + (x3 % 4) * 16384 < 65536) by (bit_vector)
        requires
            x1 < 256,
            x2 < 256,
            x3 < 256,
            x4 < 256,
            yf == x3 / 64 + x4 * 4,
    ;
    assert(f.year as int == yf - 716 + 2007);
    assert(year_bits(f.year as int) == yf) by {
        lemma_small_mod(yf as nat, 1024);
    }
    let (v0, c0, n0, m0) = (f.volume as u32, f.color as u32, f.number as u32, f.month as u32);
    assert(v0 == x0 % 32 && c0 == x0 / 32 + (x1 % 4) * 8 && n0 == x1 / 4 + x2 * 64 + (x3 % 4)
        * 16384 && m0 == (x3 / 4) % 16);
    assert((v0 % 32) + ((c0 % 32) % 8) * 32 == x0 && (c0 % 32) / 8 + (n0 % 64) * 4 == x1 && (n0
        / 64) % 256 == x2 && n0 / 16384 + (m0 % 16) * 4 + (yf % 4) * 64 == x3 && yf / 4 == x4)
        by (bit_vector)
        requires
            x0 < 256,
            x1 < 256,
            x2 < 256,
            x3 < 256,
            x4 < 256,
            yf == x3 / 64 + x4 * 4,
            v0 == x0 % 32,
            c0 == x0 / 32 + (x1 % 4) * 8,
            n0 == x1 / 4 + x2 * 64 + (x3 % 4) * 16384,
            m0 == (x3 / 4) % 16,
    ;
    let bs = p.subrange(7, 16);
    assert forall|i: int, j: int| 0 <= i < j < bs.len() && #[trigger] bs[i] == 0 implies #[trigger] bs[j]
        == 0 by {
        assert(p[7 + i] == 0 ==> p[7 + j] == 0);
    }
    let k = lemma_zero_split(bs, 0);
    lemma_batch_chars_prefix(bs, k);
    let chars = bs.take(k).map_values(|b: u8| b as char);
    assert forall|i: int| 0 <= i < chars.len() implies '\0' <= #[trigger] chars[i] <= '\u{7f}' && chars[i] as u8 == bs[i] by {
        assert(p[7 + i] < 128);
    }
    assert(vstd::utf8::is_ascii_chars(chars));
    vstd::utf8::is_ascii_chars_encode_utf8(chars);
    assert(batch_bytes(f.batch) =~= bs);
    assert(pack_plaintext_spec(f) =~= p);
}

/// Encrypting the plaintext of a code under the key of its preview (which
/// `encode` does) gives back the ciphertext that decryption read, for any
/// 16-byte ciphertext.
proof fn lemma_reencrypt(ct: Seq<u8>, preview: Seq<u8>, pool: Seq<u8>)
    requires
        ct.len() == 16,
        preview.len() == 4,
    ensures
        ({
            let sched = rc6::key_schedule_spec(derive_key_spec(preview, pool));
            rc6::encrypt_spec(rc6::decrypt_spec(ct, sched), sched) == ct
        }),
{
    let key = derive_key_spec(preview, pool);
    rc6::lemma_key_schedule_len(key);
    rc6::lemma_encrypt_decrypt(ct, rc6::key_schedule_spec(key));
}


/// Two sets of fields that a code carries alike: volume and color alike in
/// their low five bits, month in its low four, the same number, ink-type id
/// and tara, years that differ by a multiple of 1024, and the same nine
/// batch bytes.
pub open spec fn carried_alike(f: FieldsView, g: FieldsView) -> bool {
    &&& f.volume % 32 == g.volume % 32
    &&& f.color % 32 == g.color % 32
    &&& f.month % 16 == g.month % 16
    &&& f.number == g.number
    &&& (f.year - g.year) % 1024 == 0
    &&& f.ink_type_id == g.ink_type_id
    &&& f.legacy_tara_raw == g.legacy_tara_raw
    &&& batch_bytes(f.batch) == batch_bytes(g.batch)
}

/// Encoding depends only on what the code carries: the low bits of volume,
/// color and month, the year modulo 1024, the number, ink-type id and tara,
/// and the first nine batch bytes.
pub proof fn lemma_encode_carried_alike(f: FieldsView, g: FieldsView, pool: Seq<u8>)
    requires
        carried_alike(f, g),
    ensures
        encode_spec(f, pool) == encode_spec(g, pool),
{
    reveal(encode_spec);
    let d = f.year - 2007;
    let e = g.year - 2007;
    lemma_fundamental_div_mod(d - e, 1024);
    let q = (d - e) / 1024;
    assert(d == 1024 * q + e);
    assert(d == 64 * (16 * q) + e);
    lemma_mod_multiples_vanish(16 * q, e, 64);
    lemma_mod_mod(d, 64, 4);
    lemma_mod_mod(e, 64, 4);
    assert((d % 256) % 64 == (e % 256) % 64);
    lemma_mod_bound(d, 256);
    lemma_mod_bound(e, 256);
    assert(((d % 256) as u8) % 64 == ((e % 256) as u8) % 64);
    assert(preview_of_fields(f) =~= preview_of_fields(g));
    assert(d + 716 == 1024 * q + (e + 716));
    lemma_mod_multiples_vanish(q, e + 716, 1024);
    assert(year_bits(f.year as int) == year_bits(g.year as int));
    assert(pack_plaintext_spec(f) =~= pack_plaintext_spec(g));
}

proof fn lemma_encode_utf8_append(a: Seq<char>, c: Seq<char>)
    ensures
        encode_utf8(a + c) == encode_utf8(a) + encode_utf8(c),
    decreases a.len(),
{
    if a.len() == 0 {
        assert(a + c =~= c);
        assert(encode_utf8(a) + encode_utf8(c) =~= encode_utf8(c));
    } else {
        assert((a + c).drop_first() =~= a.drop_first() + c);
        assert((a + c)[0] == a[0]);
        lemma_encode_utf8_append(a.drop_first(), c);
        let h = vstd::utf8::encode_scalar(a[0] as u32);
        assert(h + (encode_utf8(a.drop_first()) + encode_utf8(c)) =~= (h + encode_utf8(
            a.drop_first(),
        )) + encode_utf8(c));
    }
}

proof fn lemma_encode_utf8_len(s: Seq<char>)
    ensures
        encode_utf8(s).len() >= s.len(),
    decreases s.len(),
{
    if s.len() > 0 {
        lemma_encode_utf8_len(s.drop_first());
        assert(vstd::utf8::encode_scalar(s[0] as u32).len() >= 1);
    }
}

/// The nine batch bytes of a batch are those of its first nine characters.
pub proof fn lemma_batch_bytes_first_nine(b: Seq<char>)
    requires
        b.len() >= 9,
    ensures
        batch_bytes(b.take(9)) == batch_bytes(b),
{
    assert(b.take(9) + b.skip(9) =~= b);
    lemma_encode_utf8_append(b.take(9), b.skip(9));
    lemma_encode_utf8_len(b.take(9));
    let e9 = encode_utf8(b.take(9));
    assert forall|i: int| 0 <= i < 9 implies #[trigger] encode_utf8(b)[i] == e9[i] by {}
    assert(batch_bytes(b.take(9)) =~= batch_bytes(b));
}

proof fn lemma_batch_chars_full(bs: Seq<u8>)
    ensures
        batch_chars(bs).len() <= bs.len(),
        batch_chars(bs).len() == bs.len() ==> forall|i: int|
            0 <= i < bs.len() ==> #[trigger] bs[i] != 0 && batch_chars(bs)[i] == bs[i] as char,
    decreases bs.len(),
{
    if bs.len() > 0 {
        let rest = bs.drop_last();
        lemma_batch_chars_full(rest);
        if batch_chars(bs).len() == bs.len() {
            assert(bs.last() != 0);
            assert forall|i: int| 0 <= i < bs.len() implies #[trigger] bs[i] != 0 && batch_chars(
                bs,
            )[i] == bs[i] as char by {
                if i < bs.len() - 1 {
                    assert(bs[i] == rest[i]);
                }
            }
        }
    }
}

/// The 20 code bytes that a decoded code text spells are the preview and
/// the ciphertext that decoding split them into.
proof fn lemma_interleave_split(bytes: Seq<u8>)
    requires
        bytes.len() == 20,
    ensures
        interleave(seq![bytes[19], bytes[14], bytes[9], bytes[4]], Seq::new(16, |i: int| bytes[i + i / 4]))
            == bytes,
{
    let pv = seq![bytes[19], bytes[14], bytes[9], bytes[4]];
    let ct = Seq::new(16, |i: int| bytes[i + i / 4]);
    assert forall|k: int| 0 <= k < 20 implies #[trigger] interleave(pv, ct)[k] == bytes[k] by {
        if k % 5 != 4 {
            let j = k - k / 5;
            assert(j / 4 == k / 5 && j + j / 4 == k);
        }
    }
    assert(interleave(pv, ct) =~= bytes);
}

/// Fields that agree with some preview bytes have those bytes as their
/// preview.
proof fn lemma_preview_of_agreeing_fields(pv: Seq<u8>, f: FieldsView)
    requires
        pv.len() == 4,
        preview_agrees(parse_preview_spec(pv), f),
    ensures
        preview_of_fields(f) == pv,
{
    let p = parse_preview_spec(pv);
    lemma_pack_parse_preview(pv);
    assert((f.year - 2007) % 256 == p.year as int) by {
        lemma_small_mod(p.year as nat, 256);
    }
    assert((f.number % 4096) as u16 == p.number);
}

/// The fields that 20 code bytes decode to, when the preview agrees and the
/// plaintext packs back, encode to those same bytes.
#[verifier::spinoff_prover]
proof fn lemma_reencode_bytes(bytes: Seq<u8>, pool: Seq<u8>)
    requires
        bytes.len() == 20,
        decode_bytes_spec(bytes, pool).1,
        plaintext_batch_canonical(
            rc6::decrypt_spec(
                Seq::new(16, |i: int| bytes[i + i / 4]),
                rc6::key_schedule_spec(
                    derive_key_spec(seq![bytes[19], bytes[14], bytes[9], bytes[4]], pool),
                ),
            ),
        ),
    ensures
        ({
            let f = decode_bytes_spec(bytes, pool).0;
            let preview = preview_of_fields(f);
            let key = derive_key_spec(preview, pool);
            interleave(preview, rc6::encrypt_spec(pack_plaintext_spec(f), rc6::key_schedule_spec(key)))
                == bytes
        }),
{
    let pv = seq![bytes[19], bytes[14], bytes[9], bytes[4]];
    let ct = Seq::new(16, |i: int| bytes[i + i / 4]);
    let sched = rc6::key_schedule_spec(derive_key_spec(pv, pool));
    let pt = rc6::decrypt_spec(ct, sched);
    let f = parse_plaintext_spec(pt);
    assert(decode_bytes_spec(bytes, pool) == (f, preview_agrees(parse_preview_spec(pv), f))) by {
        reveal(decode_bytes_spec);
    }
    rc6::lemma_decrypt_len(ct, sched);
    lemma_pack_parse_plaintext(pt);
    lemma_preview_of_agreeing_fields(pv, f);
    lemma_reencrypt(ct, pv, pool);
    lemma_interleave_split(bytes);
}

/// Encoding the fields of a valid code, whose batch is nine ASCII
/// characters, gives back the code in its canonical dashed form.
pub proof fn lemma_encode_decoded(code: Seq<char>, pool: Seq<u8>)
    requires
        decode_spec(code, pool) matches Ok((f, valid)) && valid && f.batch.len() == 9 && batch_fits(
            f.batch,
        ),
    ensures
        encode_spec(decode_spec(code, pool)->Ok_0.0, pool) == dashed(undashed(code)),
{
    let raw = undashed(code);
    let rb = rfe32::decode_spec(raw.reverse())->Ok_0;
    let bytes = rb.reverse();
    assert(rfe32::decode_spec(raw.reverse()) is Ok && decode_spec(code, pool)->Ok_0
        == decode_bytes_spec(bytes, pool)) by {
        reveal(decode_spec);
    }
    assert(rb.len() == 20);
    let f = decode_bytes_spec(bytes, pool).0;
    let ct = Seq::new(16, |i: int| bytes[i + i / 4]);
    let sched = rc6::key_schedule_spec(
        derive_key_spec(seq![bytes[19], bytes[14], bytes[9], bytes[4]], pool),
    );
    let pt = rc6::decrypt_spec(ct, sched);
    assert(f == parse_plaintext_spec(pt)) by {
        reveal(decode_bytes_spec);
    }
    rc6::lemma_decrypt_len(ct, sched);
    let bs = pt.subrange(7, 16);
    lemma_batch_chars_full(bs);
    assert forall|i: int| 7 <= i < 16 implies #[trigger] pt[i] < 128 && pt[i] != 0 by {
        assert(bs[i - 7] == pt[i]);
        assert(f.batch[i - 7] == bs[i - 7] as char);
    }
    assert(plaintext_batch_canonical(pt));
    lemma_reencode_bytes(bytes, pool);
    assert(bytes.reverse() =~= rb);
    rfe32::lemma_encode_decode(raw.reverse());
    assert(raw.reverse().reverse() =~= raw);
    reveal(encode_spec);
}

// ---------------------------------------------------------------------------
// The layouts, stated by value
// ---------------------------------------------------------------------------

/// The key of four preview bytes `b` is cut from the pool at three offsets
/// that the bytes select: 7 bytes from `b[3] * 0x111DF`, then 19 from
/// `b[2] * 0x165B9`, then 6 from `(b[1] / 8 + 32 * (b[0] / 8)) * 0x185E1`,
/// each offset modulo 4096 and each piece wrapping around the pool's end.
pub proof fn lemma_key_offsets_of_bytes(b: Seq<u8>, pool: Seq<u8>)
    requires
        b.len() == 4,
    ensures
        derive_key_spec(b, pool).len() == 32,
        forall|i: int|
            0 <= i < 7 ==> #[trigger] derive_key_spec(b, pool)[i] == pool[((b[3] * 0x111DF) % 4096
                + i) % 4096],
        forall|i: int|
            0 <= i < 19 ==> #[trigger] derive_key_spec(b, pool)[7 + i] == pool[((b[2] * 0x165B9)
                % 4096 + i) % 4096],
        forall|i: int|
            0 <= i < 6 ==> #[trigger] derive_key_spec(b, pool)[26 + i] == pool[(((b[1] / 8 + 32 * (
            b[0] / 8)) * 0x185E1) % 4096 + i) % 4096],
{
    let pv = parse_preview_spec(b);
    let (x0, x1, x2, x3) = (b[0] as u32, b[1] as u32, b[2] as u32, b[3] as u32);
    let n = pv.number as u32;
    let y = pv.year as u32;
    let m = pv.month as u32;
    let c = pv.color as u32;
    let v = pv.volume as u32;
    assert(n == (x0 % 8) * 512 + (x1 % 8) * 64 + (x2 % 8) * 8 + x3 % 8);
    assert(y == (x0 / 8) * 2 + x1 / 128);
    assert(m == (x1 / 8) % 16 && c == x2 / 8 && v == x3 / 8);
    assert((v % 32) * 8 + (n % 256) % 8 == x3 && ((n % 256) / 8) % 8 + (c % 32) * 8 == x2 && m + y
        * 16 == x1 / 8 + 32 * (x0 / 8)) by (bit_vector)
        requires
            x0 < 256,
            x1 < 256,
            x2 < 256,
            x3 < 256,
            n == (x0 % 8) * 512 + (x1 % 8) * 64 + (x2 % 8) * 8 + x3 % 8,
            y == (x0 / 8) * 2 + x1 / 128,
            m == (x1 / 8) % 16,
            c == x2 / 8,
            v == x3 / 8,
    ;
    let (base0, base1, base2) = key_bases(pv);
    assert(base0 == (b[3] * 0x111DF) % 4096);
    assert(base1 == (b[2] * 0x165B9) % 4096);
    assert(base2 == ((b[1] / 8 + 32 * (b[0] / 8)) * 0x185E1) % 4096);
    let k0 = pool_slice(pool, base0, 7);
    let k1 = pool_slice(pool, base1, 19);
    let k2 = pool_slice(pool, base2, 6);
    let key = derive_key_spec(b, pool);
    assert(key == k0 + k1 + k2);
    assert forall|i: int| 0 <= i < 19 implies #[trigger] key[7 + i] == k1[i] by {}
    assert forall|i: int| 0 <= i < 6 implies #[trigger] key[26 + i] == k2[i] by {}
}

/// The key of the preview of a 12-bit number, 6-bit year, 4-bit month,
/// 5-bit color and 5-bit volume: 7 pool bytes at
/// `(volume * 8 + number % 8) * 0x111DF`, then 19 at
/// `((number / 8) % 8 + color * 8) * 0x165B9`, then 6 at
/// `(month + 16 * year) * 0x185E1`, each offset modulo 4096.
pub proof fn lemma_key_offsets_of_fields(
    number12: u16,
    year6: u8,
    month4: u8,
    color5: u8,
    volume5: u8,
    pool: Seq<u8>,
)
    ensures
        ({
            let key = derive_key_spec(pack_preview_spec(number12, year6, month4, color5, volume5), pool);
            let (n, y, m, c, v) = (number12 % 4096, year6 % 64, month4 % 16, color5 % 32, volume5
                % 32);
            &&& key.len() == 32
            &&& forall|i: int|
                0 <= i < 7 ==> #[trigger] key[i] == pool[(((v * 8 + n % 8) * 0x111DF) % 4096 + i)
                    % 4096]
            &&& forall|i: int|
                0 <= i < 19 ==> #[trigger] key[7 + i] == pool[((((n / 8) % 8 + c * 8) * 0x165B9)
                    % 4096 + i) % 4096]
            &&& forall|i: int|
                0 <= i < 6 ==> #[trigger] key[26 + i] == pool[(((m + 16 * y) * 0x185E1) % 4096 + i)
                    % 4096]
        }),
{
    let b = pack_preview_spec(number12, year6, month4, color5, volume5);
    lemma_key_offsets_of_bytes(b, pool);
    let (n0, y0, m0, c0, v0) = (number12 as u32, year6 as u32, month4 as u32, color5 as u32,
    volume5 as u32);
    let (x0, x1, x2, x3) = (b[0] as u32, b[1] as u32, b[2] as u32, b[3] as u32);
    assert(x3 == (v0 % 32) * 8 + (n0 % 4096) % 8 && x2 == ((n0 % 4096) / 8) % 8 + (c0 % 32) * 8
        && x1 / 8 + 32 * (x0 / 8) == m0 % 16 + 16 * (y0 % 64)) by (bit_vector)
        requires
            n0 < 65536,
            y0 < 256,
            m0 < 256,
            c0 < 256,
            v0 < 256,
            x0 == (n0 % 4096) / 512 + ((y0 % 64) / 2) * 8,
            x1 == ((n0 % 4096) / 64) % 8 + (m0 % 16) * 8 + ((y0 % 64) % 2) * 128,
            x2 == ((n0 % 4096) / 8) % 8 + (c0 % 32) * 8,
            x3 == (n0 % 4096) % 8 + (v0 % 32) * 8,
    ;
}

/// The first five plaintext bytes as one little-endian 40-bit number.
pub open spec fn plaintext_low40(p: Seq<u8>) -> int {
    p[0] + p[1] * 0x100 + p[2] * 0x1_0000 + p[3] * 0x100_0000 + p[4] * 0x1_0000_0000
}

/// The plaintext of some fields, by value: its first five bytes hold, from
/// the lowest bit up, volume (5 bits), color (5), number (16), month (4) and
/// the 10-bit year field `year - 2007 + 716` modulo 1024; byte 5 is the
/// ink-type id, byte 6 the tara, and bytes 7 to 15 the batch's first nine
/// UTF-8 bytes, padded with zeros.
pub proof fn lemma_plaintext_layout(f: FieldsView)
    ensures
        ({
            let p = pack_plaintext_spec(f);
            let bytes = encode_utf8(f.batch);
            &&& p.len() == 16
            &&& plaintext_low40(p) == f.volume % 32 + (f.color % 32) * 0x20 + f.number * 0x400 + (
            f.month % 16) * 0x400_0000 + ((f.year - 2007 + 716) % 1024) * 0x4000_0000
            &&& p[5] == f.ink_type_id
            &&& p[6] == f.legacy_tara_raw
            &&& forall|i: int|
                0 <= i < 9 ==> #[trigger] p[7 + i] == if i < bytes.len() {
                    bytes[i]
                } else {
                    0
                }
        }),
{
    let p = pack_plaintext_spec(f);
    let yb = year_bits(f.year as int);
    lemma_year_check(f.year as int);
    let (v, c, n, m, y) = (f.volume as u64 % 32, f.color as u64 % 32, f.number as u64, f.month
        as u64 % 16, yb as u64);
    let (x0, x1, x2, x3, x4) = (p[0] as u64, p[1] as u64, p[2] as u64, p[3] as u64, p[4] as u64);
    assert(x0 == v + (c % 8) * 32 && x1 == c / 8 + (n % 64) * 4 && x2 == (n / 64) % 256 && x3 == n
        / 16384 + m * 4 + (y % 4) * 64 && x4 == y / 4);
    assert(x0 + x1 * 0x100 + x2 * 0x1_0000 + x3 * 0x100_0000 + x4 * 0x1_0000_0000 == v + c * 0x20
        + n * 0x400 + m * 0x400_0000 + y * 0x4000_0000) by (bit_vector)
        requires
            v < 32,
            c < 32,
            n < 65536,
            m < 16,
            y < 1024,
            x0 == v + (c % 8) * 32,
            x1 == c / 8 + (n % 64) * 4,
            x2 == (n / 64) % 256,
            x3 == n / 16384 + m * 4 + (y % 4) * 64,
            x4 == y / 4,
    ;
    assert forall|i: int| 0 <= i < 9 implies #[trigger] p[7 + i] == batch_bytes(f.batch)[i] by {}
}

proof fn lemma_batch_chars_filter(bs: Seq<u8>)
    ensures
        batch_chars(bs) == bs.filter(|b: u8| b != 0).map_values(|b: u8| b as char),
    decreases bs.len(),
{
    let pred = |b: u8| b != 0;
    let chr = |b: u8| b as char;
    reveal(Seq::filter);
    if bs.len() > 0 {
        lemma_batch_chars_filter(bs.drop_last());
        let sub = bs.drop_last().filter(pred);
        assert(bs.filter(pred) == if pred(bs.last()) {
            sub.push(bs.last())
        } else {
            sub
        });
        if bs.last() != 0 {
            assert(sub.push(bs.last()).map_values(chr) =~= sub.map_values(chr).push(
                bs.last() as char,
            ));
        }
    } else {
        assert(bs.filter(pred).map_values(chr) =~= Seq::<char>::empty());
    }
}

/// The fields of a plaintext, by value: with its first five bytes read as a
/// little-endian 40-bit number `w`, the volume is the low 5 bits of `w`, the
/// color the next 5, the number the next 16, the month the next 4, and the
/// top 10 bits are the year field (`year - 2007 + 716`); the ink-type id is
/// byte 5, the tara byte 6, and the batch is bytes 7 to 15 with the zeros
/// left out, each byte as the character of that code.
pub proof fn lemma_plaintext_fields(p: Seq<u8>)
    requires
        p.len() == 16,
    ensures
        ({
            let f = parse_plaintext_spec(p);
            let w = plaintext_low40(p);
            &&& f.volume == w % 32
            &&& f.color == (w / 0x20) % 32
            &&& f.number == (w / 0x400) % 0x1_0000
            &&& f.month == (w / 0x400_0000) % 16
            &&& f.year == w / 0x4000_0000 - 716 + 2007
            &&& f.ink_type_id == p[5]
            &&& f.legacy_tara_raw == p[6]
            &&& f.batch == p.subrange(7, 16).filter(|b: u8| b != 0).map_values(|b: u8| b as char)
        }),
{
    let f = parse_plaintext_spec(p);
    let (x0, x1, x2, x3, x4) = (p[0] as u64, p[1] as u64, p[2] as u64, p[3] as u64, p[4] as u64);
    let w = (x0 + x1 * 0x100 + x2 * 0x1_0000 + x3 * 0x100_0000 + x4 * 0x1_0000_0000) as u64;
    assert(w == plaintext_low40(p));
    let (v, c, n, m, y) = (f.volume as u64, f.color as u64, f.number as u64, f.month as u64, (x3
        / 64 + x4 * 4) as u64);
    assert(v == x0 % 32 && c == x0 / 32 + (x1 % 4) * 8 && n == x1 / 4 + x2 * 64 + (x3 % 4) * 16384
        && m == (x3 / 4) % 16 && y == x3 / 64 + x4 * 4);
    assert(v == w % 32 && c == (w / 0x20) % 32 && n == (w / 0x400) % 0x1_0000 && m == (w
        / 0x400_0000) % 16 && y == w / 0x4000_0000) by (bit_vector)
        requires
            x0 < 256,
            x1 < 256,
            x2 < 256,
            x3 < 256,
            x4 < 256,
            w == x0 + x1 * 0x100 + x2 * 0x1_0000 + x3 * 0x100_0000 + x4 * 0x1_0000_0000,
            v == x0 % 32,
            c == x0 / 32 + (x1 % 4) * 8,
            n == x1 / 4 + x2 * 64 + (x3 % 4) * 16384,
            m == (x3 / 4) % 16,
            y == x3 / 64 + x4 * 4,
    ;
    lemma_batch_chars_filter(p.subrange(7, 16));
}

/// Where each byte sits in a code: the code is the RFE32 text of 20 bytes
/// `b`, written backwards and dashed in groups of four, where `b[0]`,
/// `b[5]`, `b[10]` and `b[15]` are the four preview bytes of the fields and
/// the other sixteen, taken from `b[19]` down, are the RC6 ciphertext of
/// the fields' plaintext under the preview's key.
pub proof fn lemma_code_layout(f: FieldsView, pool: Seq<u8>, b: Seq<u8>)
    requires
        b.len() == 20,
        ({
            let pv = pack_preview_spec(
                (f.number % 4096) as u16,
                ((f.year - 2007) % 256) as u8,
                f.month,
                f.color,
                f.volume,
            );
            let ct = rc6::encrypt_spec(
                pack_plaintext_spec(f),
                rc6::key_schedule_spec(derive_key_spec(pv, pool)),
            );
            &&& b[0] == pv[0] && b[5] == pv[1] && b[10] == pv[2] && b[15] == pv[3]
            &&& forall|i: int| 0 <= i < 16 ==> b[19 - (i + i / 4)] == #[trigger] ct[i]
        }),
    ensures
        encode_spec(f, pool) == dashed(rfe32::encode_spec(b).reverse()),
{
    reveal(encode_spec);
    let pv = preview_of_fields(f);
    let key = derive_key_spec(pv, pool);
    let ct = rc6::encrypt_spec(pack_plaintext_spec(f), rc6::key_schedule_spec(key));
    rc6::lemma_encrypt_len(pack_plaintext_spec(f), rc6::key_schedule_spec(key));
    let bytes = interleave(pv, ct);
    assert forall|k: int| 0 <= k < 20 implies #[trigger] bytes.reverse()[k] == b[k] by {
        let m = 19 - k;
        if m % 5 != 4 {
            let i = m - m / 5;
            assert(i + i / 4 == m);
            assert(b[19 - (i + i / 4)] == ct[i]);
        }
    }
    assert(bytes.reverse() =~= b);
}

/// When decoded code bytes are valid: exactly when the decrypted year lies in
/// 2007 to 2070 and the four clear bytes are the preview that the decrypted
/// fields pack to.
pub proof fn lemma_valid_flag(bytes: Seq<u8>, pool: Seq<u8>)
    requires
        bytes.len() == 20,
    ensures
        ({
            let (f, valid) = decode_bytes_spec(bytes, pool);
            let pv = seq![bytes[19], bytes[14], bytes[9], bytes[4]];
            valid <==> (2007 <= f.year < 2071 && pack_preview_spec(
                (f.number % 4096) as u16,
                (f.year - 2007) as u8,
                f.month,
                f.color,
                f.volume,
            ) == pv)
        }),
{
    reveal(decode_bytes_spec);
    let pv = seq![bytes[19], bytes[14], bytes[9], bytes[4]];
    let ct = Seq::new(16, |i: int| bytes[i + i / 4]);
    let sched = rc6::key_schedule_spec(derive_key_spec(pv, pool));
    let pt = rc6::decrypt_spec(ct, sched);
    let f = parse_plaintext_spec(pt);
    rc6::lemma_decrypt_len(ct, sched);
    let p = parse_preview_spec(pv);
    let (x0, x4) = (pt[0] as u32, pt[4] as u32);
    let (x1, x3) = (pt[1] as u32, pt[3] as u32);
    assert(x0 % 32 < 32 && x0 / 32 + (x1 % 4) * 8 < 32 && (x3 / 4) % 16 < 16) by (bit_vector)
        requires
            x0 < 256,
            x1 < 256,
            x3 < 256,
    ;
    let packed = pack_preview_spec(
        (f.number % 4096) as u16,
        (f.year - 2007) as u8,
        f.month,
        f.color,
        f.volume,
    );
    lemma_pack_parse_preview(pv);
    if preview_agrees(p, f) {
        assert(packed == pv);
    }
    if 2007 <= f.year < 2071 && packed == pv {
        lemma_parse_pack_preview(
            (f.number % 4096) as u16,
            (f.year - 2007) as u8,
            f.month,
            f.color,
            f.volume,
        );
        assert(preview_agrees(p, f));
    }
}

} // verus!
