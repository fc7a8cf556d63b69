//! Generation of fresh canister codes: request checks, random number and
//! tara, self-check of each code, and uniqueness within a session; and the
//! automatic batch name of a date.

use vstd::prelude::*;
use rand::Rng;
use rand::seq::SliceRandom;
use crate::{SqpError, SqpErrorView};
use crate::bytepool::BytePool;
use crate::codec::{
    decode, encode, undash_string, Fields, FieldsView, encode_spec, undashed, year_in_window,
    lemma_decode_encode, decode_spec, lemma_decode_encode_fitting, fields_fit, batch_fits,
    unpacked_fields,
};
use crate::maps::{
    color_id, derive_ink_type_id, tara_options, volume_id, InkType, color_id_spec,
    ink_type_id_spec, sqsg3_clear_message, tara_options_spec, volume_id_spec,
};
use crate::text::{push_char, push_zero_padded, str_equals, zero_padded};
use vstd::utf8::encode_utf8;

verus! {

/// How many times a colliding code is drawn again before giving up.
pub const MAX_DUP_RETRIES: usize = 20;

/// The length of a batch name.
pub const BATCH_LEN: usize = 9;

// ---------------------------------------------------------------------------
// A set of codes already produced
// ---------------------------------------------------------------------------

/// The codes produced so far in a session; no code occurs twice.
pub struct CodeSet {
    codes: Vec<String>,
}

impl CodeSet {
    /// The codes, in the order they were added.
    pub closed spec fn entries(self) -> Seq<Seq<char>> {
        self.codes@.map_values(|s: String| s@)
    }

    #[verifier::type_invariant]
    spec fn inv(self) -> bool {
        self.entries().no_duplicates()
    }
}

impl View for CodeSet {
    type V = Set<Seq<char>>;

    closed spec fn view(&self) -> Set<Seq<char>> {
        self.entries().to_set()
    }
}

impl CodeSet {
    /// An empty set.
    pub fn new() -> (s: CodeSet)
        ensures
            s@ == Set::<Seq<char>>::empty(),
    {
        let s = CodeSet { codes: Vec::new() };
        assert(s.entries() =~= Seq::<Seq<char>>::empty());
        assert(s@ =~= Set::<Seq<char>>::empty());
        s
    }

    /// Whether the set holds `code`.
    pub fn contains(&self, code: &str) -> (r: bool)
        ensures
            r == self@.contains(code@),
    {
        let mut i: usize = 0;
        while i < self.codes.len()
            invariant
                i <= self.codes@.len(),
                forall|k: int| 0 <= k < i ==> self.codes@[k]@ != code@,
            decreases self.codes.len() - i,
        {
            if str_equals(self.codes[i].as_str(), code) {
                assert(self.entries()[i as int] == code@);
                return true;
            }
            i = i + 1;
        }
        assert(!self.entries().contains(code@)) by {
            if self.entries().contains(code@) {
                let k = choose|k: int| 0 <= k < self.entries().len() && self.entries()[k] == code@;
                assert(self.codes@[k]@ == code@);
            }
        }
        false
    }

    /// Adds `code`; says whether it was new.
    pub fn insert(&mut self, code: String) -> (added: bool)
        ensures
            added == !old(self)@.contains(code@),
            final(self)@ == old(self)@.insert(code@),
    {
        proof {
            use_type_invariant(&*self);
        }
        if self.contains(code.as_str()) {
            proof {
                assert(self@.insert(code@) =~= self@);
            }
            return false;
        }
        let ghost old_entries = self.entries();
        let mut codes = Vec::new();
        std::mem::swap(&mut codes, &mut self.codes);
        let ghost cv = code@;
        codes.push(code);
        proof {
            assert(codes@.map_values(|s: String| s@) =~= old_entries.push(cv));
            assert(!old_entries.contains(cv));
            assert(old_entries.push(cv).no_duplicates());
            old_entries.lemma_push_to_set_commute(cv);
        }
        *self = CodeSet { codes };
        true
    }

    /// The number of codes in the set.
    pub fn len(&self) -> (n: usize)
        ensures
            n == self@.len(),
            self@.finite(),
    {
        proof {
            use_type_invariant(self);
            self.entries().unique_seq_to_set();
            vstd::seq_lib::seq_to_set_is_finite(self.entries());
        }
        self.codes.len()
    }
}

// ---------------------------------------------------------------------------
// Batch names
// ---------------------------------------------------------------------------

/// A batch name is nine bytes, each an ASCII capital letter or digit.
pub open spec fn valid_batch_spec(b: Seq<char>) -> bool {
    let bytes = encode_utf8(b);
    &&& bytes.len() == BATCH_LEN
    &&& forall|i: int|
        0 <= i < bytes.len() ==> (65 <= #[trigger] bytes[i] <= 90 || 48 <= bytes[i] <= 57)
}

/// Whether `b` is a valid batch name.
pub fn valid_batch(b: &str) -> (r: bool)
    ensures
        r == valid_batch_spec(b@),
{
    let bytes = b.as_bytes();
    if bytes.len() != BATCH_LEN {
        return false;
    }
    let mut i: usize = 0;
    while i < bytes.len()
        invariant
            bytes@ == encode_utf8(b@),
            i <= bytes@.len(),
            forall|k: int| 0 <= k < i ==> (65 <= #[trigger] bytes@[k] <= 90 || 48 <= bytes@[k] <= 57),
        decreases bytes.len() - i,
    {
        let c = bytes[i];
        if !((65 <= c && c <= 90) || (48 <= c && c <= 57)) {
            return false;
        }
        i = i + 1;
    }
    true
}

// ---------------------------------------------------------------------------
// Dates and automatic batch names
// ---------------------------------------------------------------------------

/// Leap years of the proleptic Gregorian calendar.
pub open spec fn is_leap_year(y: int) -> bool {
    (y % 4 == 0 && y % 100 != 0) || y % 400 == 0
}

/// The number of days of month `m` (1 to 12) of year `y`.
pub open spec fn days_in_month(y: int, m: int) -> int {
    if m == 2 {
        if is_leap_year(y) {
            29
        } else {
            28
        }
    } else if m == 4 || m == 6 || m == 9 || m == 11 {
        30
    } else {
        31
    }
}

/// The number of days of year `y` before month `m`.
pub open spec fn days_before_month(y: int, m: int) -> int
    decreases m,
{
    if m <= 1 {
        0
    } else {
        days_before_month(y, m - 1) + days_in_month(y, m - 1)
    }
}

/// A calendar date that `chrono::NaiveDate` can hold: years -262143 to 262142.
pub open spec fn valid_ymd(y: int, m: int, d: int) -> bool {
    &&& -262143 <= y <= 262142
    &&& 1 <= m <= 12
    &&& 1 <= d <= days_in_month(y, m)
}

/// The day of the year of a date, starting from 1.
pub open spec fn day_of_year(y: int, m: int, d: int) -> int {
    days_before_month(y, m) + d
}

/// `chrono::NaiveDate::from_ymd_opt` and `Datelike::ordinal`: the day of the
/// year of a date, or `None` where the date does not exist or is out of
/// chrono's year range. The contract states chrono's documented calendar:
/// proleptic Gregorian, years -262143 to 262142.
#[verifier::external_body]
fn chrono_day_of_year(year: i32, month: u32, day: u32) -> (r: Option<u32>)
    ensures
        r is Some <==> valid_ymd(year as int, month as int, day as int),
        r matches Some(o) ==> o == day_of_year(year as int, month as int, day as int),
{
    match chrono::NaiveDate::from_ymd_opt(year, month, day) {
        Some(date) => Some(chrono::Datelike::ordinal(&date)),
        None => None,
    }
}

/// A valid calendar date, with its day of the year.
pub struct CalendarDate {
    year: i32,
    month: u32,
    day: u32,
    ordinal: u32,
}

impl CalendarDate {
    #[verifier::type_invariant]
    spec fn inv(self) -> bool {
        &&& valid_ymd(self.year as int, self.month as int, self.day as int)
        &&& self.ordinal == day_of_year(self.year as int, self.month as int, self.day as int)
    }

    /// The year.
    pub closed spec fn year_of(self) -> i32 {
        self.year
    }

    /// The month, 1 to 12.
    pub closed spec fn month_of(self) -> u32 {
        self.month
    }

    /// The day of the month.
    pub closed spec fn day_of(self) -> u32 {
        self.day
    }

    /// The date of a year, month and day, if it exists.
    pub fn from_ymd(year: i32, month: u32, day: u32) -> (r: Option<CalendarDate>)
        ensures
            r is Some <==> valid_ymd(year as int, month as int, day as int),
            r matches Some(d) ==> d.year_of() == year && d.month_of() == month && d.day_of()
                == day,
    {
        match chrono_day_of_year(year, month, day) {
            Some(ordinal) => Some(CalendarDate { year, month, day, ordinal }),
            None => None,
        }
    }
}

/// The remainder of `a / b` rounded toward zero, as Rust's `%` gives it.
pub open spec fn rem_toward_zero(a: int, b: int) -> int {
    if a >= 0 {
        a % b
    } else {
        -((-a) % b)
    }
}

/// The automatic batch name of a date: `UB`, the year modulo 100 as two
/// digits, the day of the year as three digits, then `F1`.
pub open spec fn auto_batch_spec(y: int, m: int, d: int) -> Seq<char> {
    "UB"@ + zero_padded(rem_toward_zero(y, 100), 2) + zero_padded(day_of_year(y, m, d), 3)
        + "F1"@
}

fn push_str_chars(s: &mut String, t: &str)
    ensures
        final(s)@ == old(s)@ + t@,
{
    let cs = crate::text::chars_of(t);
    let ghost s0 = s@;
    let mut k: usize = 0;
    while k < cs.len()
        invariant
            k <= cs@.len(),
            cs@ == t@,
            s@ == s0 + t@.take(k as int),
        decreases cs.len() - k,
    {
        push_char(s, cs[k]);
        k = k + 1;
        assert(s@ =~= s0 + t@.take(k as int));
    }
    assert(t@.take(t@.len() as int) =~= t@);
}

/// The automatic batch name of a date, as `strftime("UB%y%jF1")` writes it.
pub fn auto_batch(date: &CalendarDate) -> (s: String)
    ensures
        s@ == auto_batch_spec(date.year_of() as int, date.month_of() as int, date.day_of() as int),
{
    proof {
        use_type_invariant(date);
    }
    let y = date.year;
    let yy: i64 = if y >= 0 {
        (y % 100) as i64
    } else {
        -(((-y) % 100) as i64)
    };
    let mut s = String::new();
    push_str_chars(&mut s, "UB");
    push_zero_padded(&mut s, yy, 2);
    push_zero_padded(&mut s, date.ordinal as i64, 3);
    push_str_chars(&mut s, "F1");
    s
}

// ---------------------------------------------------------------------------
// Randomness
// ---------------------------------------------------------------------------

#[verifier::external_type_specification]
#[verifier::external_body]
pub struct ExThreadRng(rand::rngs::ThreadRng);

/// `rand::thread_rng`: a handle on the thread-local random generator.
#[verifier::external_body]
fn new_rng() -> rand::rngs::ThreadRng {
    rand::thread_rng()
}

/// `Rng::gen::<u16>`: a random 16-bit number; any value may come back.
#[verifier::external_body]
fn random_u16(rng: &mut rand::rngs::ThreadRng) -> u16 {
    rng.gen()
}

/// `SliceRandom::choose` on a slice of bytes: `None` exactly when the slice
/// is empty, else one of its items (which one is left to chance).
#[verifier::external_body]
fn choose_u8(rng: &mut rand::rngs::ThreadRng, items: &[u8]) -> (r: Option<u8>)
    ensures
        r is None <==> items@.len() == 0,
        r matches Some(x) ==> items@.contains(x),
{
    items.choose(rng).copied()
}

/// The random source of code generation: the thread-local generator, with
/// the record of every draw made from it (a number and a tara).
pub struct CodeRng {
    rng: rand::rngs::ThreadRng,
    log: Ghost<Seq<(u16, u8)>>,
}

impl CodeRng {
    /// The draws made so far, in order: each a number and a tara.
    pub closed spec fn draws(self) -> Seq<(u16, u8)> {
        self.log@
    }

    /// A source on the thread-local generator, with no draw made yet.
    pub fn new() -> (r: CodeRng)
        ensures
            r.draws() == Seq::<(u16, u8)>::empty(),
    {
        CodeRng { rng: new_rng(), log: Ghost(Seq::empty()) }
    }

    /// Draws a random number and one of `taras`, and records the draw.
    fn draw(&mut self, taras: &[u8]) -> (d: (u16, u8))
        requires
            taras@.len() > 0,
        ensures
            taras@.contains(d.1),
            final(self).draws() == old(self).draws().push(d),
    {
        let number = random_u16(&mut self.rng);
        let tara = match choose_u8(&mut self.rng, taras) {
            Some(t) => t,
            None => taras[0],
        };
        self.log = Ghost(self.log@.push((number, tara)));
        (number, tara)
    }
}

// ---------------------------------------------------------------------------
// Generation
// ---------------------------------------------------------------------------

/// A request to generate one or more canister codes for a single SKU.
#[derive(Debug, Clone)]
pub struct GenerateRequest {
    pub ink_type: InkType,
    pub color: String,
    pub volume_l: u8,
    pub expires_year: i32,
    pub expires_month: u8,
    pub batch: String,
    pub count: u8,
}

/// The value of a `GenerateRequest`, strings taken by their characters.
pub struct GenerateRequestView {
    pub ink_type: InkType,
    pub color: Seq<char>,
    pub volume_l: u8,
    pub expires_year: i32,
    pub expires_month: u8,
    pub batch: Seq<char>,
    pub count: u8,
}

impl View for GenerateRequest {
    type V = GenerateRequestView;

    open spec fn view(&self) -> GenerateRequestView {
        GenerateRequestView {
            ink_type: self.ink_type,
            color: self.color@,
            volume_l: self.volume_l,
            expires_year: self.expires_year,
            expires_month: self.expires_month,
            batch: self.batch@,
            count: self.count,
        }
    }
}

/// One generated code and the random fields that produced it.
#[derive(Debug, Clone)]
pub struct GeneratedCode {
    pub code: String,
    pub code_undashed: String,
    pub number: u16,
    pub legacy_tara_raw: u8,
}

/// The value of a `GeneratedCode`, strings taken by their characters.
pub struct GeneratedCodeView {
    pub code: Seq<char>,
    pub code_undashed: Seq<char>,
    pub number: u16,
    pub legacy_tara_raw: u8,
}

impl View for GeneratedCode {
    type V = GeneratedCodeView;

    open spec fn view(&self) -> GeneratedCodeView {
        GeneratedCodeView {
            code: self.code@,
            code_undashed: self.code_undashed@,
            number: self.number,
            legacy_tara_raw: self.legacy_tara_raw,
        }
    }
}

/// What a request settles before any code is drawn: the ink-type id, color
/// id, volume id and tara options; or the first error among a bad batch, an
/// SQSG3 Clear, an unknown color and an unknown volume, in that order.
pub open spec fn request_setup(req: GenerateRequestView) -> Result<(u8, u8, u8, Seq<u8>), SqpErrorView> {
    if !valid_batch_spec(req.batch) {
        Err(SqpErrorView::BadBatch(req.batch))
    } else if ink_type_id_spec(req.ink_type, req.color) is None {
        Err(SqpErrorView::InvalidCombo(sqsg3_clear_message()))
    } else if color_id_spec(req.color) is None {
        Err(SqpErrorView::UnknownColor(req.color))
    } else if volume_id_spec(req.volume_l) is None {
        Err(SqpErrorView::UnknownVolume(req.volume_l))
    } else {
        Ok(
            (
                ink_type_id_spec(req.ink_type, req.color)->0,
                color_id_spec(req.color)->0,
                volume_id_spec(req.volume_l)->0,
                tara_options_spec(req.volume_l)->0,
            ),
        )
    }
}

/// The fields of a code that a request asks for, with a drawn number and tara.
pub open spec fn request_fields(
    req: GenerateRequestView,
    setup: (u8, u8, u8, Seq<u8>),
    number: u16,
    tara: u8,
) -> FieldsView {
    FieldsView {
        volume: setup.2,
        color: setup.1,
        number,
        month: req.expires_month,
        year: req.expires_year,
        ink_type_id: setup.0,
        legacy_tara_raw: tara,
        batch: req.batch,
    }
}

/// A generated code is the code of the request's fields with its number and
/// a tara of the volume, together with the code without dashes.
pub open spec fn is_generated(
    g: GeneratedCodeView,
    req: GenerateRequestView,
    setup: (u8, u8, u8, Seq<u8>),
    pool: Seq<u8>,
) -> bool {
    &&& setup.3.contains(g.legacy_tara_raw)
    &&& g.code == encode_spec(request_fields(req, setup, g.number, g.legacy_tara_raw), pool)
    &&& g.code_undashed == undashed(g.code)
}

/// Encodes some fields, checks that the code decodes as valid, and records it
/// unless it was already produced: `Err(EncoderRegression)` if the check
/// fails, `Ok(None)` for a repeat, else the new code.
pub fn place_code(fields: &Fields, pool: &BytePool, already: &mut CodeSet) -> (r: Result<
    Option<GeneratedCode>,
    SqpError,
>)
    requires
        fields.year >= i32::MIN + 2007,
    ensures
        ({
            let code = encode_spec(fields@, pool@);
            if !year_in_window(fields.year as int) {
                &&& r matches Err(e) && e@ == SqpErrorView::EncoderRegression(code)
                &&& final(already)@ == old(already)@
            } else if old(already)@.contains(code) {
                &&& r matches Ok(None)
                &&& final(already)@ == old(already)@
            } else {
                &&& r matches Ok(Some(g)) && g@ == (GeneratedCodeView {
                    code,
                    code_undashed: undashed(code),
                    number: fields.number,
                    legacy_tara_raw: fields.legacy_tara_raw,
                })
                &&& final(already)@ == old(already)@.insert(code)
            }
        }),
{
    let code = encode(fields, pool);
    proof {
        lemma_decode_encode(fields@, pool@);
    }
    let check = match decode(code.as_str(), pool) {
        Ok(c) => c,
        Err(e) => {
            return Err(e);
        },
    };
    if !check.valid {
        return Err(SqpError::EncoderRegression(code));
    }
    if already.contains(code.as_str()) {
        return Ok(None);
    }
    let code_undashed = undash_string(code.as_str());
    let recorded = code.clone();
    already.insert(recorded);
    Ok(Some(GeneratedCode { code, code_undashed, number: fields.number, legacy_tara_raw: fields.legacy_tara_raw }))
}

/// The codes of a sequence of generated codes, as a set.
pub open spec fn codes_of(out: Seq<GeneratedCode>) -> Set<Seq<char>> {
    out.map_values(|g: GeneratedCode| g.code@).to_set()
}

/// A code that the request could have drawn: the code of its fields with
/// some number and some tara of the volume.
pub open spec fn drawable(c: Seq<char>, req: GenerateRequestView, setup: (u8, u8, u8, Seq<u8>), pool: Seq<u8>) -> bool {
    exists|n: u16, t: u8|
        setup.3.contains(t) && c == #[trigger] encode_spec(request_fields(req, setup, n, t), pool)
}

proof fn lemma_codes_drawable(
    out: Seq<GeneratedCode>,
    req: GenerateRequestView,
    setup: (u8, u8, u8, Seq<u8>),
    pool: Seq<u8>,
)
    requires
        forall|k: int| 0 <= k < out.len() ==> is_generated(#[trigger] out[k]@, req, setup, pool),
    ensures
        forall|c: Seq<char>| #[trigger] codes_of(out).contains(c) ==> drawable(c, req, setup, pool),
{
    assert forall|c: Seq<char>| #[trigger] codes_of(out).contains(c) implies drawable(
        c,
        req,
        setup,
        pool,
    ) by {
        let m = out.map_values(|g: GeneratedCode| g.code@);
        let k = choose|k: int| 0 <= k < m.len() && m[k] == c;
        assert(is_generated(out[k]@, req, setup, pool));
        let n = out[k].number;
        let t = out[k].legacy_tara_raw;
        assert(setup.3.contains(t) && c == encode_spec(request_fields(req, setup, n, t), pool));
    }
}

/// Settles a request before any code is drawn: its ink-type id, color id,
/// volume id and tara options, or the first error.
fn setup_request(req: &GenerateRequest) -> (r: Result<(u8, u8, u8, &'static [u8]), SqpError>)
    ensures
        match request_setup(req@) {
            Err(e) => r matches Err(x) && x@ == e,
            Ok(setup) => r matches Ok(v) && setup == (v.0, v.1, v.2, v.3@),
        },
{
    if !valid_batch(req.batch.as_str()) {
        return Err(SqpError::BadBatch(req.batch.clone()));
    }
    let ink_type_id = match derive_ink_type_id(req.ink_type, req.color.as_str()) {
        Ok(v) => v,
        Err(e) => {
            return Err(e);
        },
    };
    let color = match color_id(req.color.as_str()) {
        Ok(v) => v,
        Err(e) => {
            return Err(e);
        },
    };
    let volume = match volume_id(req.volume_l) {
        Ok(v) => v,
        Err(e) => {
            return Err(e);
        },
    };
    let tara_pool = match tara_options(req.volume_l) {
        Ok(v) => v,
        Err(e) => {
            return Err(e);
        },
    };
    Ok((ink_type_id, color, volume, tara_pool))
}

/// The code of a draw: the request's fields with the drawn number and tara.
pub open spec fn drawn_code(
    req: GenerateRequestView,
    setup: (u8, u8, u8, Seq<u8>),
    pool: Seq<u8>,
    d: (u16, u8),
) -> Seq<char> {
    encode_spec(request_fields(req, setup, d.0, d.1), pool)
}

/// Draws codes for a request until one is new, at most `MAX_DUP_RETRIES`
/// times: `Ok(Some(code))` for a new code, now recorded; `Ok(None)` when
/// every draw repeated a code; the self-check's error if it fails.
fn draw_unique_code(
    req: &GenerateRequest,
    setup: (u8, u8, u8, &'static [u8]),
    pool: &BytePool,
    already: &mut CodeSet,
    rng: &mut CodeRng,
) -> (r: Result<Option<GeneratedCode>, SqpError>)
    requires
        req.expires_year >= i32::MIN + 2007,
        setup.3@.len() > 0,
    ensures
        ({
            let sv = (setup.0, setup.1, setup.2, setup.3@);
            let before = old(rng).draws();
            let after = final(rng).draws();
            &&& before.is_prefix_of(after)
            &&& before.len() < after.len() <= before.len() + MAX_DUP_RETRIES
            &&& forall|k: int| before.len() <= k < after.len() ==> sv.3.contains(#[trigger] after[k].1)
            &&& forall|k: int|
                before.len() <= k < after.len() - 1 ==> old(already)@.contains(
                    drawn_code(req@, sv, pool@, #[trigger] after[k]),
                )
            &&& !year_in_window(req.expires_year as int) ==> (r matches Err(e) && e@
                is EncoderRegression && e@->EncoderRegression_0 == drawn_code(
                req@,
                sv,
                pool@,
                after.last(),
            ) && after.len() == before.len() + 1)
            &&& !year_in_window(req.expires_year as int) ==> final(already)@ == old(already)@
            &&& year_in_window(req.expires_year as int) ==> r is Ok
            &&& r matches Ok(Some(g)) ==> {
                &&& is_generated(g@, req@, sv, pool@)
                &&& (g.number, g.legacy_tara_raw) == after.last()
                &&& !old(already)@.contains(g.code@)
                &&& final(already)@ == old(already)@.insert(g.code@)
            }
            &&& r matches Ok(None) ==> {
                &&& after.len() == before.len() + MAX_DUP_RETRIES
                &&& old(already)@.contains(drawn_code(req@, sv, pool@, after.last()))
                &&& final(already)@ == old(already)@
            }
        }),
{
    let ghost sv = (setup.0, setup.1, setup.2, setup.3@);
    let ghost before = rng.draws();
    let (ink_type_id, color, volume, tara_pool) = setup;
    let mut attempt: usize = 0;
    loop
        invariant
            req.expires_year >= i32::MIN + 2007,
            sv == (ink_type_id, color, volume, tara_pool@),
            sv == (setup.0, setup.1, setup.2, setup.3@),
            tara_pool@.len() > 0,
            attempt < MAX_DUP_RETRIES,
            already@ == old(already)@,
            attempt > 0 ==> year_in_window(req.expires_year as int),
            before == old(rng).draws(),
            before.is_prefix_of(rng.draws()),
            rng.draws().len() == before.len() + attempt,
            forall|k: int|
                before.len() <= k < rng.draws().len() ==> sv.3.contains(#[trigger] rng.draws()[k].1),
            forall|k: int|
                before.len() <= k < rng.draws().len() ==> already@.contains(
                    drawn_code(req@, sv, pool@, #[trigger] rng.draws()[k]),
                ),
        decreases MAX_DUP_RETRIES - attempt,
    {
        let ghost prev = rng.draws();
        let (number, legacy_tara_raw) = rng.draw(tara_pool);
        proof {
            assert(before.is_prefix_of(rng.draws())) by {
                assert forall|k: int| 0 <= k < before.len() implies #[trigger] before[k]
                    == rng.draws()[k] by {
                    assert(prev[k] == rng.draws()[k]);
                }
            }
        }
        let fields = Fields {
            volume,
            color,
            number,
            month: req.expires_month,
            year: req.expires_year,
            ink_type_id,
            legacy_tara_raw,
            batch: req.batch.clone(),
        };
        assert(fields@ == request_fields(req@, sv, number, legacy_tara_raw));
        assert(rng.draws().last() == (number, legacy_tara_raw));
        let placed = place_code(&fields, pool, already);
        match placed {
            Err(e) => {
                return Err(e);
            },
            Ok(Some(g)) => {
                return Ok(Some(g));
            },
            Ok(None) => {},
        }
        if attempt + 1 == MAX_DUP_RETRIES {
            return Ok(None);
        }
        attempt = attempt + 1;
    }
}

/// Generates `req.count` unique, self-checked codes under a byte pool,
/// recording each into `already`, with the thread-local random generator:
/// what `generate_with` does on a fresh `CodeRng`.
pub fn generate(req: &GenerateRequest, pool: &BytePool, already: &mut CodeSet) -> (r: Result<
    Vec<GeneratedCode>,
    SqpError,
>)
    requires
        req.count > 0 && request_setup(req@) is Ok ==> req.expires_year >= i32::MIN + 2007,
    ensures
        generate_outcome(req@, pool@, old(already)@, final(already)@, r),
{
    let mut rng = CodeRng::new();
    generate_with(req, pool, already, &mut rng)
}

/// What holds of every outcome of generating codes for a request, from the
/// set of codes before to the set after: setup errors come first and change
/// nothing; a year outside its window fails the self-check at once; a
/// success gives `req.count` new codes of the request, all recorded; giving
/// up leaves fewer than `req.count` new codes recorded and needs a code
/// already recorded.
pub open spec fn generate_outcome(
    req: GenerateRequestView,
    pool: Seq<u8>,
    before: Set<Seq<char>>,
    after: Set<Seq<char>>,
    r: Result<Vec<GeneratedCode>, SqpError>,
) -> bool {
    match request_setup(req) {
        Err(e) => r matches Err(x) && x@ == e && after == before,
        Ok(setup) => {
            &&& req.count == 0 ==> (r matches Ok(out) && out@.len() == 0 && after == before)
            &&& (r matches Err(e) && e@ == SqpErrorView::CollisionExhausted) ==> ({
                &&& req.count > 0
                &&& before.len() + req.count >= 2
                &&& after.len() < before.len() + req.count
                &&& exists|c: Seq<char>| #[trigger] after.contains(c) && drawable(c, req, setup, pool)
            })
            &&& r matches Ok(out) ==> {
                &&& out@.len() == req.count
                &&& forall|k: int|
                    0 <= k < out@.len() ==> is_generated(#[trigger] out@[k]@, req, setup, pool)
                        && !before.contains(out@[k].code@)
                &&& forall|j: int, k: int|
                    0 <= j < out@.len() && 0 <= k < out@.len() && j != k ==> out@[j].code@
                        != out@[k].code@
                &&& after == before.union(codes_of(out@))
            }
            &&& r matches Err(e) ==> e@ == SqpErrorView::CollisionExhausted || (e@
                is EncoderRegression && req.count > 0 && !year_in_window(req.expires_year as int))
            &&& (req.count > 0 && !year_in_window(req.expires_year as int)) ==> {
                &&& r matches Err(e) && e@ is EncoderRegression && drawable(
                    e@->EncoderRegression_0,
                    req,
                    setup,
                    pool,
                )
                &&& after == before
            }
            &&& before.subset_of(after)
            &&& forall|c: Seq<char>|
                #[trigger] after.contains(c) && !before.contains(c) ==> drawable(c, req, setup, pool)
        },
    }
}

/// Generates `req.count` unique, self-checked codes under a byte pool,
/// recording each into `already` and drawing from `rng`. The number of each
/// code and its tara (one of the volume's tara options) are drawn at random;
/// a code that was already produced is drawn again, up to `MAX_DUP_RETRIES`
/// draws for one code. Giving up (`CollisionExhausted`) happens only after
/// `MAX_DUP_RETRIES` draws in a row whose codes were all already recorded;
/// the codes recorded before giving up stay recorded.
pub fn generate_with(
    req: &GenerateRequest,
    pool: &BytePool,
    already: &mut CodeSet,
    rng: &mut CodeRng,
) -> (r: Result<Vec<GeneratedCode>, SqpError>)
    requires
        req.count > 0 && request_setup(req@) is Ok ==> req.expires_year >= i32::MIN + 2007,
    ensures
        generate_outcome(req@, pool@, old(already)@, final(already)@, r),
        old(rng).draws().is_prefix_of(final(rng).draws()),
        final(rng).draws().len() <= old(rng).draws().len() + req.count * MAX_DUP_RETRIES,
        request_setup(req@) matches Ok(setup) ==> forall|k: int|
            old(rng).draws().len() <= k < final(rng).draws().len() ==> setup.3.contains(
                #[trigger] final(rng).draws()[k].1,
            ),
        request_setup(req@) matches Ok(setup) ==> ((r is Err && r->Err_0@
            == SqpErrorView::CollisionExhausted) ==> ({
            let d = final(rng).draws();
            &&& d.len() >= old(rng).draws().len() + MAX_DUP_RETRIES
            &&& forall|k: int|
                d.len() - MAX_DUP_RETRIES <= k < d.len() ==> final(already)@.contains(
                    drawn_code(req@, setup, pool@, #[trigger] d[k]),
                )
        })),
{
    let ghost old_set = already@;
    let ghost d0 = rng.draws();
    let setup = match setup_request(req) {
        Ok(v) => v,
        Err(e) => {
            return Err(e);
        },
    };
    let ghost sv = (setup.0, setup.1, setup.2, setup.3@);
    proof {
        use_type_invariant(&*already);
        already.entries().unique_seq_to_set();
        vstd::seq_lib::seq_to_set_is_finite(already.entries());
    }
    let mut out: Vec<GeneratedCode> = Vec::new();
    let mut i: u8 = 0;
    while i < req.count
        invariant
            req.count > 0 ==> req.expires_year >= i32::MIN + 2007,
            old_set.finite(),
            already@.finite(),
            already@.len() == old_set.len() + i,
            request_setup(req@) == Ok::<(u8, u8, u8, Seq<u8>), SqpErrorView>(sv),
            old_set == old(already)@,
            sv == (setup.0, setup.1, setup.2, setup.3@),
            setup.3@.len() > 0,
            i <= req.count,
            out@.len() == i,
            forall|k: int|
                0 <= k < out@.len() ==> is_generated(#[trigger] out@[k]@, req@, sv, pool@)
                    && !old_set.contains(out@[k].code@),
            forall|j: int, k: int|
                0 <= j < out@.len() && 0 <= k < out@.len() && j != k ==> out@[j].code@
                    != out@[k].code@,
            already@ == old_set.union(codes_of(out@)),
            i > 0 ==> year_in_window(req.expires_year as int),
            d0 == old(rng).draws(),
            d0.is_prefix_of(rng.draws()),
            rng.draws().len() <= d0.len() + i * MAX_DUP_RETRIES,
            forall|k: int| d0.len() <= k < rng.draws().len() ==> sv.3.contains(#[trigger] rng.draws()[k].1),
        decreases req.count - i,
    {
        proof {
            lemma_codes_drawable(out@, req@, sv, pool@);
        }
        let ghost dprev = rng.draws();
        let made = draw_unique_code(req, setup, pool, already, rng);
        proof {
            let dn = rng.draws();
            assert(d0.is_prefix_of(dn)) by {
                assert forall|k: int| 0 <= k < d0.len() implies #[trigger] d0[k] == dn[k] by {
                    assert(dprev[k] == dn[k]);
                }
            }
            assert forall|k: int| d0.len() <= k < dn.len() implies sv.3.contains(#[trigger] dn[k].1) by {
                if k < dprev.len() {
                    assert(dprev[k] == dn[k]);
                }
            }
            assert(dn.len() <= d0.len() + (i + 1) * MAX_DUP_RETRIES) by (nonlinear_arith)
                requires
                    dn.len() <= dprev.len() + MAX_DUP_RETRIES,
                    dprev.len() <= d0.len() + i * MAX_DUP_RETRIES,
            ;
        }
        let made = match made {
            Ok(m) => m,
            Err(e) => {
                proof {
                    let dn = rng.draws();
                    assert(dn.last() == dn[dn.len() - 1]);
                    assert(drawable(e@->EncoderRegression_0, req@, sv, pool@));
                    assert(out@ =~= Seq::<GeneratedCode>::empty());
                    assert(codes_of(out@) =~= Set::<Seq<char>>::empty());
                    assert(already@ =~= old_set);
                }
                return Err(e);
            },
        };
        match made {
            Some(g) => {
                let ghost gv = g.code@;
                let ghost before = out@;
                out.push(g);
                proof {
                    let mb = before.map_values(|g: GeneratedCode| g.code@);
                    assert(out@.map_values(|g: GeneratedCode| g.code@) =~= mb.push(gv));
                    mb.lemma_push_to_set_commute(gv);
                    assert(already@ =~= old_set.union(codes_of(out@)));
                    assert forall|j: int, k: int|
                        0 <= j < out@.len() && 0 <= k < out@.len() && j != k implies out@[j].code@
                        != out@[k].code@ by {
                        if k == before.len() && j < before.len() {
                            assert(mb[j] == out@[j].code@);
                            assert(codes_of(before).contains(out@[j].code@));
                        }
                        if j == before.len() && k < before.len() {
                            assert(mb[k] == out@[k].code@);
                            assert(codes_of(before).contains(out@[k].code@));
                        }
                    }
                }
            },
            None => {
                proof {
                    let dn = rng.draws();
                    let c = drawn_code(req@, sv, pool@, dn.last());
                    assert(dn.last() == dn[dn.len() - 1]);
                    assert(sv.3.contains(dn.last().1));
                    assert(drawable(c, req@, sv, pool@));
                    assert(already@.contains(c));
                    assert(already@.remove(c).len() == already@.len() - 1);
                    assert forall|k: int|
                        dn.len() - MAX_DUP_RETRIES <= k < dn.len() implies already@.contains(
                            drawn_code(req@, sv, pool@, #[trigger] dn[k]),
                        ) by {
                        if k < dn.len() - 1 {
                        }
                    }
                }
                return Err(SqpError::CollisionExhausted);
            },
        }
        i = i + 1;
    }
    proof {
        lemma_codes_drawable(out@, req@, sv, pool@);
        if req.count == 0 {
            assert(out@.map_values(|g: GeneratedCode| g.code@) =~= Seq::<Seq<char>>::empty());
            assert(codes_of(out@) =~= Set::<Seq<char>>::empty());
            assert(already@ =~= old_set);
        }
    }
    Ok(out)
}

proof fn lemma_leading_byte_high(v: u32)
    ensures
        0xC0u8 | (((v >> 6u32) & 0x1F) as u8) >= 128,
        0xE0u8 | (((v >> 12u32) & 0x0F) as u8) >= 128,
        0xF0u8 | (((v >> 18u32) & 0x7) as u8) >= 128,
        v <= 0x7F ==> (v & 0x7F) as u8 == v,
{
    let a = ((v >> 6u32) & 0x1F) as u8;
    let b = ((v >> 12u32) & 0x0F) as u8;
    let c = ((v >> 18u32) & 0x7) as u8;
    assert(0xC0u8 | a >= 128) by (bit_vector);
    assert(0xE0u8 | b >= 128) by (bit_vector);
    assert(0xF0u8 | c >= 128) by (bit_vector);
    assert(v <= 0x7F ==> (v & 0x7F) as u8 == v) by (bit_vector);
}

proof fn lemma_ascii_bytes_ascii_chars(b: Seq<char>)
    requires
        forall|i: int|
            0 <= i < encode_utf8(b).len() ==> 0 < #[trigger] encode_utf8(b)[i] < 128,
    ensures
        encode_utf8(b).len() == b.len(),
        forall|i: int| 0 <= i < b.len() ==> '\u{1}' <= #[trigger] b[i] <= '\u{7f}',
    decreases b.len(),
{
    if b.len() > 0 {
        let v = b[0] as u32;
        let first = vstd::utf8::encode_scalar(v);
        let rest = encode_utf8(b.drop_first());
        assert(encode_utf8(b) == first + rest);
        lemma_leading_byte_high(v);
        assert(encode_utf8(b)[0] == first[0]);
        assert(v <= 0x7F);
        assert(first.len() == 1);
        assert forall|i: int| 0 <= i < rest.len() implies 0 < #[trigger] rest[i] < 128 by {
            assert(encode_utf8(b)[i + 1] == rest[i]);
        }
        lemma_ascii_bytes_ascii_chars(b.drop_first());
        assert(first[0] == v as u8 && v >= 1);
        vstd::utf8::char_u32_cast(b[0], v);
        assert((v as char) == b[0]);
        assert('\u{1}' <= (v as char) <= '\u{7f}');
        assert forall|i: int| 0 <= i < b.len() implies '\u{1}' <= #[trigger] b[i] <= '\u{7f}' by {
            if i > 0 {
                assert(b[i] == b.drop_first()[i - 1]);
            }
        }
    } else {
        assert(encode_utf8(b) =~= Seq::<u8>::empty());
    }
}

/// A valid batch name is nine ASCII characters, none of them NUL, so a code
/// carries it unchanged.
pub proof fn lemma_valid_batch_fits(b: Seq<char>)
    requires
        valid_batch_spec(b),
    ensures
        b.len() == BATCH_LEN,
        batch_fits(b),
{
    assert forall|i: int| 0 <= i < encode_utf8(b).len() implies 0 < #[trigger] encode_utf8(b)[i]
        < 128 by {}
    lemma_ascii_bytes_ascii_chars(b);
}

/// Every code that `generate` hands out decodes, under the same pool, to the
/// fields it was made from (as the plaintext carries them); it is valid
/// exactly when the expiry year is in its window.
pub proof fn lemma_generated_code_decodes(
    g: GeneratedCodeView,
    req: GenerateRequestView,
    setup: (u8, u8, u8, Seq<u8>),
    pool: Seq<u8>,
)
    requires
        is_generated(g, req, setup, pool),
    ensures
        decode_spec(g.code, pool) == Ok::<(FieldsView, bool), SqpErrorView>(
            (
                unpacked_fields(request_fields(req, setup, g.number, g.legacy_tara_raw)),
                year_in_window(req.expires_year as int),
            ),
        ),
{
    lemma_decode_encode(request_fields(req, setup, g.number, g.legacy_tara_raw), pool);
}

/// For a request that passed its checks, with a month below 16 and a year
/// from 2007 to 2070, every code it generates decodes to exactly the fields
/// it was made from, and is valid.
pub proof fn lemma_generated_code_decodes_exactly(
    g: GeneratedCodeView,
    req: GenerateRequestView,
    setup: (u8, u8, u8, Seq<u8>),
    pool: Seq<u8>,
)
    requires
        request_setup(req) == Ok::<(u8, u8, u8, Seq<u8>), SqpErrorView>(setup),
        req.expires_month < 16,
        2007 <= req.expires_year < 2071,
        is_generated(g, req, setup, pool),
    ensures
        decode_spec(g.code, pool) == Ok::<(FieldsView, bool), SqpErrorView>(
            (request_fields(req, setup, g.number, g.legacy_tara_raw), true),
        ),
{
    lemma_valid_batch_fits(req.batch);
    let f = request_fields(req, setup, g.number, g.legacy_tara_raw);
    assert(fields_fit(f));
    lemma_decode_encode_fitting(f, pool);
}

proof fn lemma_day_of_year_bound(y: int, m: int, d: int)
    requires
        valid_ymd(y, m, d),
    ensures
        1 <= day_of_year(y, m, d) <= 366,
{
    reveal_with_fuel(days_before_month, 13);
}

/// The automatic batch name of a date in a year from 0 on is a valid batch
/// name, so `generate` accepts it.
pub proof fn lemma_auto_batch_valid(y: int, m: int, d: int)
    requires
        valid_ymd(y, m, d),
        y >= 0,
    ensures
        valid_batch_spec(auto_batch_spec(y, m, d)),
{
    reveal_strlit("UB");
    reveal_strlit("F1");
    lemma_day_of_year_bound(y, m, d);
    let yy = rem_toward_zero(y, 100);
    let o = day_of_year(y, m, d);
    assert(0 <= yy < 100);
    assert(crate::text::pow10(2) == 100 && crate::text::pow10(3) == 1000) by {
        reveal_with_fuel(crate::text::pow10, 4);
    }
    crate::text::lemma_decimal_len_bound(yy as nat, 2);
    crate::text::lemma_decimal_len_bound(o as nat, 3);
    crate::text::lemma_zero_padded_digits(yy, 2);
    crate::text::lemma_zero_padded_digits(o, 3);
    let s = auto_batch_spec(y, m, d);
    let p2 = zero_padded(yy, 2);
    let p3 = zero_padded(o, 3);
    assert(s =~= seq!['U', 'B'] + p2 + p3 + seq!['F', '1']);
    assert(s.len() == 9);
    assert forall|i: int| 0 <= i < 9 implies ('A' <= #[trigger] s[i] <= 'Z' || '0' <= s[i] <= '9') by {
        if 2 <= i < 4 {
            assert(s[i] == p2[i - 2]);
        } else if 4 <= i < 7 {
            assert(s[i] == p3[i - 4]);
        }
    }
    assert(vstd::utf8::is_ascii_chars(s));
    vstd::utf8::is_ascii_chars_encode_utf8(s);
    assert forall|i: int| 0 <= i < encode_utf8(s).len() implies (65 <= #[trigger] encode_utf8(s)[i]
        <= 90 || 48 <= encode_utf8(s)[i] <= 57) by {
        assert(encode_utf8(s)[i] == s[i] as u8);
    }
}

/// A batch name is valid exactly when it is nine characters, each a capital
/// letter `A` to `Z` or a digit `0` to `9`.
pub proof fn lemma_valid_batch_chars(b: Seq<char>)
    ensures
        valid_batch_spec(b) <==> (b.len() == 9 && forall|i: int|
            0 <= i < b.len() ==> ('A' <= #[trigger] b[i] <= 'Z' || '0' <= b[i] <= '9')),
{
    if valid_batch_spec(b) {
        assert forall|i: int| 0 <= i < encode_utf8(b).len() implies 0 < #[trigger] encode_utf8(
            b,
        )[i] < 128 by {}
        lemma_ascii_bytes_ascii_chars(b);
        assert(vstd::utf8::is_ascii_chars(b));
        vstd::utf8::is_ascii_chars_encode_utf8(b);
        assert forall|i: int| 0 <= i < b.len() implies ('A' <= #[trigger] b[i] <= 'Z' || '0' <= b[i]
            <= '9') by {
            assert(encode_utf8(b)[i] == b[i] as u8);
        }
    }
    if b.len() == 9 && forall|i: int|
        0 <= i < b.len() ==> ('A' <= #[trigger] b[i] <= 'Z' || '0' <= b[i] <= '9') {
        assert(vstd::utf8::is_ascii_chars(b));
        vstd::utf8::is_ascii_chars_encode_utf8(b);
        assert forall|i: int| 0 <= i < encode_utf8(b).len() implies (65 <= #[trigger] encode_utf8(
            b,
        )[i] <= 90 || 48 <= encode_utf8(b)[i] <= 57) by {
            assert(encode_utf8(b)[i] == b[i] as u8);
        }
    }
}

} // verus!
