//! Small string helpers: characters of a `&str`, pushing characters, and
//! decimal rendering of integers.

use vstd::prelude::*;
use vstd::utf8::{encode_scalar, encode_utf8};

verus! {

/// `String::push`: appends one character at the end of the string.
#[verifier::external_body]
pub(crate) fn push_char(s: &mut String, c: char)
    ensures
        final(s)@ == old(s)@.push(c),
{
    s.push(c);
}

/// The characters of a string slice, in order.
pub fn chars_of(s: &str) -> (v: Vec<char>)
    ensures
        v@ == s@,
{
    let mut v: Vec<char> = Vec::new();
    let n = s.unicode_len();
    let mut i: usize = 0;
    while i < n
        invariant
            n == s@.len(),
            i <= n,
            v@ == s@.take(i as int),
        decreases n - i,
    {
        let c = s.get_char(i);
        v.push(c);
        i = i + 1;
        assert(v@ =~= s@.take(i as int));
    }
    assert(v@ =~= s@);
    v
}

/// A string holding the given characters.
pub fn string_of(cs: &[char]) -> (s: String)
    ensures
        s@ == cs@,
{
    let mut s = String::new();
    let mut i: usize = 0;
    while i < cs.len()
        invariant
            i <= cs@.len(),
            s@ == cs@.take(i as int),
        decreases cs.len() - i,
    {
        push_char(&mut s, cs[i]);
        i = i + 1;
        assert(s@ =~= cs@.take(i as int));
    }
    assert(s@ =~= cs@);
    s
}

/// The ASCII digit for `d < 10`.
pub open spec fn digit_char(d: nat) -> char {
    (48 + d) as char
}

/// Decimal digits of `n`, most significant first, without leading zeros.
pub open spec fn decimal(n: nat) -> Seq<char>
    decreases n,
{
    if n < 10 {
        seq![digit_char(n)]
    } else {
        decimal(n / 10).push(digit_char(n % 10))
    }
}

/// `n` zero characters.
pub open spec fn zeros(n: nat) -> Seq<char> {
    Seq::new(n, |i: int| '0')
}

/// An integer rendered as `format!("{:0w$}", v)` renders it: an optional minus
/// sign, then zeros up to width `w`, then the decimal digits of `|v|`.
pub open spec fn zero_padded(v: int, w: nat) -> Seq<char> {
    let sign: Seq<char> = if v < 0 { seq!['-'] } else { Seq::empty() };
    let digits = decimal((if v < 0 { -v } else { v }) as nat);
    let pad: int = w - sign.len() - digits.len();
    sign + zeros(if pad > 0 { pad as nat } else { 0 }) + digits
}

fn digit(d: u128) -> (c: char)
    requires
        d < 10,
    ensures
        c == digit_char(d as nat),
{
    let b: u8 = 48u8 + (d as u8);
    b as char
}

/// Appends the decimal digits of `n`.
pub fn push_decimal(s: &mut String, n: u128)
    ensures
        final(s)@ == old(s)@ + decimal(n as nat),
    decreases n,
{
    if n >= 10 {
        push_decimal(s, n / 10);
    }
    push_char(s, digit(n % 10));
    proof {
        if n < 10 {
            assert(n % 10 == n);
        }
    }
}

/// `10^k`.
pub open spec fn pow10(k: nat) -> nat
    decreases k,
{
    if k == 0 {
        1
    } else {
        10 * pow10((k - 1) as nat)
    }
}

/// A number below `10^k` has at most `k` digits.
pub proof fn lemma_decimal_len_bound(n: nat, k: nat)
    requires
        1 <= k,
        n < pow10(k),
    ensures
        decimal(n).len() <= k,
    decreases k,
{
    if n >= 10 {
        assert(pow10(1) == 10) by {
            reveal_with_fuel(pow10, 2);
        }
        assert(k > 1);
        assert(n / 10 < pow10((k - 1) as nat));
        lemma_decimal_len_bound(n / 10, (k - 1) as nat);
    }
}

/// Every character of `decimal(n)` is an ASCII digit.
pub proof fn lemma_decimal_digits(n: nat)
    ensures
        forall|i: int| 0 <= i < decimal(n).len() ==> '0' <= #[trigger] decimal(n)[i] <= '9',
        decimal(n).len() >= 1,
    decreases n,
{
    if n >= 10 {
        lemma_decimal_digits(n / 10);
        assert forall|i: int| 0 <= i < decimal(n).len() implies '0' <= #[trigger] decimal(n)[i]
            <= '9' by {
            if i < decimal(n / 10).len() {
                assert(decimal(n)[i] == decimal(n / 10)[i]);
            }
        }
    }
}

/// Zero padding of a non-negative number with at most `w` digits gives `w`
/// ASCII digits.
pub proof fn lemma_zero_padded_digits(v: int, w: nat)
    requires
        0 <= v,
        decimal(v as nat).len() <= w,
    ensures
        zero_padded(v, w).len() == w,
        forall|i: int| 0 <= i < w ==> '0' <= #[trigger] zero_padded(v, w)[i] <= '9',
{
    lemma_decimal_digits(v as nat);
    let z = zeros((w - decimal(v as nat).len()) as nat);
    assert(zero_padded(v, w) =~= z + decimal(v as nat));
    assert forall|i: int| 0 <= i < w implies '0' <= #[trigger] zero_padded(v, w)[i] <= '9' by {
        if i >= z.len() {
            assert(zero_padded(v, w)[i] == decimal(v as nat)[i - z.len()]);
        }
    }
}

/// The number of decimal digits of `n`.
pub fn decimal_len(n: u128) -> (len: usize)
    ensures
        len == decimal(n as nat).len(),
        1 <= len <= 39,
    decreases n,
{
    proof {
        assert(pow10(39) == 1000000000000000000000000000000000000000nat) by {
            reveal_with_fuel(pow10, 40);
        }
        lemma_decimal_len_bound(n as nat, 39);
    }
    if n >= 10 {
        1 + decimal_len(n / 10)
    } else {
        1
    }
}

/// Appends `v` rendered with zero padding to width `w`, as `{:0w$}` does.
pub fn push_zero_padded(s: &mut String, v: i64, w: usize)
    requires
        v > i64::MIN,
    ensures
        final(s)@ == old(s)@ + zero_padded(v as int, w as nat),
{
    let magnitude: u128 = if v < 0 { (-v) as u128 } else { v as u128 };
    let sign_len: usize = if v < 0 { 1 } else { 0 };
    let digits_len = decimal_len(magnitude);
    let ghost s0 = s@;
    if v < 0 {
        push_char(s, '-');
    }
    let mut k: usize = 0;
    let used = sign_len + digits_len;
    let pad: usize = if w > used { w - used } else { 0 };
    while k < pad
        invariant
            k <= pad,
            s@ == s0 + (if v < 0 { seq!['-'] } else { Seq::<char>::empty() }) + zeros(k as nat),
        decreases pad - k,
    {
        push_char(s, '0');
        k = k + 1;
        assert(zeros(k as nat) =~= zeros((k - 1) as nat).push('0'));
    }
    push_decimal(s, magnitude);
    assert(s@ =~= s0 + zero_padded(v as int, w as nat));
}

} // verus!

verus! {

/// Whether two string slices hold the same characters.
pub fn str_equals(a: &str, b: &str) -> (r: bool)
    ensures
        r == (a@ == b@),
{
    let n = a.unicode_len();
    if n != b.unicode_len() {
        return false;
    }
    let mut i: usize = 0;
    while i < n
        invariant
            n == a@.len(),
            n == b@.len(),
            i <= n,
            a@.take(i as int) == b@.take(i as int),
        decreases n - i,
    {
        if a.get_char(i) != b.get_char(i) {
            assert(a@[i as int] != b@[i as int]);
            return false;
        }
        i = i + 1;
        assert(a@.take(i as int) =~= a@.take((i - 1) as int).push(a@[i - 1]));
        assert(b@.take(i as int) =~= b@.take((i - 1) as int).push(b@[i - 1]));
    }
    assert(a@ =~= a@.take(n as int));
    assert(b@ =~= b@.take(n as int));
    true
}

} // verus!

verus! {

/// The UTF-8 encoding of a character sequence with one more character.
pub proof fn lemma_encode_utf8_push(a: Seq<char>, c: char)
    ensures
        encode_utf8(a.push(c)) == encode_utf8(a) + encode_scalar(c as u32),
    decreases a.len(),
{
    if a.len() == 0 {
        assert(a.push(c).drop_first() =~= Seq::<char>::empty());
        assert(encode_utf8(Seq::<char>::empty()) =~= Seq::<u8>::empty());
        assert(encode_utf8(a.push(c)) =~= encode_scalar(c as u32));
    } else {
        assert(a.push(c).drop_first() =~= a.drop_first().push(c));
        lemma_encode_utf8_push(a.drop_first(), c);
        assert(encode_utf8(a.push(c)) =~= encode_utf8(a) + encode_scalar(c as u32));
    }
}

/// The number of bytes of the UTF-8 encoding of some characters.
pub fn utf8_len(cs: &[char]) -> (n: u128)
    ensures
        n == encode_utf8(cs@).len(),
{
    let mut n: u128 = 0;
    let mut i: usize = 0;
    while i < cs.len()
        invariant
            i <= cs@.len(),
            n == encode_utf8(cs@.take(i as int)).len(),
            n <= 4 * i,
        decreases cs.len() - i,
    {
        let c = cs[i];
        let v = c as u32;
        proof {
            vstd::utf8::char_is_scalar(c);
            lemma_encode_utf8_push(cs@.take(i as int), c);
            assert(cs@.take(i as int).push(c) =~= cs@.take(i + 1));
        }
        let w: u128 = if v <= 0x7F {
            1
        } else if v <= 0x7FF {
            2
        } else if v <= 0xFFFF {
            3
        } else {
            4
        };
        n = n + w;
        i = i + 1;
    }
    assert(cs@.take(cs@.len() as int) =~= cs@);
    n
}

} // verus!
