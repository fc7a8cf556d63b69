//! RFE32 base-32 codec: 20 bytes (160 bits) <-> 32 characters.
//!
//! The 160 bits are read big-endian: each byte contributes its bits most
//! significant first, and each run of 5 bits, most significant first, names
//! one symbol of the alphabet.

use vstd::prelude::*;
use crate::{SqpError, SqpErrorView, result_view};
use crate::text::{chars_of, push_char};

verus! {

/// The RFE32 alphabet, in symbol order: `A`-`Z` without `I` and `O`, then `2`-`9`.
const ALPHABET: [char; 32] = [
    'A', 'B', 'C', 'D', 'E', 'F', 'G', 'H', 'J', 'K', 'L', 'M', 'N', 'P', 'Q', 'R',
    'S', 'T', 'U', 'V', 'W', 'X', 'Y', 'Z', '2', '3', '4', '5', '6', '7', '8', '9',
];

/// The character of symbol `v < 32`.
pub open spec fn alphabet_char(v: int) -> char {
    if v < 8 {
        (65 + v) as char
    } else if v < 13 {
        (66 + v) as char
    } else if v < 24 {
        (67 + v) as char
    } else {
        (26 + v) as char
    }
}

/// The alphabet as a sequence of 32 characters.
pub open spec fn alphabet() -> Seq<char> {
    Seq::new(32, |v: int| alphabet_char(v))
}

/// The symbol that a character names, if it is in the alphabet.
pub open spec fn symbol_value(c: char) -> Option<u8> {
    let x = c as int;
    if 65 <= x <= 72 {
        Some((x - 65) as u8)
    } else if 74 <= x <= 78 {
        Some((x - 66) as u8)
    } else if 80 <= x <= 90 {
        Some((x - 67) as u8)
    } else if 50 <= x <= 57 {
        Some((x - 26) as u8)
    } else {
        None
    }
}

/// Each symbol's character names that symbol.
pub proof fn lemma_symbol_value_alphabet(v: int)
    requires
        0 <= v < 32,
    ensures
        symbol_value(alphabet_char(v)) == Some(v as u8),
{
}

/// A character that names a symbol is that symbol's character.
pub proof fn lemma_alphabet_symbol_value(c: char)
    requires
        symbol_value(c) is Some,
    ensures
        symbol_value(c)->0 < 32,
        alphabet_char(symbol_value(c)->0 as int) == c,
{
}

proof fn lemma_alphabet_array()
    ensures
        ALPHABET@ == alphabet(),
{
    assert(ALPHABET@ =~= alphabet());
}

/// The bits of a byte sequence, each byte most significant bit first.
pub open spec fn byte_bits(b: Seq<u8>) -> Seq<u8> {
    Seq::new(8 * b.len(), |p: int| (b[p / 8] >> ((7 - p % 8) as u8)) & 1)
}

/// The bits of a sequence of 5-bit symbols, each most significant bit first.
pub open spec fn symbol_bits(v: Seq<u8>) -> Seq<u8> {
    Seq::new(5 * v.len(), |p: int| (v[p / 5] >> ((4 - p % 5) as u8)) & 1)
}

/// The number that `n` bits starting at `start` spell, most significant first.
pub open spec fn bits_value(bits: Seq<u8>, start: int, n: nat) -> nat
    decreases n,
{
    if n == 0 {
        0
    } else {
        2 * bits_value(bits, start, (n - 1) as nat) + (bits[start + n - 1] as nat)
    }
}

/// The 32 symbols of 20 bytes.
pub open spec fn symbols_of_bytes(b: Seq<u8>) -> Seq<u8> {
    Seq::new(32, |j: int| bits_value(byte_bits(b), 5 * j, 5) as u8)
}

/// The 20 bytes of 32 symbols.
pub open spec fn bytes_of_symbols(v: Seq<u8>) -> Seq<u8> {
    Seq::new(20, |i: int| bits_value(symbol_bits(v), 8 * i, 8) as u8)
}

/// RFE32 text of 20 bytes.
pub open spec fn encode_spec(b: Seq<u8>) -> Seq<char> {
    symbols_of_bytes(b).map_values(|v: u8| alphabet_char(v as int))
}

/// The first character at or after `i` that is not in the alphabet.
pub open spec fn first_invalid_from(s: Seq<char>, i: int) -> Option<char>
    decreases s.len() - i,
{
    if i < 0 || i >= s.len() {
        None
    } else if symbol_value(s[i]) is None {
        Some(s[i])
    } else {
        first_invalid_from(s, i + 1)
    }
}

/// What decoding RFE32 text gives: `BadLength` unless there are exactly 32
/// characters, then `CharNotInAlphabet` with the first character outside the
/// alphabet, else the 20 bytes the symbols spell.
pub open spec fn decode_spec(s: Seq<char>) -> Result<Seq<u8>, SqpErrorView> {
    if s.len() != 32 {
        Err(SqpErrorView::BadLength(s.len() as usize))
    } else if first_invalid_from(s, 0) is Some {
        Err(SqpErrorView::CharNotInAlphabet(first_invalid_from(s, 0)->0))
    } else {
        Ok(bytes_of_symbols(s.map_values(|c: char| symbol_value(c)->0)))
    }
}

proof fn lemma_push_bit(v: u8, bit: u8)
    requires
        v < 128,
        bit <= 1,
    ensures
        (v << 1u8) | bit == 2 * v + bit,
{
    assert((v << 1u8) | bit == 2 * v + bit) by (bit_vector)
        requires
            v < 128,
            bit <= 1,
    ;
}

proof fn lemma_bit(x: u8, k: u8)
    requires
        k < 8,
    ensures
        (x >> k) & 1 <= 1,
{
    assert((x >> k) & 1 <= 1) by (bit_vector);
}

proof fn lemma_bits_value_5(bits: Seq<u8>, st: int)
    ensures
        bits_value(bits, st, 5) == 16 * (bits[st] as nat) + 8 * (bits[st + 1] as nat) + 4 * (
        bits[st + 2] as nat) + 2 * (bits[st + 3] as nat) + (bits[st + 4] as nat),
{
    reveal_with_fuel(bits_value, 6);
}

proof fn lemma_bits_value_8(bits: Seq<u8>, st: int)
    ensures
        bits_value(bits, st, 8) == 128 * (bits[st] as nat) + 64 * (bits[st + 1] as nat) + 32 * (
        bits[st + 2] as nat) + 16 * (bits[st + 3] as nat) + 8 * (bits[st + 4] as nat) + 4 * (
        bits[st + 5] as nat) + 2 * (bits[st + 6] as nat) + (bits[st + 7] as nat),
{
    reveal_with_fuel(bits_value, 9);
}

/// Five bits spell a symbol whose bits, most significant first, are those five.
proof fn lemma_symbol_of_bits(bits: Seq<u8>, st: int)
    requires
        forall|k: int| 0 <= k < 5 ==> #[trigger] bits[st + k] <= 1,
    ensures
        bits_value(bits, st, 5) < 32,
        forall|k: int|
            0 <= k < 5 ==> ((bits_value(bits, st, 5) as u8) >> ((4 - k) as u8)) & 1 == #[trigger] bits[st
                + k],
{
    lemma_bits_value_5(bits, st);
    let x0 = bits[st];
    let x1 = bits[st + 1];
    let x2 = bits[st + 2];
    let x3 = bits[st + 3];
    let x4 = bits[st + 4];
    assert(bits[st + 0] <= 1);
    assert(bits[st + 1] <= 1);
    assert(bits[st + 2] <= 1);
    assert(bits[st + 3] <= 1);
    assert(bits[st + 4] <= 1);
    let v: u8 = (16 * x0 + 8 * x1 + 4 * x2 + 2 * x3 + x4) as u8;
    assert((v >> 4u8) & 1 == x0 && (v >> 3u8) & 1 == x1 && (v >> 2u8) & 1 == x2 && (v >> 1u8) & 1
        == x3 && (v >> 0u8) & 1 == x4) by (bit_vector)
        requires
            x0 <= 1,
            x1 <= 1,
            x2 <= 1,
            x3 <= 1,
            x4 <= 1,
            v == 16 * x0 + 8 * x1 + 4 * x2 + 2 * x3 + x4,
    ;
    assert forall|k: int| 0 <= k < 5 implies ((bits_value(bits, st, 5) as u8) >> ((4 - k) as u8))
        & 1 == #[trigger] bits[st + k] by {
        if k == 0 {
            assert(bits[st + k] == x0);
        } else if k == 1 {
            assert(bits[st + k] == x1);
        } else if k == 2 {
            assert(bits[st + k] == x2);
        } else if k == 3 {
            assert(bits[st + k] == x3);
        } else {
            assert(bits[st + k] == x4);
        }
    }
}

/// Eight bits spell a byte whose bits, most significant first, are those eight.
proof fn lemma_byte_of_bits(bits: Seq<u8>, st: int)
    requires
        forall|k: int| 0 <= k < 8 ==> #[trigger] bits[st + k] <= 1,
    ensures
        bits_value(bits, st, 8) < 256,
        forall|k: int|
            0 <= k < 8 ==> ((bits_value(bits, st, 8) as u8) >> ((7 - k) as u8)) & 1 == #[trigger] bits[st
                + k],
{
    lemma_bits_value_8(bits, st);
    let x0 = bits[st];
    let x1 = bits[st + 1];
    let x2 = bits[st + 2];
    let x3 = bits[st + 3];
    let x4 = bits[st + 4];
    let x5 = bits[st + 5];
    let x6 = bits[st + 6];
    let x7 = bits[st + 7];
    assert(bits[st + 0] <= 1);
    assert(bits[st + 1] <= 1);
    assert(bits[st + 2] <= 1);
    assert(bits[st + 3] <= 1);
    assert(bits[st + 4] <= 1);
    assert(bits[st + 5] <= 1);
    assert(bits[st + 6] <= 1);
    assert(bits[st + 7] <= 1);
    let v: u8 = (128 * x0 + 64 * x1 + 32 * x2 + 16 * x3 + 8 * x4 + 4 * x5 + 2 * x6 + x7) as u8;
    assert((v >> 7u8) & 1 == x0 && (v >> 6u8) & 1 == x1 && (v >> 5u8) & 1 == x2 && (v >> 4u8) & 1
        == x3 && (v >> 3u8) & 1 == x4 && (v >> 2u8) & 1 == x5 && (v >> 1u8) & 1 == x6 && (v >> 0u8)
        & 1 == x7) by (bit_vector)
        requires
            x0 <= 1,
            x1 <= 1,
            x2 <= 1,
            x3 <= 1,
            x4 <= 1,
            x5 <= 1,
            x6 <= 1,
            x7 <= 1,
            v == 128 * x0 + 64 * x1 + 32 * x2 + 16 * x3 + 8 * x4 + 4 * x5 + 2 * x6 + x7,
    ;
    assert forall|k: int| 0 <= k < 8 implies ((bits_value(bits, st, 8) as u8) >> ((7 - k) as u8))
        & 1 == #[trigger] bits[st + k] by {
        if k == 0 {
            assert(bits[st + k] == x0);
        } else if k == 1 {
            assert(bits[st + k] == x1);
        } else if k == 2 {
            assert(bits[st + k] == x2);
        } else if k == 3 {
            assert(bits[st + k] == x3);
        } else if k == 4 {
            assert(bits[st + k] == x4);
        } else if k == 5 {
            assert(bits[st + k] == x5);
        } else if k == 6 {
            assert(bits[st + k] == x6);
        } else {
            assert(bits[st + k] == x7);
        }
    }
}

/// A byte is the number its own eight bits spell.
proof fn lemma_bits_of_byte(bits: Seq<u8>, st: int, x: u8)
    requires
        forall|k: int| 0 <= k < 8 ==> #[trigger] bits[st + k] == (x >> ((7 - k) as u8)) & 1,
    ensures
        bits_value(bits, st, 8) == x,
{
    lemma_bits_value_8(bits, st);
    assert(bits[st + 0] == (x >> 7u8) & 1);
    assert(bits[st + 1] == (x >> 6u8) & 1);
    assert(bits[st + 2] == (x >> 5u8) & 1);
    assert(bits[st + 3] == (x >> 4u8) & 1);
    assert(bits[st + 4] == (x >> 3u8) & 1);
    assert(bits[st + 5] == (x >> 2u8) & 1);
    assert(bits[st + 6] == (x >> 1u8) & 1);
    assert(bits[st + 7] == (x >> 0u8) & 1);
    assert(x == 128 * ((x >> 7u8) & 1) + 64 * ((x >> 6u8) & 1) + 32 * ((x >> 5u8) & 1) + 16 * ((x
        >> 4u8) & 1) + 8 * ((x >> 3u8) & 1) + 4 * ((x >> 2u8) & 1) + 2 * ((x >> 1u8) & 1) + ((x
        >> 0u8) & 1)) by (bit_vector);
}

/// A symbol `v < 32` is the number its own five bits spell.
proof fn lemma_bits_of_symbol(bits: Seq<u8>, st: int, x: u8)
    requires
        x < 32,
        forall|k: int| 0 <= k < 5 ==> #[trigger] bits[st + k] == (x >> ((4 - k) as u8)) & 1,
    ensures
        bits_value(bits, st, 5) == x,
{
    lemma_bits_value_5(bits, st);
    assert(bits[st + 0] == (x >> 4u8) & 1);
    assert(bits[st + 1] == (x >> 3u8) & 1);
    assert(bits[st + 2] == (x >> 2u8) & 1);
    assert(bits[st + 3] == (x >> 1u8) & 1);
    assert(bits[st + 4] == (x >> 0u8) & 1);
    assert(x == 16 * ((x >> 4u8) & 1) + 8 * ((x >> 3u8) & 1) + 4 * ((x >> 2u8) & 1) + 2 * ((x
        >> 1u8) & 1) + ((x >> 0u8) & 1)) by (bit_vector)
        requires
            x < 32,
    ;
}

proof fn lemma_first_invalid_none(s: Seq<char>, i: int)
    requires
        0 <= i,
        forall|k: int| i <= k < s.len() ==> #[trigger] symbol_value(s[k]) is Some,
    ensures
        first_invalid_from(s, i) is None,
    decreases s.len() - i,
{
    if i < s.len() {
        lemma_first_invalid_none(s, i + 1);
    }
}

/// Decoding the RFE32 text of 20 bytes gives those bytes back.
pub proof fn lemma_decode_encode(b: Seq<u8>)
    requires
        b.len() == 20,
    ensures
        decode_spec(encode_spec(b)) == Ok::<Seq<u8>, SqpErrorView>(b),
{
    let bb = byte_bits(b);
    let syms = symbols_of_bytes(b);
    let s = encode_spec(b);
    assert forall|p: int| 0 <= p < 160 implies #[trigger] bb[p] <= 1 by {
        lemma_bit(b[p / 8], (7 - p % 8) as u8);
    }
    assert forall|j: int| 0 <= j < 32 implies #[trigger] syms[j] < 32 && symbol_value(s[j])
        == Some(syms[j]) by {
        assert forall|k: int| 0 <= k < 5 implies #[trigger] bb[5 * j + k] <= 1 by {
            assert(bb[5 * j + k] <= 1);
        }
        lemma_symbol_of_bits(bb, 5 * j);
        lemma_symbol_value_alphabet(syms[j] as int);
    }
    lemma_first_invalid_none(s, 0);
    let vals = s.map_values(|c: char| symbol_value(c)->0);
    assert(vals =~= syms);
    assert forall|p: int| 0 <= p < 160 implies #[trigger] symbol_bits(syms)[p] == bb[p] by {
        let j = p / 5;
        let k = p % 5;
        assert forall|m: int| 0 <= m < 5 implies #[trigger] bb[5 * j + m] <= 1 by {
            assert(bb[5 * j + m] <= 1);
        }
        lemma_symbol_of_bits(bb, 5 * j);
        assert(p == 5 * j + k);
        assert(bb[5 * j + k] == bb[p]);
    }
    assert(symbol_bits(syms) =~= bb);
    assert forall|i: int| 0 <= i < 20 implies #[trigger] bytes_of_symbols(syms)[i] == b[i] by {
        assert forall|k: int| 0 <= k < 8 implies #[trigger] bb[8 * i + k] == (b[i] >> ((7 - k)
            as u8)) & 1 by {
            assert((8 * i + k) / 8 == i);
            assert((8 * i + k) % 8 == k);
        }
        lemma_bits_of_byte(bb, 8 * i, b[i]);
    }
    assert(bytes_of_symbols(syms) =~= b);
}

/// RFE32 text of 20 bytes is 32 characters of the alphabet.
pub proof fn lemma_encode_in_alphabet(b: Seq<u8>)
    requires
        b.len() == 20,
    ensures
        encode_spec(b).len() == 32,
        forall|j: int| 0 <= j < 32 ==> #[trigger] symbol_value(encode_spec(b)[j]) is Some,
{
    let bb = byte_bits(b);
    let syms = symbols_of_bytes(b);
    assert forall|p: int| 0 <= p < 160 implies #[trigger] bb[p] <= 1 by {
        lemma_bit(b[p / 8], (7 - p % 8) as u8);
    }
    assert forall|j: int| 0 <= j < 32 implies #[trigger] symbol_value(encode_spec(b)[j]) is Some by {
        assert forall|k: int| 0 <= k < 5 implies #[trigger] bb[5 * j + k] <= 1 by {
            assert(bb[5 * j + k] <= 1);
        }
        lemma_symbol_of_bits(bb, 5 * j);
        lemma_symbol_value_alphabet(syms[j] as int);
    }
}

/// Encoding the bytes that valid RFE32 text decodes to gives that text back.
pub proof fn lemma_encode_decode(s: Seq<char>)
    requires
        decode_spec(s) is Ok,
    ensures
        encode_spec(decode_spec(s)->Ok_0) == s,
{
    let vals = s.map_values(|c: char| symbol_value(c)->0);
    let sb = symbol_bits(vals);
    let b = bytes_of_symbols(vals);
    assert forall|j: int| 0 <= j < 32 implies #[trigger] symbol_value(s[j]) is Some by {
        if symbol_value(s[j]) is None {
            lemma_first_invalid_some(s, 0, j);
        }
    }
    assert forall|j: int| 0 <= j < 32 implies #[trigger] vals[j] < 32 && alphabet_char(
        vals[j] as int,
    ) == s[j] by {
        lemma_alphabet_symbol_value(s[j]);
    }
    assert forall|p: int| 0 <= p < 160 implies #[trigger] sb[p] <= 1 by {
        lemma_bit(vals[p / 5], (4 - p % 5) as u8);
    }
    let bb = byte_bits(b);
    assert forall|p: int| 0 <= p < 160 implies #[trigger] bb[p] == sb[p] by {
        let i = p / 8;
        let k = p % 8;
        assert forall|m: int| 0 <= m < 8 implies #[trigger] sb[8 * i + m] <= 1 by {
            assert(sb[8 * i + m] <= 1);
        }
        lemma_byte_of_bits(sb, 8 * i);
        assert(p == 8 * i + k);
        assert(sb[8 * i + k] == sb[p]);
    }
    assert(bb =~= sb);
    let syms = symbols_of_bytes(b);
    assert forall|j: int| 0 <= j < 32 implies #[trigger] syms[j] == vals[j] by {
        assert forall|k: int| 0 <= k < 5 implies #[trigger] sb[5 * j + k] == (vals[j] >> ((4 - k)
            as u8)) & 1 by {
            assert((5 * j + k) / 5 == j);
            assert((5 * j + k) % 5 == k);
        }
        lemma_bits_of_symbol(sb, 5 * j, vals[j]);
    }
    assert(encode_spec(b) =~= s);
}

proof fn lemma_first_invalid_some(s: Seq<char>, i: int, j: int)
    requires
        0 <= i <= j < s.len(),
        symbol_value(s[j]) is None,
    ensures
        first_invalid_from(s, i) is Some,
    decreases j - i,
{
    if i < j && symbol_value(s[i]) is Some {
        lemma_first_invalid_some(s, i + 1, j);
    }
}

/// Finds the symbol of a character, if it is in the alphabet.
fn val_of(c: char) -> (r: Option<u8>)
    ensures
        r == symbol_value(c),
{
    proof {
        lemma_alphabet_array();
    }
    let mut i: usize = 0;
    while i < 32
        invariant
            i <= 32,
            ALPHABET@ == alphabet(),
            forall|k: int| 0 <= k < i ==> alphabet_char(k) != c,
        decreases 32 - i,
    {
        if ALPHABET[i] == c {
            proof {
                lemma_symbol_value_alphabet(i as int);
            }
            return Some(i as u8);
        }
        i = i + 1;
    }
    proof {
        if symbol_value(c) is Some {
            lemma_alphabet_symbol_value(c);
            let v = symbol_value(c)->0 as int;
            assert(alphabet_char(v) != c);
        }
    }
    None
}

/// Decodes 32 RFE32 characters into 20 bytes.
pub fn decode(s: &str) -> (r: Result<[u8; 20], SqpError>)
    ensures
        result_view(r) == decode_spec(s@),
{
    let cs = chars_of(s);
    if cs.len() != 32 {
        return Err(SqpError::BadLength(cs.len()));
    }
    let ghost vals = s@.map_values(|c: char| symbol_value(c)->0);
    let mut bits: Vec<u8> = Vec::new();
    let mut j: usize = 0;
    while j < 32
        invariant
            cs@ == s@,
            cs@.len() == 32,
            j <= 32,
            vals == s@.map_values(|c: char| symbol_value(c)->0),
            first_invalid_from(s@, 0) == first_invalid_from(s@, j as int),
            forall|k: int| 0 <= k < j ==> #[trigger] symbol_value(s@[k]) is Some,
            bits@ == symbol_bits(vals).take(5 * j),
        decreases 32 - j,
    {
        let c = cs[j];
        let v = match val_of(c) {
            Some(v) => v,
            None => {
                return Err(SqpError::CharNotInAlphabet(c));
            },
        };
        proof {
            lemma_alphabet_symbol_value(c);
        }
        let mut k: u8 = 0;
        while k < 5
            invariant
                j < 32,
                k <= 5,
                v < 32,
                v == vals[j as int],
                vals.len() == 32,
                bits@ == symbol_bits(vals).take(5 * j + k),
            decreases 5 - k,
        {
            bits.push((v >> (4 - k)) & 1);
            k = k + 1;
            assert(bits@ =~= symbol_bits(vals).take(5 * j + k));
        }
        j = j + 1;
    }
    assert(first_invalid_from(s@, 32) is None);
    assert(bits@ =~= symbol_bits(vals));
    let mut out: Vec<u8> = Vec::new();
    let mut i: usize = 0;
    while i < 20
        invariant
            i <= 20,
            bits@ == symbol_bits(vals),
            vals.len() == 32,
            forall|k: int| 0 <= k < 32 ==> vals[k] < 32,
            out@ == bytes_of_symbols(vals).take(i as int),
        decreases 20 - i,
    {
        let mut byte: u8 = 0;
        let mut k: usize = 0;
        proof {
            vstd::arithmetic::power2::lemma2_to64();
        }
        while k < 8
            invariant
                i < 20,
                k <= 8,
                bits@ == symbol_bits(vals),
                vals.len() == 32,
                byte == bits_value(bits@, 8 * i, k as nat),
                byte < vstd::arithmetic::power2::pow2(k as nat),
            decreases 8 - k,
        {
            let bit = bits[8 * i + k];
            proof {
                let p = 8 * i + k;
                lemma_bit(vals[p / 5], (4 - p % 5) as u8);
                vstd::arithmetic::power2::lemma_pow2_unfold((k + 1) as nat);
                vstd::arithmetic::power2::lemma2_to64();
                if k < 7 {
                    vstd::arithmetic::power2::lemma_pow2_strictly_increases(k as nat, 7);
                }
                lemma_push_bit(byte, bit);
            }
            byte = (byte << 1u8) | bit;
            k = k + 1;
        }
        out.push(byte);
        i = i + 1;
        assert(out@ =~= bytes_of_symbols(vals).take(i as int));
    }
    assert(out@ =~= bytes_of_symbols(vals));
    let arr: [u8; 20] = [
        out[0], out[1], out[2], out[3], out[4], out[5], out[6], out[7], out[8], out[9],
        out[10], out[11], out[12], out[13], out[14], out[15], out[16], out[17], out[18], out[19],
    ];
    assert(arr@ =~= out@);
    Ok(arr)
}

/// Encodes 20 bytes into 32 RFE32 characters.
pub fn encode(bytes: &[u8; 20]) -> (s: String)
    ensures
        s@ == encode_spec(bytes@),
{
    proof {
        lemma_alphabet_array();
    }
    let ghost bb = byte_bits(bytes@);
    let mut bits: Vec<u8> = Vec::new();
    let mut i: usize = 0;
    while i < 20
        invariant
            i <= 20,
            bb == byte_bits(bytes@),
            bits@ == bb.take(8 * i),
        decreases 20 - i,
    {
        let b = bytes[i];
        let mut k: u8 = 0;
        while k < 8
            invariant
                i < 20,
                k <= 8,
                b == bytes@[i as int],
                bb == byte_bits(bytes@),
                bits@ == bb.take(8 * i + k),
            decreases 8 - k,
        {
            bits.push((b >> (7 - k)) & 1);
            k = k + 1;
            assert(bits@ =~= bb.take(8 * i + k));
        }
        i = i + 1;
    }
    assert(bits@ =~= bb);
    let ghost syms = symbols_of_bytes(bytes@);
    let mut out = String::new();
    let mut j: usize = 0;
    while j < 32
        invariant
            j <= 32,
            bits@ == bb,
            bb == byte_bits(bytes@),
            bb.len() == 160,
            ALPHABET@ == alphabet(),
            syms == symbols_of_bytes(bytes@),
            out@ == encode_spec(bytes@).take(j as int),
        decreases 32 - j,
    {
        let mut v: u8 = 0;
        let mut k: usize = 0;
        proof {
            vstd::arithmetic::power2::lemma2_to64();
        }
        while k < 5
            invariant
                j < 32,
                k <= 5,
                bits@ == bb,
                bb == byte_bits(bytes@),
                bb.len() == 160,
                v == bits_value(bb, 5 * j, k as nat),
                v < vstd::arithmetic::power2::pow2(k as nat),
            decreases 5 - k,
        {
            let bit = bits[5 * j + k];
            proof {
                let p = 5 * j + k;
                lemma_bit(bytes@[p / 8], (7 - p % 8) as u8);
                vstd::arithmetic::power2::lemma_pow2_unfold((k + 1) as nat);
                vstd::arithmetic::power2::lemma2_to64();
                if k < 7 {
                    vstd::arithmetic::power2::lemma_pow2_strictly_increases(k as nat, 7);
                }
                lemma_push_bit(v, bit);
            }
            v = (v << 1u8) | bit;
            k = k + 1;
        }
        proof {
            vstd::arithmetic::power2::lemma2_to64();
        }
        push_char(&mut out, ALPHABET[v as usize]);
        j = j + 1;
        assert(out@ =~= encode_spec(bytes@).take(j as int));
    }
    assert(out@ =~= encode_spec(bytes@));
    out
}

/// The alphabet, symbol 0 first, is `ABCDEFGHJKLMNPQRSTUVWXYZ23456789`.
pub proof fn lemma_alphabet_text()
    ensures
        alphabet() == "ABCDEFGHJKLMNPQRSTUVWXYZ23456789"@,
{
    reveal_strlit("ABCDEFGHJKLMNPQRSTUVWXYZ23456789");
    assert(alphabet() =~= "ABCDEFGHJKLMNPQRSTUVWXYZ23456789"@);
}

} // verus!
