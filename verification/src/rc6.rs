//! RC6 block cipher (RC6-32/20/b): key schedule, encryption and decryption of
//! one 16-byte block. Words are little-endian; all word arithmetic wraps.

use vstd::prelude::*;

verus! {

/// The magic constant `P32` of the key schedule.
pub const P32: u32 = 0xB7E1_5163;

/// The magic constant `Q32` of the key schedule.
pub const Q32: u32 = 0x9E37_79B9;

/// The number of rounds of the key schedule this library uses.
pub const ROUNDS: usize = 20;

/// The number of round-key words: `2 * ROUNDS + 4`.
pub const SCHEDULE_LEN: usize = 44;

/// Left rotation of a 32-bit word by `n < 32` bits.
pub open spec fn rotl(x: u32, n: u32) -> u32 {
    if n == 0 {
        x
    } else {
        (x << n) | (x >> ((32 - n) as u32))
    }
}

/// Right rotation of a 32-bit word by `n < 32` bits.
pub open spec fn rotr(x: u32, n: u32) -> u32 {
    if n == 0 {
        x
    } else {
        (x >> n) | (x << ((32 - n) as u32))
    }
}

proof fn lemma_low_five_bits(x: u32)
    ensures
        x & 31 < 32,
{
    assert(x & 31 < 32) by (bit_vector);
}

fn rotate_left(x: u32, n: u32) -> (r: u32)
    requires
        n < 32,
    ensures
        r == rotl(x, n),
{
    if n == 0 {
        x
    } else {
        (x << n) | (x >> (32 - n))
    }
}

fn rotate_right(x: u32, n: u32) -> (r: u32)
    requires
        n < 32,
    ensures
        r == rotr(x, n),
{
    if n == 0 {
        x
    } else {
        (x >> n) | (x << (32 - n))
    }
}

/// Rotating right undoes rotating left.
pub proof fn lemma_rotr_rotl(x: u32, n: u32)
    requires
        n < 32,
    ensures
        rotr(rotl(x, n), n) == x,
{
    if n != 0 {
        assert(((((x << n) | (x >> ((32 - n) as u32))) >> n) | (((x << n) | (x >> ((32 - n)
            as u32))) << ((32 - n) as u32))) == x) by (bit_vector)
            requires
                0 < n < 32,
        ;
    }
}

/// Rotating left undoes rotating right.
pub proof fn lemma_rotl_rotr(x: u32, n: u32)
    requires
        n < 32,
    ensures
        rotl(rotr(x, n), n) == x,
{
    if n != 0 {
        assert(((((x >> n) | (x << ((32 - n) as u32))) << n) | (((x >> n) | (x << ((32 - n)
            as u32))) >> ((32 - n) as u32))) == x) by (bit_vector)
            requires
                0 < n < 32,
        ;
    }
}

/// The little-endian word at byte offset `k`.
pub open spec fn le_word(b: Seq<u8>, k: int) -> u32 {
    (b[k] as u32) | ((b[k + 1] as u32) << 8u32) | ((b[k + 2] as u32) << 16u32) | ((b[k + 3]
        as u32) << 24u32)
}

/// The four little-endian bytes of a word.
pub open spec fn word_bytes(w: u32) -> Seq<u8> {
    seq![w as u8, (w >> 8u32) as u8, (w >> 16u32) as u8, (w >> 24u32) as u8]
}

/// The 16 bytes of four words, each little-endian.
pub open spec fn block_bytes(st: (u32, u32, u32, u32)) -> Seq<u8> {
    word_bytes(st.0) + word_bytes(st.1) + word_bytes(st.2) + word_bytes(st.3)
}

/// The four little-endian words of a 16-byte block.
pub open spec fn block_words(b: Seq<u8>) -> (u32, u32, u32, u32) {
    (le_word(b, 0), le_word(b, 4), le_word(b, 8), le_word(b, 12))
}

proof fn lemma_word_bytes_le_word(w: u32)
    ensures
        le_word(word_bytes(w), 0) == w,
{
    let b0 = w as u8;
    let b1 = (w >> 8u32) as u8;
    let b2 = (w >> 16u32) as u8;
    let b3 = (w >> 24u32) as u8;
    assert(((b0 as u32) | ((b1 as u32) << 8u32) | ((b2 as u32) << 16u32) | ((b3 as u32)
        << 24u32)) == w) by (bit_vector)
        requires
            b0 == w as u8,
            b1 == (w >> 8u32) as u8,
            b2 == (w >> 16u32) as u8,
            b3 == (w >> 24u32) as u8,
    ;
}

proof fn lemma_le_word_word_bytes(b: Seq<u8>, k: int)
    requires
        0 <= k,
        k + 4 <= b.len(),
    ensures
        word_bytes(le_word(b, k)) == b.subrange(k, k + 4),
{
    let b0 = b[k];
    let b1 = b[k + 1];
    let b2 = b[k + 2];
    let b3 = b[k + 3];
    let w = le_word(b, k);
    assert(w as u8 == b0 && (w >> 8u32) as u8 == b1 && (w >> 16u32) as u8 == b2 && (w >> 24u32)
        as u8 == b3) by (bit_vector)
        requires
            w == (b0 as u32) | ((b1 as u32) << 8u32) | ((b2 as u32) << 16u32) | ((b3 as u32)
                << 24u32),
    ;
    assert(word_bytes(w) =~= b.subrange(k, k + 4));
}

/// Reading the words of a block written from words gives the words back.
pub proof fn lemma_block_words_bytes(st: (u32, u32, u32, u32))
    ensures
        block_words(block_bytes(st)) == st,
        block_bytes(st).len() == 16,
{
    let bb = block_bytes(st);
    lemma_word_bytes_le_word(st.0);
    lemma_word_bytes_le_word(st.1);
    lemma_word_bytes_le_word(st.2);
    lemma_word_bytes_le_word(st.3);
    assert(bb.subrange(0, 4) =~= word_bytes(st.0));
    assert(bb.subrange(4, 8) =~= word_bytes(st.1));
    assert(bb.subrange(8, 12) =~= word_bytes(st.2));
    assert(bb.subrange(12, 16) =~= word_bytes(st.3));
    assert(le_word(bb, 0) == le_word(bb.subrange(0, 4), 0));
    assert(le_word(bb, 4) == le_word(bb.subrange(4, 8), 0));
    assert(le_word(bb, 8) == le_word(bb.subrange(8, 12), 0));
    assert(le_word(bb, 12) == le_word(bb.subrange(12, 16), 0));
}

/// Writing the words of a block gives the block back.
pub proof fn lemma_block_bytes_words(b: Seq<u8>)
    requires
        b.len() == 16,
    ensures
        block_bytes(block_words(b)) == b,
{
    lemma_le_word_word_bytes(b, 0);
    lemma_le_word_word_bytes(b, 4);
    lemma_le_word_word_bytes(b, 8);
    lemma_le_word_word_bytes(b, 12);
    assert(block_bytes(block_words(b)) =~= b);
}

// ---------------------------------------------------------------------------
// Key schedule
// ---------------------------------------------------------------------------

/// The state of the key-schedule mixing loop.
pub struct ScheduleState {
    pub s: Seq<u32>,
    pub l: Seq<u32>,
    pub a: u32,
    pub b: u32,
    pub i: int,
    pub j: int,
}

/// The initial round keys: `P32 + i * Q32`, wrapping.
pub open spec fn initial_round_key(i: int) -> u32 {
    P32.wrapping_add((i as u32).wrapping_mul(Q32))
}

/// The key as little-endian words.
pub open spec fn key_words(key: Seq<u8>) -> Seq<u32> {
    Seq::new(key.len() / 4, |i: int| le_word(key, 4 * i))
}

/// The state before the mixing loop.
pub open spec fn schedule_init(key: Seq<u8>) -> ScheduleState {
    ScheduleState {
        s: Seq::new(SCHEDULE_LEN as nat, |i: int| initial_round_key(i)),
        l: key_words(key),
        a: 0,
        b: 0,
        i: 0,
        j: 0,
    }
}

/// One step of the mixing loop.
pub open spec fn schedule_step(st: ScheduleState) -> ScheduleState {
    let a = rotl(st.s[st.i].wrapping_add(st.a).wrapping_add(st.b), 3);
    let ab = a.wrapping_add(st.b) & 31;
    let b = rotl(st.l[st.j].wrapping_add(a).wrapping_add(st.b), ab);
    ScheduleState {
        s: st.s.update(st.i, a),
        l: st.l.update(st.j, b),
        a,
        b,
        i: (st.i + 1) % (SCHEDULE_LEN as int),
        j: (st.j + 1) % (st.l.len() as int),
    }
}

/// The state after `n` steps of the mixing loop.
pub open spec fn schedule_run(st: ScheduleState, n: nat) -> ScheduleState
    decreases n,
{
    if n == 0 {
        st
    } else {
        schedule_step(schedule_run(st, (n - 1) as nat))
    }
}

/// The round keys that RC6 derives from `key`: `3 * max(44, c)` mixing steps,
/// where `c` is the number of key words.
pub open spec fn key_schedule_spec(key: Seq<u8>) -> Seq<u32> {
    let c: int = (key.len() / 4) as int;
    let t: int = SCHEDULE_LEN as int;
    let steps = 3 * (if t > c { t } else { c });
    schedule_run(schedule_init(key), steps as nat).s
}

/// The key lengths that RC6 accepts here.
pub open spec fn valid_key_len(n: nat) -> bool {
    n == 16 || n == 24 || n == 32
}

proof fn lemma_schedule_run_shape(st: ScheduleState, n: nat)
    requires
        st.s.len() == SCHEDULE_LEN,
        st.l.len() > 0,
        0 <= st.i < SCHEDULE_LEN,
        0 <= st.j < st.l.len(),
    ensures
        schedule_run(st, n).s.len() == SCHEDULE_LEN,
        schedule_run(st, n).l.len() == st.l.len(),
        0 <= schedule_run(st, n).i < SCHEDULE_LEN,
        0 <= schedule_run(st, n).j < st.l.len(),
    decreases n,
{
    if n > 0 {
        lemma_schedule_run_shape(st, (n - 1) as nat);
    }
}

/// The schedule of any key of at least one word has `SCHEDULE_LEN` words.
pub proof fn lemma_key_schedule_len(key: Seq<u8>)
    requires
        key.len() >= 4,
    ensures
        key_schedule_spec(key).len() == SCHEDULE_LEN,
{
    let c: int = (key.len() / 4) as int;
    let t: int = SCHEDULE_LEN as int;
    let steps = 3 * (if t > c { t } else { c });
    lemma_schedule_run_shape(schedule_init(key), steps as nat);
}

fn le_word_at(b: &[u8], k: usize) -> (w: u32)
    requires
        k + 4 <= b@.len(),
    ensures
        w == le_word(b@, k as int),
{
    (b[k] as u32) | ((b[k + 1] as u32) << 8u32) | ((b[k + 2] as u32) << 16u32) | ((b[k + 3]
        as u32) << 24u32)
}

/// Expands a 16, 24 or 32-byte key into the 44 round-key words of 20 rounds.
pub fn key_schedule(key: &[u8]) -> (s: Vec<u32>)
    requires
        valid_key_len(key@.len()),
    ensures
        s@ == key_schedule_spec(key@),
        s@.len() == SCHEDULE_LEN,
{
    let c = key.len() / 4;
    let t = SCHEDULE_LEN;
    let mut l: Vec<u32> = Vec::new();
    let mut k: usize = 0;
    while k < c
        invariant
            c == key@.len() / 4,
            valid_key_len(key@.len()),
            k <= c,
            l@ == key_words(key@).take(k as int),
        decreases c - k,
    {
        l.push(le_word_at(key, 4 * k));
        k = k + 1;
        assert(l@ =~= key_words(key@).take(k as int));
    }
    assert(l@ =~= key_words(key@));
    let mut s: Vec<u32> = Vec::new();
    let mut k: usize = 0;
    while k < t
        invariant
            t == SCHEDULE_LEN,
            k <= t,
            s@ == Seq::new(SCHEDULE_LEN as nat, |i: int| initial_round_key(i)).take(k as int),
        decreases t - k,
    {
        s.push(P32.wrapping_add((k as u32).wrapping_mul(Q32)));
        k = k + 1;
        assert(s@ =~= Seq::new(SCHEDULE_LEN as nat, |i: int| initial_round_key(i)).take(
            k as int,
        ));
    }
    let ghost init = schedule_init(key@);
    assert(s@ =~= init.s);
    let steps: usize = 3 * (if t > c { t } else { c });
    let mut a: u32 = 0;
    let mut b: u32 = 0;
    let mut i: usize = 0;
    let mut j: usize = 0;
    let mut n: usize = 0;
    while n < steps
        invariant
            t == SCHEDULE_LEN,
            c == key@.len() / 4,
            valid_key_len(key@.len()),
            init == schedule_init(key@),
            steps == 3 * (if t > c { t } else { c }),
            n <= steps,
            ({
                let st = schedule_run(init, n as nat);
                &&& s@ == st.s
                &&& l@ == st.l
                &&& a == st.a
                &&& b == st.b
                &&& i == st.i
                &&& j == st.j
            }),
            s@.len() == SCHEDULE_LEN,
            l@.len() == c,
            i < SCHEDULE_LEN,
            j < c,
        decreases steps - n,
    {
        proof {
            lemma_schedule_run_shape(init, n as nat);
        }
        a = rotate_left(s[i].wrapping_add(a).wrapping_add(b), 3);
        s.set(i, a);
        let ab = a.wrapping_add(b) & 31;
        assert(ab < 32) by (bit_vector)
            requires
                ab == a.wrapping_add(b) & 31,
        ;
        b = rotate_left(l[j].wrapping_add(a).wrapping_add(b), ab);
        l.set(j, b);
        i = (i + 1) % t;
        j = (j + 1) % c;
        n = n + 1;
    }
    s
}

// ---------------------------------------------------------------------------
// Encryption and decryption
// ---------------------------------------------------------------------------

/// The quadratic mixing function `rotl(x * (2x + 1), 5)`, wrapping.
pub open spec fn mix(x: u32) -> u32 {
    rotl(x.wrapping_mul(x.wrapping_mul(2).wrapping_add(1)), 5)
}

/// The number of rounds a schedule of `len` words drives: `(len - 4) / 2`.
pub open spec fn rounds_of(len: nat) -> nat {
    ((len - 4) / 2) as nat
}

/// Encryption round `i` on registers `(a, b, c, d)`.
pub open spec fn encrypt_round(st: (u32, u32, u32, u32), s: Seq<u32>, i: int) -> (
    u32,
    u32,
    u32,
    u32,
) {
    let (a, b, c, d) = st;
    let t = mix(b);
    let u = mix(d);
    let a2 = rotl(a ^ t, u & 31).wrapping_add(s[2 * i]);
    let c2 = rotl(c ^ u, t & 31).wrapping_add(s[2 * i + 1]);
    (b, c2, d, a2)
}

/// Encryption rounds `1..=n`, in order.
pub open spec fn encrypt_rounds(st: (u32, u32, u32, u32), s: Seq<u32>, n: nat) -> (
    u32,
    u32,
    u32,
    u32,
)
    decreases n,
{
    if n == 0 {
        st
    } else {
        encrypt_round(encrypt_rounds(st, s, (n - 1) as nat), s, n as int)
    }
}

/// Decryption round `i` on registers `(a, b, c, d)`.
pub open spec fn decrypt_round(st: (u32, u32, u32, u32), s: Seq<u32>, i: int) -> (
    u32,
    u32,
    u32,
    u32,
) {
    let (a, b, c, d) = (st.3, st.0, st.1, st.2);
    let u = mix(d);
    let t = mix(b);
    let c2 = rotr(c.wrapping_sub(s[2 * i + 1]), t & 31) ^ u;
    let a2 = rotr(a.wrapping_sub(s[2 * i]), u & 31) ^ t;
    (a2, b, c2, d)
}

/// Decryption rounds `n` down to `1`.
pub open spec fn decrypt_rounds(st: (u32, u32, u32, u32), s: Seq<u32>, n: nat) -> (
    u32,
    u32,
    u32,
    u32,
)
    decreases n,
{
    if n == 0 {
        st
    } else {
        decrypt_rounds(decrypt_round(st, s, n as int), s, (n - 1) as nat)
    }
}

/// RC6 encryption of a 16-byte block under round keys `s`.
#[verifier::opaque]
pub open spec fn encrypt_spec(pt: Seq<u8>, s: Seq<u32>) -> Seq<u8> {
    let r: int = rounds_of(s.len()) as int;
    let w = block_words(pt);
    let st0 = (w.0, w.1.wrapping_add(s[0]), w.2, w.3.wrapping_add(s[1]));
    let st = encrypt_rounds(st0, s, r as nat);
    block_bytes(
        (
            st.0.wrapping_add(s[2 * r + 2]),
            st.1,
            st.2.wrapping_add(s[2 * r + 3]),
            st.3,
        ),
    )
}

/// RC6 decryption of a 16-byte block under round keys `s`.
#[verifier::opaque]
pub open spec fn decrypt_spec(ct: Seq<u8>, s: Seq<u32>) -> Seq<u8> {
    let r: int = rounds_of(s.len()) as int;
    let w = block_words(ct);
    let st0 = (w.0.wrapping_sub(s[2 * r + 2]), w.1, w.2.wrapping_sub(s[2 * r + 3]), w.3);
    let st = decrypt_rounds(st0, s, r as nat);
    block_bytes((st.0, st.1.wrapping_sub(s[0]), st.2, st.3.wrapping_sub(s[1])))
}

proof fn lemma_wrapping_sub_add(x: u32, k: u32)
    ensures
        x.wrapping_add(k).wrapping_sub(k) == x,
{
}

proof fn lemma_xor_twice(x: u32, u: u32)
    ensures
        (x ^ u) ^ u == x,
{
    assert((x ^ u) ^ u == x) by (bit_vector);
}

/// Decryption round `i` undoes encryption round `i`.
pub proof fn lemma_decrypt_round_encrypt_round(st: (u32, u32, u32, u32), s: Seq<u32>, i: int)
    ensures
        decrypt_round(encrypt_round(st, s, i), s, i) == st,
{
    let (a, b, c, d) = st;
    let t = mix(b);
    let u = mix(d);
    lemma_low_five_bits(t);
    lemma_low_five_bits(u);
    let x = rotl(a ^ t, u & 31);
    let y = rotl(c ^ u, t & 31);
    lemma_wrapping_sub_add(x, s[2 * i]);
    lemma_wrapping_sub_add(y, s[2 * i + 1]);
    lemma_rotr_rotl(a ^ t, u & 31);
    lemma_rotr_rotl(c ^ u, t & 31);
    lemma_xor_twice(a, t);
    lemma_xor_twice(c, u);
}

/// Decryption rounds `n..=1` undo encryption rounds `1..=n`.
pub proof fn lemma_decrypt_rounds_encrypt_rounds(st: (u32, u32, u32, u32), s: Seq<u32>, n: nat)
    ensures
        decrypt_rounds(encrypt_rounds(st, s, n), s, n) == st,
    decreases n,
{
    if n > 0 {
        let prev = encrypt_rounds(st, s, (n - 1) as nat);
        lemma_decrypt_round_encrypt_round(prev, s, n as int);
        lemma_decrypt_rounds_encrypt_rounds(st, s, (n - 1) as nat);
    }
}

proof fn lemma_wrapping_add_sub(x: u32, k: u32)
    ensures
        x.wrapping_sub(k).wrapping_add(k) == x,
{
}

/// Encryption round `i` undoes decryption round `i`.
pub proof fn lemma_encrypt_round_decrypt_round(st: (u32, u32, u32, u32), s: Seq<u32>, i: int)
    ensures
        encrypt_round(decrypt_round(st, s, i), s, i) == st,
{
    let (a, b, c, d) = (st.3, st.0, st.1, st.2);
    let u = mix(d);
    let t = mix(b);
    lemma_low_five_bits(t);
    lemma_low_five_bits(u);
    let x = a.wrapping_sub(s[2 * i]);
    let y = c.wrapping_sub(s[2 * i + 1]);
    lemma_xor_twice(rotr(x, u & 31), t);
    lemma_xor_twice(rotr(y, t & 31), u);
    lemma_rotl_rotr(x, u & 31);
    lemma_rotl_rotr(y, t & 31);
    lemma_wrapping_add_sub(a, s[2 * i]);
    lemma_wrapping_add_sub(c, s[2 * i + 1]);
}

/// Encryption rounds `1..=n` undo decryption rounds `n..=1`.
pub proof fn lemma_encrypt_rounds_decrypt_rounds(st: (u32, u32, u32, u32), s: Seq<u32>, n: nat)
    ensures
        encrypt_rounds(decrypt_rounds(st, s, n), s, n) == st,
    decreases n,
{
    if n > 0 {
        let dr = decrypt_round(st, s, n as int);
        lemma_encrypt_rounds_decrypt_rounds(dr, s, (n - 1) as nat);
        lemma_encrypt_round_decrypt_round(st, s, n as int);
    }
}

/// An encrypted block is 16 bytes.
pub proof fn lemma_encrypt_len(pt: Seq<u8>, s: Seq<u32>)
    ensures
        encrypt_spec(pt, s).len() == 16,
{
    reveal(encrypt_spec);
    let r: int = rounds_of(s.len()) as int;
    let w = block_words(pt);
    let st0 = (w.0, w.1.wrapping_add(s[0]), w.2, w.3.wrapping_add(s[1]));
    let st = encrypt_rounds(st0, s, r as nat);
    lemma_block_words_bytes(
        (st.0.wrapping_add(s[2 * r + 2]), st.1, st.2.wrapping_add(s[2 * r + 3]), st.3),
    );
}

/// A decrypted block is 16 bytes.
pub proof fn lemma_decrypt_len(ct: Seq<u8>, s: Seq<u32>)
    ensures
        decrypt_spec(ct, s).len() == 16,
{
    reveal(decrypt_spec);
    let r: int = rounds_of(s.len()) as int;
    let w = block_words(ct);
    let st0 = (w.0.wrapping_sub(s[2 * r + 2]), w.1, w.2.wrapping_sub(s[2 * r + 3]), w.3);
    let st = decrypt_rounds(st0, s, r as nat);
    lemma_block_words_bytes((st.0, st.1.wrapping_sub(s[0]), st.2, st.3.wrapping_sub(s[1])));
}

/// Decrypting an encrypted block with the same round keys gives the block back.
pub proof fn lemma_decrypt_encrypt(pt: Seq<u8>, s: Seq<u32>)
    requires
        pt.len() == 16,
        s.len() >= 4,
    ensures
        decrypt_spec(encrypt_spec(pt, s), s) == pt,
{
    reveal(encrypt_spec);
    reveal(decrypt_spec);
    let r: int = rounds_of(s.len()) as int;
    let w = block_words(pt);
    let st0 = (w.0, w.1.wrapping_add(s[0]), w.2, w.3.wrapping_add(s[1]));
    let st = encrypt_rounds(st0, s, r as nat);
    let out = (st.0.wrapping_add(s[2 * r + 2]), st.1, st.2.wrapping_add(s[2 * r + 3]), st.3);
    lemma_block_words_bytes(out);
    lemma_wrapping_sub_add(st.0, s[2 * r + 2]);
    lemma_wrapping_sub_add(st.2, s[2 * r + 3]);
    assert((out.0.wrapping_sub(s[2 * r + 2]), out.1, out.2.wrapping_sub(s[2 * r + 3]), out.3)
        == st);
    lemma_decrypt_rounds_encrypt_rounds(st0, s, r as nat);
    lemma_wrapping_sub_add(w.1, s[0]);
    lemma_wrapping_sub_add(w.3, s[1]);
    lemma_block_bytes_words(pt);
}

/// Encrypting a decrypted block with the same round keys gives the block
/// back, whatever the round keys (of at least four words).
pub proof fn lemma_encrypt_decrypt(ct: Seq<u8>, s: Seq<u32>)
    requires
        ct.len() == 16,
        s.len() >= 4,
    ensures
        encrypt_spec(decrypt_spec(ct, s), s) == ct,
{
    reveal(encrypt_spec);
    reveal(decrypt_spec);
    let r: int = rounds_of(s.len()) as int;
    let w = block_words(ct);
    let st0 = (w.0.wrapping_sub(s[2 * r + 2]), w.1, w.2.wrapping_sub(s[2 * r + 3]), w.3);
    let st = decrypt_rounds(st0, s, r as nat);
    let out = (st.0, st.1.wrapping_sub(s[0]), st.2, st.3.wrapping_sub(s[1]));
    lemma_block_words_bytes(out);
    lemma_wrapping_add_sub(st.1, s[0]);
    lemma_wrapping_add_sub(st.3, s[1]);
    assert((out.0, out.1.wrapping_add(s[0]), out.2, out.3.wrapping_add(s[1])) == st);
    lemma_encrypt_rounds_decrypt_rounds(st0, s, r as nat);
    lemma_wrapping_add_sub(w.0, s[2 * r + 2]);
    lemma_wrapping_add_sub(w.2, s[2 * r + 3]);
    lemma_block_bytes_words(ct);
}

fn mix_exec(x: u32) -> (r: u32)
    ensures
        r == mix(x),
{
    rotate_left(x.wrapping_mul(x.wrapping_mul(2).wrapping_add(1)), 5)
}

fn block_to_bytes(a: u32, b: u32, c: u32, d: u32) -> (out: [u8; 16])
    ensures
        out@ == block_bytes((a, b, c, d)),
{
    let out = [
        a as u8,
        (a >> 8u32) as u8,
        (a >> 16u32) as u8,
        (a >> 24u32) as u8,
        b as u8,
        (b >> 8u32) as u8,
        (b >> 16u32) as u8,
        (b >> 24u32) as u8,
        c as u8,
        (c >> 8u32) as u8,
        (c >> 16u32) as u8,
        (c >> 24u32) as u8,
        d as u8,
        (d >> 8u32) as u8,
        (d >> 16u32) as u8,
        (d >> 24u32) as u8,
    ];
    assert(out@ =~= block_bytes((a, b, c, d)));
    out
}

/// Encrypts one 16-byte block with the given round keys.
pub fn encrypt_block(pt: &[u8; 16], s: &[u32]) -> (ct: [u8; 16])
    requires
        s@.len() >= 4,
    ensures
        ct@ == encrypt_spec(pt@, s@),
{
    reveal(encrypt_spec);
    let slen = s.len();
    let rounds = (slen - 4) / 2;
    let a0 = le_word_at(pt, 0);
    let b0 = le_word_at(pt, 4);
    let c0 = le_word_at(pt, 8);
    let d0 = le_word_at(pt, 12);
    let ghost st0 = (a0, b0.wrapping_add(s@[0]), c0, d0.wrapping_add(s@[1]));
    let mut a = a0;
    let mut b = b0.wrapping_add(s[0]);
    let mut c = c0;
    let mut d = d0.wrapping_add(s[1]);
    let mut i: usize = 1;
    while i <= rounds
        invariant
            rounds == rounds_of(s@.len()),
            slen == s@.len(),
            s@.len() >= 4,
            1 <= i <= rounds + 1,
            (a, b, c, d) == encrypt_rounds(st0, s@, (i - 1) as nat),
        decreases rounds + 1 - i,
    {
        let t = mix_exec(b);
        let u = mix_exec(d);
        proof {
            lemma_low_five_bits(t);
            lemma_low_five_bits(u);
            assert(2 * i + 1 < s@.len());
        }
        let na = rotate_left(a ^ t, u & 31).wrapping_add(s[2 * i]);
        let nc = rotate_left(c ^ u, t & 31).wrapping_add(s[2 * i + 1]);
        a = b;
        b = nc;
        c = d;
        d = na;
        i = i + 1;
    }
    a = a.wrapping_add(s[2 * rounds + 2]);
    c = c.wrapping_add(s[2 * rounds + 3]);
    block_to_bytes(a, b, c, d)
}

/// Decrypts one 16-byte block with the given round keys.
pub fn decrypt_block(ct: &[u8; 16], s: &[u32]) -> (pt: [u8; 16])
    requires
        s@.len() >= 4,
    ensures
        pt@ == decrypt_spec(ct@, s@),
{
    reveal(decrypt_spec);
    let slen = s.len();
    let rounds = (slen - 4) / 2;
    let a0 = le_word_at(ct, 0);
    let b0 = le_word_at(ct, 4);
    let c0 = le_word_at(ct, 8);
    let d0 = le_word_at(ct, 12);
    let mut a = a0.wrapping_sub(s[2 * rounds + 2]);
    let mut b = b0;
    let mut c = c0.wrapping_sub(s[2 * rounds + 3]);
    let mut d = d0;
    let ghost st0 = (a, b, c, d);
    let mut i: usize = rounds;
    while i >= 1
        invariant
            rounds == rounds_of(s@.len()),
            slen == s@.len(),
            s@.len() >= 4,
            i <= rounds,
            decrypt_rounds(st0, s@, rounds as nat) == decrypt_rounds((a, b, c, d), s@, i as nat),
        decreases i,
    {
        let (na, nb, nc, nd) = (d, a, b, c);
        a = na;
        b = nb;
        c = nc;
        d = nd;
        let u = mix_exec(d);
        let t = mix_exec(b);
        proof {
            lemma_low_five_bits(t);
            lemma_low_five_bits(u);
            assert(2 * i + 1 < s@.len());
        }
        c = rotate_right(c.wrapping_sub(s[2 * i + 1]), t & 31) ^ u;
        a = rotate_right(a.wrapping_sub(s[2 * i]), u & 31) ^ t;
        i = i - 1;
    }
    d = d.wrapping_sub(s[1]);
    b = b.wrapping_sub(s[0]);
    block_to_bytes(a, b, c, d)
}

// ---------------------------------------------------------------------------
// The key schedule, stated by value
// ---------------------------------------------------------------------------

proof fn lemma_mod_step(n: int, m: int)
    requires
        n >= 0,
        m > 0,
    ensures
        ((n % m) + 1) % m == (n + 1) % m,
{
    vstd::arithmetic::div_mod::lemma_fundamental_div_mod(n, m);
    let q = n / m;
    assert(n + 1 == m * q + ((n % m) + 1));
    vstd::arithmetic::div_mod::lemma_mod_multiples_vanish(q, (n % m) + 1, m);
}

/// After `n` steps of the mixing loop the round-key index is `n mod 44` and
/// the key-word index is `n mod c`, `c` the number of key words: the two
/// indices step on their own, each wrapping at its own length.
pub proof fn lemma_schedule_indices(key: Seq<u8>, n: nat)
    requires
        key.len() >= 4,
    ensures
        schedule_run(schedule_init(key), n).i == (n as int) % 44,
        schedule_run(schedule_init(key), n).j == (n as int) % ((key.len() / 4) as int),
    decreases n,
{
    let c = (key.len() / 4) as int;
    let st = schedule_init(key);
    assert(st.l.len() == c);
    if n > 0 {
        lemma_schedule_indices(key, (n - 1) as nat);
        lemma_schedule_run_shape(st, (n - 1) as nat);
        lemma_mod_step(n - 1, 44);
        lemma_mod_step(n - 1, c);
    }
}

/// Key word `k` is key bytes `4k` to `4k + 3` read little-endian.
pub proof fn lemma_key_word_value(key: Seq<u8>, k: int)
    requires
        0 <= k < key.len() / 4,
    ensures
        key_words(key)[k] as int == key[4 * k] + key[4 * k + 1] * 0x100 + key[4 * k + 2]
            * 0x1_0000 + key[4 * k + 3] * 0x100_0000,
{
    let (b0, b1, b2, b3) = (key[4 * k], key[4 * k + 1], key[4 * k + 2], key[4 * k + 3]);
    let w = le_word(key, 4 * k);
    assert(w == b0 + b1 * 0x100 + b2 * 0x1_0000 + b3 * 0x100_0000) by (bit_vector)
        requires
            w == (b0 as u32) | ((b1 as u32) << 8u32) | ((b2 as u32) << 16u32) | ((b3 as u32)
                << 24u32),
    ;
}

/// Initial round key `i` is `0xB7E15163 + i * 0x9E3779B9`, modulo 2^32.
pub proof fn lemma_initial_round_key_value(key: Seq<u8>, i: int)
    requires
        0 <= i < 44,
    ensures
        schedule_init(key).s[i] as int == (0xB7E1_5163 + i * 0x9E37_79B9) % 0x1_0000_0000,
{
    let r: int = 0x1_0000_0000;
    let m = (i * 0x9E37_79B9) % r;
    vstd::arithmetic::div_mod::lemma_mod_bound(i * 0x9E37_79B9, r);
    vstd::arithmetic::div_mod::lemma_add_mod_noop(0xB7E1_5163, i * 0x9E37_79B9, r);
    vstd::arithmetic::div_mod::lemma_small_mod(0xB7E1_5163, r as nat);
    assert((i as u32) as int == i);
    assert((i as u32).wrapping_mul(Q32) as int == m);
    if 0xB7E1_5163 + m >= r {
        vstd::arithmetic::div_mod::lemma_mod_add_multiples_vanish(0xB7E1_5163 + m - r, r);
        vstd::arithmetic::div_mod::lemma_small_mod((0xB7E1_5163 + m - r) as nat, r as nat);
    } else {
        vstd::arithmetic::div_mod::lemma_small_mod((0xB7E1_5163 + m) as nat, r as nat);
    }
}

} // verus!
