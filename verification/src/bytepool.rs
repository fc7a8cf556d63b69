//! The 4096-byte pool from which the RC6 keys of the product codes are cut.
//!
//! The pool is data that the program brings along (the `bytepool.bin` asset);
//! the library holds it as a `BytePool` whose length is always 4096.

use vstd::prelude::*;

verus! {

/// The number of bytes in the pool.
pub const POOL_LEN: usize = 4096;

/// A byte pool of exactly `POOL_LEN` bytes.
pub struct BytePool {
    bytes: Vec<u8>,
}

impl View for BytePool {
    type V = Seq<u8>;

    closed spec fn view(&self) -> Seq<u8> {
        self.bytes@
    }
}

/// The `len` bytes starting at `base`, wrapping around the end of a pool.
pub open spec fn pool_slice(pool: Seq<u8>, base: int, len: nat) -> Seq<u8> {
    Seq::new(len, |i: int| pool[(base + i) % (POOL_LEN as int)])
}

impl BytePool {
    #[verifier::type_invariant]
    spec fn inv(self) -> bool {
        self.bytes@.len() == POOL_LEN
    }

    /// Takes the bytes as a pool if there are exactly `POOL_LEN` of them.
    pub fn from_bytes(bytes: Vec<u8>) -> (r: Option<BytePool>)
        ensures
            r is Some <==> bytes@.len() == POOL_LEN,
            r matches Some(p) ==> p@ == bytes@,
    {
        if bytes.len() == POOL_LEN {
            Some(BytePool { bytes })
        } else {
            None
        }
    }

    /// The number of bytes in the pool, which is always `POOL_LEN`.
    pub fn len(&self) -> (n: usize)
        ensures
            n == POOL_LEN,
            n == self@.len(),
    {
        proof {
            use_type_invariant(self);
        }
        self.bytes.len()
    }

    /// The byte at position `i`.
    pub fn get(&self, i: usize) -> (b: u8)
        requires
            i < POOL_LEN,
        ensures
            b == self@[i as int],
    {
        proof {
            use_type_invariant(self);
        }
        self.bytes[i]
    }
}

/// Reads `len` bytes starting at `base`, wrapping around the end of the pool.
pub fn slice(pool: &BytePool, base: usize, len: usize) -> (r: Vec<u8>)
    requires
        base + len <= usize::MAX + 1,
    ensures
        r@ == pool_slice(pool@, base as int, len as nat),
        pool@.len() == POOL_LEN,
{
    let size = pool.len();
    let mut out: Vec<u8> = Vec::new();
    let mut i: usize = 0;
    while i < len
        invariant
            size == POOL_LEN,
            pool@.len() == POOL_LEN,
            base + len <= usize::MAX + 1,
            i <= len,
            out@ == pool_slice(pool@, base as int, len as nat).take(i as int),
        decreases len - i,
    {
        out.push(pool.get((base + i) % size));
        i = i + 1;
        assert(out@ =~= pool_slice(pool@, base as int, len as nat).take(i as int));
    }
    assert(out@ =~= pool_slice(pool@, base as int, len as nat));
    out
}

} // verus!
