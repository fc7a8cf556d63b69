use sqp_core::bytepool::{slice, BytePool};

fn sample_pool() -> BytePool {
    let bytes: Vec<u8> = (0..4096u32).map(|i| ((i * 7 + 3) % 256) as u8).collect();
    BytePool::from_bytes(bytes).unwrap()
}

#[test]
fn pool_is_4096_bytes() {
    let pool = sample_pool();
    assert_eq!(pool.len(), 4096);
}

#[test]
fn slice_wraps_around_end() {
    let pool = sample_pool();
    let s = slice(&pool, 4095, 3);
    assert_eq!(s, vec![pool.get(4095), pool.get(0), pool.get(1)]);
}

#[test]
fn pool_rejects_other_lengths() {
    assert!(BytePool::from_bytes(vec![0u8; 4095]).is_none());
    assert!(BytePool::from_bytes(vec![0u8; 4097]).is_none());
    assert!(BytePool::from_bytes(Vec::new()).is_none());
}

#[test]
fn slice_reads_in_order() {
    let pool = sample_pool();
    let s = slice(&pool, 10, 4);
    assert_eq!(s, vec![pool.get(10), pool.get(11), pool.get(12), pool.get(13)]);
    assert_eq!(s, vec![73, 80, 87, 94]);
    assert_eq!(slice(&pool, 0, 0), Vec::<u8>::new());
    let w = slice(&pool, 8190, 4);
    assert_eq!(w, vec![pool.get(4094), pool.get(4095), pool.get(0), pool.get(1)]);
}
