use metal_merkle::gpu::metal::allocation::{
    align_to_256, allocate, try_wrap_no_copy, wrap_or_copy, Allocation, Wrapping,
};
use metal_merkle::gpu::metal::buffer_pool::{
    clear_buffer_pool, get_buffer_pool_stats, reset_buffer_pool_stats, Buffer, BufferPool,
    PersistentMerkleBuffers, PersistentRequest, DEFAULT_MAX_DEGREE_LOG2, MAX_POOL_BYTES,
};

fn buffer(address: usize, length: usize) -> Buffer {
    Buffer { address, length }
}

#[test]
fn size_classes() {
    assert_eq!(BufferPool::size_class(0), 4096);
    assert_eq!(BufferPool::size_class(1), 4096);
    assert_eq!(BufferPool::size_class(4096), 4096);
    assert_eq!(BufferPool::size_class(4097), 8192);
    assert_eq!(BufferPool::size_class(1 << 20), 1 << 20);
    assert_eq!(BufferPool::size_class((1 << 20) + 1), 1 << 21);
}

#[test]
fn last_returned_buffer_is_reused_first() {
    let mut pool = BufferPool::new();
    assert!(pool.get(5000).is_none());
    pool.put(buffer(1, 8192));
    pool.put(buffer(2, 8192));
    pool.put(buffer(3, 4096));
    assert_eq!(pool.stats(), (0, 1, 8192 + 8192 + 4096));
    assert_eq!(pool.get(5000), Some(buffer(2, 8192)));
    assert_eq!(pool.get(8192), Some(buffer(1, 8192)));
    assert_eq!(pool.get(8192), None);
    assert_eq!(pool.get(10), Some(buffer(3, 4096)));
    assert_eq!(pool.stats(), (3, 2, 0));
}

#[test]
fn buffer_goes_to_the_class_of_its_length() {
    let mut pool = BufferPool::new();
    pool.put(buffer(1, 5000));
    assert_eq!(pool.stats().2, 8192);
    assert_eq!(pool.get(4097), Some(buffer(1, 5000)));
    assert_eq!(pool.stats().2, 0);
}

#[test]
fn pool_keeps_within_its_limit() {
    let mut pool = BufferPool::new();
    pool.put(buffer(1, MAX_POOL_BYTES / 2));
    pool.put(buffer(2, MAX_POOL_BYTES / 2));
    assert_eq!(pool.stats().2, MAX_POOL_BYTES);
    pool.put(buffer(3, 1));
    assert_eq!(pool.stats().2, MAX_POOL_BYTES);
    assert_eq!(pool.get(1), None);
    assert_eq!(pool.get(MAX_POOL_BYTES / 2), Some(buffer(2, MAX_POOL_BYTES / 2)));
    pool.put(buffer(3, 1));
    assert_eq!(pool.stats().2, MAX_POOL_BYTES / 2 + 4096);
    pool.put(buffer(4, 2 * MAX_POOL_BYTES));
    assert_eq!(pool.get(2 * MAX_POOL_BYTES), None);
}

#[test]
fn statistics_and_clearing() {
    let mut pool = BufferPool::new();
    pool.put(buffer(1, 4096));
    assert!(pool.get(1).is_some());
    assert!(pool.get(1).is_none());
    pool.put(buffer(1, 4096));
    assert_eq!(get_buffer_pool_stats(&pool), (1, 1, 4096));
    reset_buffer_pool_stats(&mut pool);
    assert_eq!(get_buffer_pool_stats(&pool), (0, 0, 4096));
    clear_buffer_pool(&mut pool);
    assert_eq!(get_buffer_pool_stats(&pool), (0, 0, 0));
    assert!(pool.get(1).is_none());
}

#[test]
fn sizes_are_rounded_up() {
    assert_eq!(align_to_256(0), 0);
    assert_eq!(align_to_256(1), 256);
    assert_eq!(align_to_256(256), 256);
    assert_eq!(align_to_256(257), 512);
}

#[test]
fn requests_are_met_from_the_pool_or_the_device() {
    let mut pool = BufferPool::new();
    let created = allocate(&mut pool, 8000);
    assert_eq!(created, Allocation::Create { size: 8192 });
    assert!(!created.from_pool());
    assert_eq!(created.tracked_bytes(), 8192);
    pool.put(buffer(7, 8192));
    let pooled = allocate(&mut pool, 8000);
    assert_eq!(pooled, Allocation::Pooled(buffer(7, 8192)));
    assert!(pooled.from_pool());
    assert_eq!(pooled.tracked_bytes(), 8192);
    // Rounding up to a multiple of 256 comes before the class.
    assert_eq!(allocate(&mut pool, 4000), Allocation::Create { size: 4096 });
    assert_eq!(allocate(&mut pool, 8193), Allocation::Create { size: 16384 });
}

#[test]
fn memory_on_a_page_boundary_is_used_in_place() {
    assert_eq!(
        wrap_or_copy(16384 * 3, 20000),
        Wrapping::InPlace { mapped: 32768, in_use: 20000 }
    );
    assert_eq!(wrap_or_copy(16384 * 3 + 8, 20000), Wrapping::Copy { size: 20000 });
    assert_eq!(try_wrap_no_copy(8, 100), None);
    assert_eq!(
        try_wrap_no_copy(0, 16384),
        Some(Wrapping::InPlace { mapped: 16384, in_use: 16384 })
    );
}

#[test]
fn kept_buffers_are_known_beforehand() {
    let mut pool = BufferPool::new();
    assert!(pool.keeps(MAX_POOL_BYTES));
    assert!(!pool.keeps(MAX_POOL_BYTES + 1));
    let half = MAX_POOL_BYTES / 2;
    assert_eq!(pool.keeps_in_turn(half, half), (true, true));
    assert_eq!(pool.keeps_in_turn(half + 1, 1), (true, false));
    assert_eq!(pool.keeps_in_turn(MAX_POOL_BYTES + 1, 1), (false, true));
    pool.put(buffer(1, half));
    for length in [1, half, half + 1, MAX_POOL_BYTES] {
        let before = pool.stats().2;
        let kept = pool.keeps(length);
        pool.put(buffer(2, length));
        assert_eq!(pool.stats().2 > before, kept);
        if kept {
            assert_eq!(pool.get(length), Some(buffer(2, length)));
        }
    }
}

#[test]
fn statistics_count_the_requests() {
    let mut pool = BufferPool::new();
    let mut pooled = Vec::new();
    for round in 0..5usize {
        let (mut requests, mut found) = (0, 0);
        for k in 0..40usize {
            let size = 1 << (10 + (7 * k + round) % 8);
            if k % 3 == 0 {
                pool.put(buffer(k, size));
                pooled.push(BufferPool::size_class(size));
            } else {
                requests += 1;
                if pool.get(size).is_some() {
                    found += 1;
                    let class = BufferPool::size_class(size);
                    let at = pooled.iter().position(|&c| c == class).unwrap();
                    pooled.remove(at);
                }
            }
            let (hits, misses, bytes) = pool.stats();
            assert_eq!((hits, hits + misses), (found, requests));
            assert_eq!(bytes, pooled.iter().sum::<usize>());
            assert!(bytes <= MAX_POOL_BYTES);
        }
        if round == 2 {
            pool.clear();
            pooled.clear();
        }
        pool.reset_stats();
    }
}

#[test]
fn persistent_buffers() {
    assert_eq!(
        PersistentMerkleBuffers::request(10),
        PersistentRequest {
            digests_size: 64 * 1024,
            clear_digests: 64 * 1024,
            caps_size: 32 * 1024,
            clear_caps: 32 * 1024,
        }
    );
    let b = PersistentMerkleBuffers::new(10, buffer(11, 65536), buffer(22, 32768));
    assert!(b.fits(0));
    assert!(b.fits(1024));
    assert!(!b.fits(1025));
    assert_eq!(b.max_leaves(), 1024);
    assert_eq!(b.max_degree_log2(), 10);
    assert_eq!(b.buffer_addresses(), (11, 22));
    assert_eq!(b.digests_buffer(), &buffer(11, 65536));
    assert_eq!(b.caps_buffer(), &buffer(22, 32768));
    let request = PersistentMerkleBuffers::request(DEFAULT_MAX_DEGREE_LOG2);
    let b = PersistentMerkleBuffers::with_default_size(
        buffer(1, request.digests_size),
        buffer(2, request.caps_size),
    );
    assert_eq!(b.max_leaves(), 1 << 25);
}
