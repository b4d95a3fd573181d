use nightfall::arena::{Arena, PtrArena};
use nightfall::error::AllocError;
use nightfall::pool::{Pool, PoolAllocator};
use nightfall::standard::{MonotoneUpstream, StandardArena, UpstreamAlloc};

#[test]
fn ptr_arena_test() {
    let mut arena = PtrArena::from_region(0, 1024 * 80);
    let arena_alloc1 = arena.arena_alloc(1, 1).unwrap();
    assert!(arena.allocated() == 1, "Test if the arena correctly allocated a u8");
    let arena_alloc2 = arena.arena_alloc(8, 8).unwrap();
    assert!(
        arena.allocated() == 16,
        "Test to see whether it was correctly aligned and allocated"
    );
    assert!(
        arena_alloc2 - arena_alloc1 == 8,
        "testing to see if the location was correctly allocated"
    );
}

#[test]
fn mod_arena_test() {
    let mut arena = PtrArena::from_region(4096, 1024 * 80);
    let arena_alloc1 = arena.arena_alloc(1, 1).unwrap();
    assert!(arena.allocated() == 1, "Test if the arena correctly allocated a u8");
    let arena_alloc2 = arena.arena_alloc(8, 8).unwrap();
    assert!(
        arena.allocated() == 16,
        "Test to see whether it was correctly aligned and allocated"
    );
    assert!(
        arena_alloc2 - arena_alloc1 == 8,
        "testing to see if the location was correctly allocated"
    );
}

#[test]
fn arena_alignment_and_bounds() {
    let mut arena = PtrArena::from_region(0, 1024);
    let p0 = arena.arena_alloc(1, 1).unwrap();
    assert_eq!(p0, 0);
    let p1 = arena.arena_alloc(8, 8).unwrap();
    assert_eq!(p1, 8);
    for _ in 0..126 {
        arena.arena_alloc(8, 8).unwrap();
    }
    assert_eq!(arena.allocated(), 1024);
    assert_eq!(arena.arena_alloc(8, 8), Err(AllocError::OutOfMemory));
    arena.clear();
    assert_eq!(arena.allocated(), 0);
    assert!(arena.is_clear());
    assert!(arena.arena_alloc(1024, 1).is_ok());
}

#[test]
fn arena_from_arena() {
    let mut backing = PtrArena::from_region(0, 4096);
    let mut carved = PtrArena::from_arena(&mut backing, 1024, 8).unwrap();
    assert_eq!(carved.size(), 1024);
    assert!(carved.is_clear());
    assert_eq!(carved.as_ptr(), 0);
    assert!(carved.arena_alloc(1024, 1).is_ok());
    assert_eq!(carved.arena_alloc(1, 1), Err(AllocError::OutOfMemory));
}

#[test]
fn chunked_growth() {
    let mut arena = StandardArena::new(4096);
    assert_eq!(arena.size(), 4096, "the head chunk exists from construction");
    assert_eq!(arena.allocated(), 0);
    assert!(arena.is_clear());
    let p0 = arena.arena_alloc(4096, 1).unwrap();
    assert_eq!(arena.size(), 4096);
    let p1 = arena.arena_alloc(1, 1).unwrap();
    assert!(arena.size() >= 4096 + 8192);
    assert_eq!(arena.allocated(), 4097);
    // The second allocation lies in a fresh chunk past the first one.
    assert!(p1 >= p0 + 4096);
    arena.clear();
    assert!(arena.is_clear());
    assert_eq!(arena.allocated(), 0);
    assert_eq!(arena.size(), 4096 + 8192, "chunks survive a clear");
    assert!(arena.arena_alloc(4096, 1).is_ok(), "a cleared chunk is reused");
}

#[test]
fn chunked_partitioning() {
    // Two arenas over disjoint upstream ranges never hand out
    // overlapping addresses, and clearing one leaves the other alone.
    let mut a = StandardArena::new_in(MonotoneUpstream::new(0, 1 << 20), 4096);
    let mut b = StandardArena::new_in(MonotoneUpstream::new(1 << 20, 1 << 21), 4096);
    let pa = a.arena_alloc(64, 8).unwrap();
    let pb = b.arena_alloc(64, 8).unwrap();
    assert!(pa + 64 <= 1 << 20);
    assert!(pb >= 1 << 20);
    a.clear();
    assert!(a.is_clear());
    assert!(!b.is_clear());
    assert_eq!(b.allocated(), 64);
}

#[test]
fn upstream_watermark() {
    let mut up = MonotoneUpstream::new(100, 200);
    let p = up.take_block(50, 4).unwrap();
    assert_eq!(p, 100);
    let q = up.take_block(32, 16).unwrap();
    assert_eq!(q, 160);
    assert_eq!(up.take_block(100, 1), Err(AllocError::OutOfMemory));
    up.dealloc_block(p, 50);
}

#[test]
fn pool_acquire_release() {
    let mut pool = Pool::from_region(0, 32, 8);
    let s0 = pool.acquire().unwrap();
    let s1 = pool.acquire().unwrap();
    let s2 = pool.acquire().unwrap();
    let s3 = pool.acquire().unwrap();
    assert_eq!((s0, s1, s2, s3), (0, 8, 16, 24));
    assert_eq!(pool.acquire(), Err(AllocError::OutOfMemory));
    pool.release(s1).unwrap();
    assert_eq!(pool.acquire().unwrap(), s1, "a released slot is handed out again");
    pool.release(s0).unwrap();
    pool.release(s1).unwrap();
    pool.release(s2).unwrap();
    pool.release(s3).unwrap();
    for _ in 0..4 {
        pool.acquire().unwrap();
    }
    assert_eq!(pool.acquire(), Err(AllocError::OutOfMemory));
}

#[test]
fn pool_no_double_hand_out() {
    let mut pool = Pool::from_region(4096, 64, 8);
    let mut seen = Vec::new();
    loop {
        match pool.acquire() {
            Ok(p) => {
                assert!(!seen.contains(&p), "no slot twice without a release");
                seen.push(p);
            }
            Err(e) => {
                assert_eq!(e, AllocError::OutOfMemory);
                break;
            }
        }
    }
    assert_eq!(seen.len(), 8);
}

#[test]
fn pool_checked_release() {
    let mut pool = Pool::from_region(0, 32, 8);
    let s0 = pool.acquire().unwrap();
    // Misaligned, never handed out, or already free: all refused.
    assert_eq!(pool.try_release(3), Err(AllocError::OutOfMemory));
    assert_eq!(pool.try_release(16), Err(AllocError::OutOfMemory));
    assert_eq!(pool.try_release(s0), Ok(()));
    assert_eq!(pool.try_release(s0), Err(AllocError::OutOfMemory));
}

#[test]
fn pool_from_arena_region() {
    let mut arena = PtrArena::from_region(0, 4096);
    let mut pool = Pool::from_arena(&mut arena, 64, 8, 8).unwrap();
    assert_eq!(pool.as_ptr(), 0);
    for _ in 0..8 {
        pool.acquire().unwrap();
    }
    assert_eq!(pool.acquire(), Err(AllocError::OutOfMemory));
}

#[test]
fn pool_through_trait_api() {
    // The generic allocator API carries the same behaviour as the
    // inherent one: frontier order, recycling, exhaustion, checked return.
    let mut pool = Pool::from_region(0, 32, 8);
    let p1 = PoolAllocator::allocate(&mut pool).unwrap();
    let p2 = PoolAllocator::allocate(&mut pool).unwrap();
    assert_eq!((p1, p2), (0, 8));
    assert_eq!(PoolAllocator::deallocate(&mut pool, p1), Ok(()));
    assert_eq!(PoolAllocator::allocate(&mut pool).unwrap(), p1);
    assert_eq!(PoolAllocator::deallocate(&mut pool, 24), Err(AllocError::OutOfMemory));
    for _ in 0..2 {
        PoolAllocator::allocate(&mut pool).unwrap();
    }
    assert_eq!(PoolAllocator::allocate(&mut pool), Err(AllocError::OutOfMemory));
}

#[test]
fn error_messages() {
    assert_eq!(AllocError::OutOfMemory.message(), "Out of Memory");
    assert_eq!(
        nightfall::error::CollectionError::CapacityFull.message(),
        "Not enough capacity to insert elements"
    );
}
