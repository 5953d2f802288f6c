use rustique_mem::allocator::Allocator;
use rustique_mem::handle::allocate_memory;
use rustique_mem::handle::cleanup_memory_system;
use rustique_mem::handle::deallocate_memory;
use rustique_mem::handle::BlockHandle;
use rustique_mem::ValueError;

#[test]
fn test_allocator_reuse() {
    let mut a = Allocator::new();
    let mut b = a.allocate(100);
    assert_eq!(b.size(), 100);
    b.store_word(0, 0xDEAD_BEEF);
    a.deallocate(b);
    let b2 = a.allocate(100);
    assert_eq!(b2.size(), 100);
    // the cached block came back, stale contents and all
    assert_eq!(b2.load_word(0), 0xDEAD_BEEF);
}

#[test]
fn test_fresh_blocks_zero_filled() {
    let mut a = Allocator::new();
    let b = a.allocate(64);
    assert_eq!(b.size(), 64);
    for i in 0..8 {
        assert_eq!(b.load_word(i), 0);
    }
    let big = a.allocate(1024);
    assert_eq!(big.size(), 1024);
    for i in 0..128 {
        assert_eq!(big.load_word(i), 0);
    }
}

#[test]
fn test_reuse_is_lifo() {
    let mut a = Allocator::new();
    let mut b1 = a.allocate(80);
    let mut b2 = a.allocate(80);
    b1.store_word(0, 1);
    b2.store_word(0, 2);
    a.deallocate(b1);
    a.deallocate(b2);
    // most recently freed first
    assert_eq!(a.allocate(80).load_word(0), 2);
    assert_eq!(a.allocate(80).load_word(0), 1);
}

#[test]
fn test_exact_size_classes() {
    let mut a = Allocator::new();
    let mut b = a.allocate(100);
    b.store_word(0, 7);
    a.deallocate(b);
    // a different size misses the cache even when a near size is free
    let other = a.allocate(101);
    assert_eq!(other.size(), 101);
    assert_eq!(other.load_word(0), 0);
    // the exact size hits
    assert_eq!(a.allocate(100).load_word(0), 7);
}

#[test]
fn test_threshold_routing_small() {
    let mut a = Allocator::new();
    let mut b = a.allocate(64);
    b.store_word(0, 11);
    a.deallocate(b);
    // the small block went to the worker-local tier, not the shared one
    let from_global = a.global.allocate(64);
    assert_eq!(from_global.load_word(0), 0);
    let from_local = a.local.allocate(64);
    assert_eq!(from_local.load_word(0), 11);
}

#[test]
fn test_threshold_routing_large() {
    let mut a = Allocator::new();
    let mut b = a.allocate(1000);
    b.store_word(0, 22);
    a.deallocate(b);
    // the large block went to the shared tier, not the worker-local one
    let from_local = a.local.allocate(1000);
    assert_eq!(from_local.load_word(0), 0);
    let from_global = a.global.allocate(1000);
    assert_eq!(from_global.load_word(0), 22);
}

#[test]
fn test_threshold_boundary() {
    let mut a = Allocator::new();
    let mut at = a.allocate(256);
    at.store_word(0, 33);
    a.deallocate(at);
    // exactly the threshold is still small
    assert_eq!(a.local.allocate(256).load_word(0), 33);
    let mut above = a.allocate(257);
    above.store_word(0, 44);
    a.deallocate(above);
    assert_eq!(a.global.allocate(257).load_word(0), 44);
}

#[test]
fn test_cleanup_clears_both_tiers() {
    let mut a = Allocator::new();
    let mut small = a.allocate(32);
    small.store_word(0, 5);
    let mut large = a.allocate(512);
    large.store_word(0, 6);
    a.deallocate(small);
    a.deallocate(large);
    a.cleanup();
    // both requests miss now and come back fresh
    assert_eq!(a.allocate(32).load_word(0), 0);
    assert_eq!(a.allocate(512).load_word(0), 0);
}

#[test]
fn test_handle_double_free() {
    let mut a = Allocator::new();
    let mut h = allocate_memory(&mut a, 50);
    assert_eq!(h.size(), 50);
    assert_eq!(deallocate_memory(&mut a, &mut h), Ok(()));
    assert_eq!(h.size(), 0);
    assert_eq!(deallocate_memory(&mut a, &mut h), Err(ValueError));
}

#[test]
fn test_handle_to_bytes() {
    let mut a = Allocator::new();
    let h = allocate_memory(&mut a, 16);
    let bytes = h.to_bytes().unwrap();
    assert_eq!(bytes.len(), 16);
    assert!(bytes.iter().all(|&x| x == 0));
    let empty = BlockHandle::empty();
    assert_eq!(empty.to_bytes(), Err(ValueError));
    cleanup_memory_system(&mut a);
}
