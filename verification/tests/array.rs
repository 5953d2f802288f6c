use rustique_mem::allocator::Allocator;
use rustique_mem::array::Array;
use rustique_mem::IndexError;

#[test]
fn test_array_scenario() {
    let mut a = Allocator::new();
    let mut arr = Array::new(&mut a);
    assert_eq!(arr.len(), 0);
    assert_eq!(arr.capacity(), 4);
    for v in 1..=5u64 {
        arr.append(&mut a, v);
    }
    // the fifth append grew the backing block from 4 to 8 slots
    assert_eq!(arr.len(), 5);
    assert_eq!(arr.capacity(), 8);
    assert_eq!(arr.get(4), Ok(5));
    arr.destroy(&mut a);
}

#[test]
fn test_growth_preserves_order_and_identity() {
    let mut a = Allocator::new();
    let mut arr = Array::new(&mut a);
    for v in 0..20u64 {
        arr.append(&mut a, 100 + v);
    }
    assert_eq!(arr.len(), 20);
    assert_eq!(arr.capacity(), 32);
    for i in 0..20usize {
        assert_eq!(arr.get(i), Ok(100 + i as u64));
    }
    arr.destroy(&mut a);
}

#[test]
fn test_capacity_doubles_exactly_when_full() {
    let mut a = Allocator::new();
    let mut arr = Array::new(&mut a);
    let mut expected: usize = 4;
    for v in 0..64u64 {
        if arr.len() == arr.capacity() {
            expected *= 2;
        }
        arr.append(&mut a, v);
        assert_eq!(arr.capacity(), if v < 4 { 4 } else { expected });
    }
    arr.destroy(&mut a);
}

#[test]
fn test_set_and_get() {
    let mut a = Allocator::new();
    let mut arr = Array::new(&mut a);
    arr.append(&mut a, 10);
    arr.append(&mut a, 20);
    arr.append(&mut a, 30);
    assert_eq!(arr.set(1, 99), Ok(()));
    assert_eq!(arr.get(0), Ok(10));
    assert_eq!(arr.get(1), Ok(99));
    assert_eq!(arr.get(2), Ok(30));
    arr.destroy(&mut a);
}

#[test]
fn test_out_of_range() {
    let mut a = Allocator::new();
    let mut arr = Array::new(&mut a);
    arr.append(&mut a, 1);
    assert_eq!(arr.get(1), Err(IndexError));
    assert_eq!(arr.get(100), Err(IndexError));
    assert_eq!(arr.set(1, 0), Err(IndexError));
    assert_eq!(arr.len(), 1);
    assert_eq!(arr.get(0), Ok(1));
    arr.destroy(&mut a);
}

#[test]
fn test_grown_array_releases_old_block() {
    let mut a = Allocator::new();
    let mut arr = Array::new(&mut a);
    for v in 0..5u64 {
        arr.append(&mut a, v);
    }
    // the 4-slot block went back to the worker-local cache on growth
    let reused = a.local.allocate(32);
    assert_eq!(reused.size(), 32);
    arr.destroy(&mut a);
}
