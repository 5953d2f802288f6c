use rustique_mem::allocator::Allocator;
use rustique_mem::table::Table;
use rustique_mem::KeyError;

#[test]
fn test_table_scenario() {
    let mut a = Allocator::new();
    let mut t = Table::new(&mut a);
    assert_eq!(t.capacity(), 8);
    // set "a".."h" (as their code points) to 1..=8
    let keys: [u64; 8] = [97, 98, 99, 100, 101, 102, 103, 104];
    for (i, &k) in keys.iter().enumerate() {
        t.set(&mut a, k, i as u64 + 1);
        if i < 5 {
            // five entries fit under the 0.7 trigger at capacity 8
            assert_eq!(t.capacity(), 8);
        } else {
            // the sixth insert would reach 0.7, so the table grew first
            assert_eq!(t.capacity(), 16);
        }
    }
    assert_eq!(t.len(), 8);
    assert_eq!(t.get(97), Ok(1));
    assert_eq!(t.get(104), Ok(8));
    t.destroy(&mut a);
}

#[test]
fn test_round_trip() {
    let mut a = Allocator::new();
    let mut t = Table::new(&mut a);
    t.set(&mut a, 42, 7);
    assert_eq!(t.get(42), Ok(7));
    t.set(&mut a, 42, 8);
    assert_eq!(t.get(42), Ok(8));
    assert_eq!(t.len(), 1);
    assert_eq!(t.delete(&mut a, 42), Ok(()));
    assert_eq!(t.get(42), Err(KeyError));
    assert_eq!(t.len(), 0);
    t.destroy(&mut a);
}

#[test]
fn test_missing_key() {
    let mut a = Allocator::new();
    let mut t = Table::new(&mut a);
    assert_eq!(t.get(5), Err(KeyError));
    assert_eq!(t.delete(&mut a, 5), Err(KeyError));
    t.set(&mut a, 5, 50);
    assert_eq!(t.get(6), Err(KeyError));
    t.destroy(&mut a);
}

#[test]
fn test_deletion_repair() {
    let mut a = Allocator::new();
    let mut t = Table::new(&mut a);
    // three keys with the same home slot (1 mod 8) in consecutive slots
    t.set(&mut a, 1, 100);
    t.set(&mut a, 9, 200);
    t.set(&mut a, 17, 300);
    assert_eq!(t.capacity(), 8);
    // delete the middle of the probe chain
    assert_eq!(t.delete(&mut a, 9), Ok(()));
    // the key past the deleted slot is still reachable
    assert_eq!(t.get(17), Ok(300));
    assert_eq!(t.get(1), Ok(100));
    assert_eq!(t.get(9), Err(KeyError));
    t.destroy(&mut a);
}

#[test]
fn test_load_factor_bound() {
    let mut a = Allocator::new();
    let mut t = Table::new(&mut a);
    for i in 0..100u64 {
        t.set(&mut a, i * 13 + 5, i);
        assert!(t.len() * 10 < t.capacity() * 7);
    }
    t.destroy(&mut a);
}

#[test]
fn test_growth_keeps_entries() {
    let mut a = Allocator::new();
    let mut t = Table::new(&mut a);
    for i in 0..50u64 {
        t.set(&mut a, i, i * 2);
    }
    assert_eq!(t.len(), 50);
    for i in 0..50u64 {
        assert_eq!(t.get(i), Ok(i * 2));
    }
    t.destroy(&mut a);
}

#[test]
fn test_keys_snapshot() {
    let mut a = Allocator::new();
    let mut t = Table::new(&mut a);
    t.set(&mut a, 3, 30);
    t.set(&mut a, 11, 110);
    t.set(&mut a, 7, 70);
    t.delete(&mut a, 11).unwrap();
    let ks = t.keys();
    assert_eq!(ks.len(), 2);
    assert!(ks.contains(&3));
    assert!(ks.contains(&7));
    assert!(!ks.contains(&11));
    t.destroy(&mut a);
}

#[test]
fn test_new_table_on_stale_block() {
    let mut a = Allocator::new();
    let mut t = Table::new(&mut a);
    t.set(&mut a, 1, 10);
    t.set(&mut a, 2, 20);
    // the populated 8-entry block goes back to the cache with its
    // occupancy flags still set
    t.destroy(&mut a);
    // the next table reuses that block; its flags are cleared on
    // acquisition, so none of the stale entries shows through
    let mut t2 = Table::new(&mut a);
    assert_eq!(t2.len(), 0);
    assert_eq!(t2.get(1), Err(KeyError));
    assert_eq!(t2.get(2), Err(KeyError));
    assert_eq!(t2.keys().len(), 0);
    t2.destroy(&mut a);
}
