use eliecs::Pool;

#[test]
fn empty() {
    std::hint::black_box(Pool::<u32>::new());
}

#[test]
fn empty_contains_none() {
    let pool = Pool::<u32>::new();
    assert!(!pool.contains(0));
    assert!(!pool.contains(100));
}

#[test]
fn insert_big_id() {
    let mut pool = Pool::<u32>::new();
    assert!(!pool.contains(0));
    pool.insert(0, 1234);
    assert!(pool.contains(0));

    let mut pool = Pool::<u32>::new();
    assert!(!pool.contains(100));
    pool.insert(100, 1234);
    assert!(pool.contains(100));
    assert!(!pool.contains(99));
}

#[test]
fn get() {
    let mut pool = Pool::<u32>::new();
    assert!(!pool.contains(100));
    pool.insert(100, 1234);
    assert!(pool.contains(100));
    assert_eq!(pool.get(100).copied(), Some(1234));
}

#[test]
fn remove() {
    let mut pool = Pool::<u32>::new();
    assert!(!pool.contains(100));
    pool.insert(2, 1234);
    pool.insert(5, 5678);
    pool.insert(7, 91011);
    assert!(pool.contains(2));
    assert_eq!(pool.get(2).copied(), Some(1234));
    assert!(pool.contains(5));
    assert!(pool.contains(7));
    pool.remove(5);
    assert!(pool.contains(2));
    assert!(!pool.contains(5));
    assert!(pool.contains(7));
}

#[test]
fn swap_removal_scenario() {
    let mut pool = Pool::<&str>::new();
    pool.insert(0, "a");
    pool.insert(5, "b");
    pool.insert(2, "c");
    assert!(pool.remove(5));
    assert!(pool.contains(0));
    assert!(pool.contains(2));
    assert!(!pool.contains(5));
    let mut pairs: Vec<(u32, &str)> = pool.iter().into_iter().map(|(k, v)| (k, *v)).collect();
    pairs.sort();
    assert_eq!(pairs, vec![(0, "a"), (2, "c")]);
}

#[test]
fn removal_moves_last_entry_into_place() {
    let mut pool = Pool::<u32>::new();
    pool.insert(1, 10);
    pool.insert(2, 20);
    pool.insert(3, 30);
    pool.remove(1);
    let pairs: Vec<(u32, u32)> = pool.iter().into_iter().map(|(k, v)| (k, *v)).collect();
    assert_eq!(pairs, vec![(3, 30), (2, 20)]);
    assert_eq!(pool.get(3).copied(), Some(30));
    assert_eq!(pool.get(2).copied(), Some(20));
}

#[test]
fn remove_absent_is_noop() {
    let mut pool = Pool::<u32>::new();
    pool.insert(4, 40);
    assert!(!pool.remove(9));
    assert!(!pool.remove(3));
    assert_eq!(pool.len(), 1);
    assert_eq!(pool.get(4).copied(), Some(40));
}

#[test]
fn membership_follows_last_operation() {
    let mut pool = Pool::<u32>::new();
    pool.insert(1, 1);
    pool.insert(2, 2);
    pool.remove(1);
    pool.insert(3, 3);
    pool.insert(1, 4);
    pool.remove(2);
    pool.remove(3);
    pool.insert(3, 5);
    assert!(pool.contains(1));
    assert!(!pool.contains(2));
    assert!(pool.contains(3));
    assert_eq!(pool.get(1).copied(), Some(4));
    assert_eq!(pool.get(3).copied(), Some(5));
    assert_eq!(pool.len(), 2);
}

#[test]
fn reinsert_overwrites_in_place() {
    let mut pool = Pool::<u32>::new();
    assert!(!pool.insert(0, 1));
    pool.insert(1, 2);
    assert!(pool.insert(0, 3));
    assert_eq!(pool.len(), 2);
    assert_eq!(pool.get(0).copied(), Some(3));
    pool.remove(1);
    pool.remove(0);
    assert!(!pool.contains(0));
    assert!(pool.is_empty());
}

#[test]
fn get_mut_writes_through() {
    let mut pool = Pool::<u32>::new();
    pool.insert(6, 60);
    if let Some(v) = pool.get_mut(6) {
        *v += 1;
    }
    assert_eq!(pool.get(6).copied(), Some(61));
    assert!(pool.get_mut(7).is_none());
    assert!(pool.get(7).is_none());
}

#[test]
fn clear_empties() {
    let mut pool = Pool::<u32>::with_dense_capacity(8);
    pool.insert(0, 1);
    pool.insert(9, 2);
    assert_eq!(pool.len(), 2);
    assert!(!pool.is_empty());
    pool.clear();
    assert_eq!(pool.len(), 0);
    assert!(pool.is_empty());
    assert!(!pool.contains(0));
    assert!(!pool.contains(9));
    let d: Pool<u32> = Pool::default();
    assert!(d.is_empty());
}

#[test]
fn parts_round_trip() {
    let mut pool = Pool::<u32>::new();
    pool.insert(3, 30);
    pool.insert(8, 80);
    pool.insert(1, 10);
    pool.remove(3);
    let (sparse, dense) = pool.into_parts();
    let back = Pool::from_parts(sparse, dense);
    assert_eq!(back.len(), 2);
    assert_eq!(back.get(8).copied(), Some(80));
    assert_eq!(back.get(1).copied(), Some(10));
    assert!(!back.contains(3));
}

#[test]
fn from_parts_drops_stale_entries() {
    let sparse = vec![1, 1, 7, 0, u32::MAX];
    let dense = vec![(3, 33), (1, 11), (0, 99)];
    let pool = Pool::from_parts(sparse, dense);
    assert!(!pool.contains(0));
    assert!(pool.contains(1));
    assert!(!pool.contains(2));
    assert!(pool.contains(3));
    assert!(!pool.contains(4));
    assert_eq!(pool.get(1).copied(), Some(11));
    assert_eq!(pool.get(3).copied(), Some(33));
    assert_eq!(pool.len(), 2);
}

#[test]
fn iter_mut_writes_through_in_dense_order() {
    let mut pool = Pool::<u32>::new();
    pool.insert(4, 1);
    pool.insert(0, 2);
    pool.insert(9, 3);
    let slots: Vec<u32> = pool.iter_mut().into_iter().map(|(k, v)| {
        *v *= 10;
        k
    }).collect();
    assert_eq!(slots, vec![4, 0, 9]);
    assert_eq!(pool.get(4).copied(), Some(10));
    assert_eq!(pool.get(0).copied(), Some(20));
    assert_eq!(pool.get(9).copied(), Some(30));
    assert_eq!(pool.len(), 3);
}
