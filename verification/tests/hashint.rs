use mqpool::backstore::BackStore;
use mqpool::hashint::{HashError, HashInt};

#[test]
fn hashint_create() {
    assert!(HashInt::<usize>::new(256).is_ok());
    assert!(HashInt::<f64>::new(512).is_ok());
    assert!(HashInt::<String>::new(1024).is_ok());
    assert!(HashInt::<u8>::new(2048).is_ok());
}

#[test]
fn insert() {
    let mut map = HashInt::new(256).unwrap();
    for i in 0..150 {
        assert!(map.insert(5 * i, i).is_ok());
    }
    for i in 0..150 {
        assert_eq!(map.get(5 * i), Some(i));
    }
}

#[test]
fn resize() {
    let mut map = HashInt::new(256).unwrap();
    for i in 0..150 {
        assert!(map.insert(5 * i, i).is_ok());
    }
    assert!(map.resize(1000).is_ok());
    for i in 0..150 {
        assert_eq!(map.get(5 * i), Some(i));
    }
}

#[test]
fn full_queue() {
    let mut map = HashInt::new(256).unwrap();
    for i in 0..256 {
        assert!(map.insert(5 * i, i).is_ok());
    }
    assert_eq!(map.insert(5 * 256, 256), Err(HashError::Full));
}

#[test]
fn empty_table_is_refused() {
    assert_eq!(HashInt::<usize>::new(0).err(), Some(HashError::MmapFailed));
}

#[test]
fn missing_key() {
    let mut map = HashInt::new(8).unwrap();
    assert_eq!(map.get(3), None);
    assert!(map.insert(3, 30).is_ok());
    assert_eq!(map.get(11), None);
    assert_eq!(map.get(3), Some(30));
}

#[test]
fn colliding_keys_probe_forward() {
    // 8 slots: 1, 9 and 17 share the home slot 1; 7 and 15 wrap to slot 0
    let mut map = HashInt::new(8).unwrap();
    for k in [1usize, 9, 17, 7, 15] {
        assert!(map.insert(k, k * 10).is_ok());
    }
    for k in [1usize, 9, 17, 7, 15] {
        assert_eq!(map.get(k), Some(k * 10));
    }
    assert_eq!(map.get(25), None);
}

#[test]
fn reinserted_key_keeps_first_value() {
    let mut map = HashInt::new(4).unwrap();
    assert!(map.insert(2, 20).is_ok());
    assert!(map.insert(2, 21).is_ok());
    assert_eq!(map.get(2), Some(20));
}

#[test]
fn resize_to_smaller_is_ignored() {
    let mut map = HashInt::new(4).unwrap();
    assert!(map.insert(1, 10).is_ok());
    assert!(map.resize(2).is_ok());
    assert_eq!(map.get(1), Some(10));
    for k in 2..5 {
        assert!(map.insert(k, k).is_ok());
    }
    assert_eq!(map.insert(9, 9), Err(HashError::Full));
}

#[test]
fn resize_makes_room() {
    let mut map = HashInt::new(2).unwrap();
    assert!(map.insert(0, 1).is_ok());
    assert!(map.insert(1, 2).is_ok());
    assert_eq!(map.insert(2, 3), Err(HashError::Full));
    assert!(map.resize(4).is_ok());
    assert!(map.insert(2, 3).is_ok());
    assert_eq!(map.get(0), Some(1));
    assert_eq!(map.get(1), Some(2));
    assert_eq!(map.get(2), Some(3));
}

#[test]
fn resize_reinserts_in_slot_order() {
    // key 3 twice in 4 slots: the second entry wraps to slot 0, ahead of the
    // first one in slot order, so after resizing it is the one found
    let mut map = HashInt::new(4).unwrap();
    assert!(map.insert(3, 'a').is_ok());
    assert!(map.insert(3, 'b').is_ok());
    assert_eq!(map.get(3), Some('a'));
    assert!(map.resize(8).is_ok());
    assert_eq!(map.get(3), Some('b'));
}

#[test]
fn rehash_into_larger_store() {
    let mut map = HashInt::new(3).unwrap();
    for k in [0usize, 3, 6] {
        assert!(map.insert(k, k + 1).is_ok());
    }
    let fresh = BackStore::new(7).unwrap();
    map.rehash_into(fresh);
    for k in [0usize, 3, 6] {
        assert_eq!(map.get(k), Some(k + 1));
    }
    assert!(map.insert(9, 10).is_ok());
    assert_eq!(map.get(9), Some(10));
}

#[test]
fn backstore_from_reservation() {
    let s = BackStore::<u8>::from_reservation(3, Vec::new(), Ok(())).unwrap();
    assert_eq!(s.len(), 3);
    assert_eq!(s.get(2), &None);
    assert!(BackStore::<u8>::from_reservation(0, Vec::new(), Ok(())).is_err());
    assert!(BackStore::<u8>::new(0).is_err());
}
