use isomorphism::bitfield::{BitField, BitFieldIterator, DefaultBitField};
use isomorphism::bucket::Bucket;
use isomorphism::{BiMap, BiMapBuilder};

#[test]
fn test_basics() {
    assert_eq!(u8::one_at(3), 8);
    assert_eq!(u8::zero_at(3), 247);
}

#[test]
fn test_iterator() {
    let mut it: BitFieldIterator<u16> = 0xBEEFu16.iter();
    let mut collected: Vec<usize> = Vec::new();
    while let Some(i) = it.next() {
        collected.push(i);
    }
    assert_eq!(collected, vec![0, 1, 2, 3, 5, 6, 7, 9, 10, 11, 12, 13, 15]);
}

#[test]
fn test_empty_vec() {
    let vec: Vec<Bucket<(), (), DefaultBitField>> = Bucket::empty_vec(0);
    assert!(vec.len() == 0)
}

#[test]
fn test_full_vec() {
    let length = 1024;
    let vec: Vec<Bucket<(), (), DefaultBitField>> = Bucket::empty_vec(length);
    assert!(vec.len() == length);
    assert!(vec.iter().all(|element| element.data == None && element.neighbourhood == 0));
}

#[test]
fn test_iteration_empty() {
    let map: BiMap<(), ()> = BiMap::new();
    let mut borrowed = map.iter();
    assert_eq!(borrowed.next(), None);
    drop(borrowed);
    let mut owned = map.into_iter();
    assert_eq!(owned.next(), None);
}

#[test]
fn test_with_capacity_capacity() {
    let map: BiMap<u64, u64> = BiMapBuilder::new().capacity(100).finish();
    assert!(map.capacity() >= 100);
    let map2: BiMap<u64, u64> = BiMapBuilder::new().capacity(0).finish();
    assert!(map2.capacity() >= 0);
}

#[test]
fn test_remove_from_empty() {
    let mut map: BiMap<String, u64> = BiMap::new();
    assert_eq!(map.remove_left(&String::from("anything")), None);
    assert_eq!(map.remove_right(&17), None);
    assert!(map.is_empty());
}

#[test]
fn test_distinct_inserts_no_evictions() {
    let mut map: BiMap<u64, u64> = BiMap::new();
    for i in 0..20u64 {
        assert_eq!(map.insert(i, i + 100), (None, None));
    }
    assert_eq!(map.len(), 20);
}

#[test]
fn test_lookup_both_sides() {
    let mut map: BiMap<u64, u64> = BiMap::new();
    map.insert(1, 11);
    map.insert(2, 12);
    map.insert(3, 13);
    assert_eq!(map.get_left(&2), Some(&12));
    assert_eq!(map.get_right(&12), Some(&2));
    assert_eq!(map.get_left(&4), None);
    assert_eq!(map.get_right(&14), None);
}

#[test]
fn test_reinsert_evicts_old_right() {
    let mut map: BiMap<String, u64> = BiMap::new();
    assert_eq!(map.insert(String::from("Hello"), 5), (None, None));
    assert_eq!(map.insert(String::from("Hello"), 7), (Some(5), None));
    assert_eq!(map.get_right(&5), None);
    assert_eq!(map.get_left(&String::from("Hello")), Some(&7));
    assert_eq!(map.len(), 1);
}

#[test]
fn test_duplicate_right_evicts_left() {
    let mut map: BiMap<String, u64> = BiMap::new();
    assert_eq!(map.insert(String::from("Hello"), 5), (None, None));
    let evicted = map.insert(String::from("World"), 5);
    assert_eq!(evicted.0, None);
    assert_eq!(evicted.1, Some(String::from("Hello")));
    assert_eq!(map.get_left(&String::from("Hello")), None);
    assert_eq!(map.get_left(&String::from("World")), Some(&5));
    assert_eq!(map.len(), 1);
}

#[test]
fn test_same_pair_reinsert() {
    let mut map: BiMap<String, u64> = BiMap::new();
    assert_eq!(map.insert(String::from("Hello"), 5), (None, None));
    let evicted = map.insert(String::from("Hello"), 5);
    assert_eq!(evicted, (Some(5), Some(String::from("Hello"))));
    assert_eq!(map.len(), 1);
}

#[test]
fn test_resize_keeps_pairs() {
    let mut map: BiMap<u64, u64> = BiMap::new();
    let before = map.capacity();
    for i in 0..200u64 {
        assert_eq!(map.insert(i, 1000 + i), (None, None));
    }
    assert_eq!(map.len(), 200);
    assert!(map.capacity() > before);
    for i in 0..200u64 {
        assert_eq!(map.get_left(&i), Some(&(1000 + i)));
        assert_eq!(map.get_right(&(1000 + i)), Some(&i));
    }
}

#[test]
fn test_remove_left_and_right() {
    let mut map: BiMap<String, u64> = BiMap::new();
    map.insert(String::from("Hello"), 5);
    assert_eq!(map.get_left(&String::from("Hello")), Some(&5));
    assert_eq!(map.get_right(&5), Some(&String::from("Hello")));
    let old = map.remove_left(&String::from("Hello"));
    assert_eq!(old, Some(5));
    assert_eq!(map.get_left(&String::from("Hello")), None);
    assert_eq!(map.get_right(&5), None);
    map.insert(String::from("World"), 9);
    assert_eq!(map.remove_right(&9), Some(String::from("World")));
    assert!(map.is_empty());
}

#[test]
fn test_iteration_yields_pairs() {
    let mut map: BiMap<u64, u64> = BiMap::new();
    for i in 0..8u64 {
        map.insert(i, 50 + i);
    }
    let mut borrowed_pairs: Vec<(u64, u64)> = Vec::new();
    let mut it = map.iter();
    while let Some((l, r)) = it.next() {
        borrowed_pairs.push((*l, *r));
    }
    drop(it);
    let mut owned_pairs: Vec<(u64, u64)> = Vec::new();
    let mut oit = map.into_iter();
    while let Some((l, r)) = oit.next() {
        owned_pairs.push((l, r));
    }
    borrowed_pairs.sort();
    owned_pairs.sort();
    assert_eq!(borrowed_pairs, owned_pairs);
    assert_eq!(borrowed_pairs.len(), 8);
}

#[test]
fn test_builder_seeds_and_bitfield() {
    let mut map: BiMap<u64, u64, u16> = BiMapBuilder::new()
        .capacity(10)
        .left_hasher(42)
        .right_hasher(7)
        .bitfield::<u16>()
        .finish();
    map.insert(3, 4);
    assert_eq!(map.get_left(&3), Some(&4));
    assert_eq!(map.get_right(&4), Some(&3));
}
