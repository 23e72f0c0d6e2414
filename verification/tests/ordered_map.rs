use std::collections::BTreeMap;

use yuudb::bound::{prefix_range, Bound};
use yuudb::error::Error;
use yuudb::order::{key_eq, key_lt};
use yuudb::ordered_map::OrderedMap;

#[test]
fn keys_compare_lexicographically() {
    assert!(key_lt(b"", b"a"));
    assert!(!key_lt(b"", b""));
    assert!(key_lt(b"a", b"ab"));
    assert!(!key_lt(b"ab", b"a"));
    assert!(key_lt(b"ab", b"b"));
    assert!(key_lt(&[0x7f], &[0x80]));
    assert!(key_lt(&[0x00, 0xff], &[0x01]));
    assert!(!key_lt(b"b", b"ab"));
    assert!(!key_lt(b"abc", b"abc"));
    assert!(key_eq(b"abc", b"abc"));
    assert!(!key_eq(b"abc", b"abd"));
    assert!(!key_eq(b"abc", b"ab"));
    assert!(key_eq(b"", b""));
}

#[test]
fn map_insert_get_remove() {
    let mut m: OrderedMap<u32> = OrderedMap::new();
    assert_eq!(0, m.len());
    assert_eq!(None, m.insert(b"m".to_vec(), 1));
    assert_eq!(None, m.insert(b"a".to_vec(), 2));
    assert_eq!(None, m.insert(b"z".to_vec(), 3));
    assert_eq!(Some(1), m.insert(b"m".to_vec(), 4));
    assert_eq!(3, m.len());
    assert_eq!(Some(&2), m.get(b"a"));
    assert_eq!(Some(&4), m.get(b"m"));
    assert_eq!(Some(&3), m.get(b"z"));
    assert_eq!(None, m.get(b"b"));
    assert_eq!(b"a".to_vec(), *m.key_at(0));
    assert_eq!(b"m".to_vec(), *m.key_at(1));
    assert_eq!(b"z".to_vec(), *m.key_at(2));
    assert_eq!(4, *m.value_at(1));
    assert_eq!(None, m.remove(b"b"));
    assert_eq!(Some(4), m.remove(b"m"));
    assert_eq!(2, m.len());
    assert_eq!(None, m.get(b"m"));
    assert_eq!(b"z".to_vec(), *m.key_at(1));
}

#[test]
fn map_search_and_range() {
    let mut m: OrderedMap<u32> = OrderedMap::new();
    for (i, k) in [b"b", b"d", b"f", b"h"].iter().enumerate() {
        m.insert(k.to_vec(), i as u32);
    }
    assert_eq!(0, m.search(b"a"));
    assert_eq!(0, m.search(b"b"));
    assert_eq!(1, m.search(b"c"));
    assert_eq!(3, m.search(b"h"));
    assert_eq!(4, m.search(b"i"));
    assert_eq!(0, m.search_above(b"a"));
    assert_eq!(1, m.search_above(b"b"));
    assert_eq!(4, m.search_above(b"h"));
    let b = |s: &[u8]| s.to_vec();
    assert_eq!((0, 4), m.range(&Bound::Unbounded, &Bound::Unbounded));
    assert_eq!((1, 3), m.range(&Bound::Included(b(b"d")), &Bound::Included(b(b"f"))));
    assert_eq!((2, 2), m.range(&Bound::Excluded(b(b"d")), &Bound::Excluded(b(b"f"))));
    assert_eq!((1, 2), m.range(&Bound::Included(b(b"c")), &Bound::Excluded(b(b"f"))));
    assert_eq!((3, 3), m.range(&Bound::Included(b(b"h")), &Bound::Excluded(b(b"b"))));
    assert_eq!((4, 4), m.range(&Bound::Excluded(b(b"h")), &Bound::Unbounded));
}

#[test]
fn prefix_ranges() {
    let included = |r: &(Bound, Bound)| match &r.0 {
        Bound::Included(k) => k.clone(),
        _ => panic!("the lower bound is not included"),
    };
    let excluded = |r: &(Bound, Bound)| match &r.1 {
        Bound::Excluded(k) => Some(k.clone()),
        Bound::Unbounded => None,
        Bound::Included(_) => panic!("the upper bound is included"),
    };
    let r = prefix_range(b"ab");
    assert_eq!(b"ab".to_vec(), included(&r));
    assert_eq!(Some(b"ac".to_vec()), excluded(&r));
    let r = prefix_range(&[0x61, 0xff, 0xff]);
    assert_eq!(vec![0x61, 0xff, 0xff], included(&r));
    assert_eq!(Some(vec![0x62]), excluded(&r));
    let r = prefix_range(&[0x00, 0xfe, 0xff]);
    assert_eq!(Some(vec![0x00, 0xff]), excluded(&r));
    let r = prefix_range(&[0xff, 0xff]);
    assert_eq!(vec![0xff, 0xff], included(&r));
    assert_eq!(None, excluded(&r));
    let r = prefix_range(b"");
    assert_eq!(Vec::<u8>::new(), included(&r));
    assert_eq!(None, excluded(&r));
}

#[test]
fn error_texts() {
    assert_eq!("Operation aborted", Error::Abort.to_string());
    assert_eq!("Read-only transaction", Error::ReadOnly.to_string());
    assert_eq!("Serialization error", Error::Serialization.to_string());
    assert_eq!("a", Error::Config("a".to_string()).to_string());
    assert_eq!("b", Error::Internal("b".to_string()).to_string());
    assert_eq!("c", Error::Parse("c".to_string()).to_string());
    assert_eq!("d", Error::Value("d".to_string()).to_string());
}

/// A small generator of numbers, so that the runs are the same each time.
fn next(seed: &mut u64) -> u64 {
    *seed = seed.wrapping_mul(6364136223846793005).wrapping_add(1442695040888963407);
    *seed >> 33
}

fn some_key(seed: &mut u64) -> Vec<u8> {
    let len = (next(seed) % 4) as usize;
    (0..len).map(|_| [0x00, 0x01, 0x7f, 0x80, 0xff][(next(seed) % 5) as usize]).collect()
}

#[test]
/// The map holds what a `BTreeMap` holds after the same calls, in the same
/// order.
fn map_matches_btree_map() {
    let mut seed: u64 = 1;
    let mut m: OrderedMap<u64> = OrderedMap::new();
    let mut b: BTreeMap<Vec<u8>, u64> = BTreeMap::new();
    for round in 0..5000 {
        let k = some_key(&mut seed);
        match next(&mut seed) % 4 {
            0 | 1 => assert_eq!(b.insert(k.clone(), round), m.insert(k, round)),
            2 => assert_eq!(b.remove(&k), m.remove(&k)),
            _ => assert_eq!(b.get(&k), m.get(&k)),
        }
        assert_eq!(b.len(), m.len());
        let k = some_key(&mut seed);
        assert_eq!(b.range(..k.clone()).count(), m.search(&k));
        assert_eq!(b.range(..=k.clone()).count(), m.search_above(&k));
        let (lo, hi) = m.range(&Bound::Excluded(k.clone()), &Bound::Unbounded);
        let found: Vec<(Vec<u8>, u64)> =
            (lo..hi).map(|i| (m.key_at(i).clone(), *m.value_at(i))).collect();
        let expect: Vec<(Vec<u8>, u64)> = b
            .range((std::ops::Bound::Excluded(k), std::ops::Bound::Unbounded))
            .map(|(k, v)| (k.clone(), *v))
            .collect();
        assert_eq!(expect, found);
    }
    let all: Vec<Vec<u8>> = (0..m.len()).map(|i| m.key_at(i).clone()).collect();
    assert_eq!(b.keys().cloned().collect::<Vec<_>>(), all);
}
