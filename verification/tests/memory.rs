use std::collections::BTreeMap;

use yuudb::bound::Bound;
use yuudb::error::Error;
use yuudb::storage::engine::{Engine, Scan, Status};
use yuudb::storage::memory::Memory;

fn sample() -> Result<Memory, Error> {
    let mut s = Memory::new();
    s.set(b"b", vec![0x01])?;
    s.set(b"b", vec![0x02])?;
    s.set(b"e", vec![0x05])?;
    s.delete(b"e")?;
    s.set(b"c", vec![0x00])?;
    s.delete(b"c")?;
    s.set(b"c", vec![0x03])?;
    s.set(b"", vec![])?;
    s.set(b"a", vec![0x01])?;
    s.delete(b"f")?;
    s.delete(b"d")?;
    s.set(b"d", vec![0x04])?;
    Ok(s)
}

#[test]
fn memory_starts_empty() -> Result<(), Error> {
    let mut s = Memory::new();
    assert_eq!(None, s.get(b"a")?);
    assert_eq!(
        Vec::<(Vec<u8>, Vec<u8>)>::new(),
        s.scan((Bound::Unbounded, Bound::Unbounded)).collect()?
    );
    assert_eq!(
        Status {
            name: "memory".to_string(),
            key_count: 0,
            size: 0,
            total_disk_size: 0,
            live_disk_size: 0,
            garbage_disk_size: 0,
        },
        s.status()?
    );
    Ok(())
}

#[test]
fn memory_point_operations() -> Result<(), Error> {
    let mut s = sample()?;
    assert_eq!(Some(vec![]), s.get(b"")?);
    assert_eq!(Some(vec![0x01]), s.get(b"a")?);
    assert_eq!(Some(vec![0x02]), s.get(b"b")?);
    assert_eq!(Some(vec![0x03]), s.get(b"c")?);
    assert_eq!(Some(vec![0x04]), s.get(b"d")?);
    assert_eq!(None, s.get(b"e")?);
    assert_eq!(None, s.get(b"f")?);
    s.flush()?;
    assert_eq!(Some(vec![0x04]), s.get(b"d")?);
    Ok(())
}

#[test]
fn memory_scan_is_ordered() -> Result<(), Error> {
    let mut s = sample()?;
    assert_eq!(
        vec![
            (b"".to_vec(), vec![]),
            (b"a".to_vec(), vec![0x01]),
            (b"b".to_vec(), vec![0x02]),
            (b"c".to_vec(), vec![0x03]),
            (b"d".to_vec(), vec![0x04]),
        ],
        s.scan((Bound::Unbounded, Bound::Unbounded)).collect()?
    );
    Ok(())
}

#[test]
fn memory_scan_bounds() -> Result<(), Error> {
    let mut s = sample()?;
    let a = || b"a".to_vec();
    let c = || b"c".to_vec();
    assert_eq!(
        vec![(a(), vec![0x01]), (b"b".to_vec(), vec![0x02])],
        s.scan((Bound::Included(a()), Bound::Excluded(c()))).collect()?
    );
    assert_eq!(
        vec![(b"b".to_vec(), vec![0x02]), (c(), vec![0x03])],
        s.scan((Bound::Excluded(a()), Bound::Included(c()))).collect()?
    );
    assert_eq!(
        vec![(b"".to_vec(), vec![]), (a(), vec![0x01])],
        s.scan((Bound::Unbounded, Bound::Excluded(b"ab".to_vec()))).collect()?
    );
    assert_eq!(
        vec![(c(), vec![0x03]), (b"d".to_vec(), vec![0x04])],
        s.scan((Bound::Excluded(b"bz".to_vec()), Bound::Unbounded)).collect()?
    );
    // A range whose start lies behind its end is empty.
    assert_eq!(
        Vec::<(Vec<u8>, Vec<u8>)>::new(),
        s.scan((Bound::Included(c()), Bound::Excluded(a()))).collect()?
    );
    assert_eq!(
        Vec::<(Vec<u8>, Vec<u8>)>::new(),
        s.scan((Bound::Excluded(a()), Bound::Excluded(a()))).collect()?
    );
    Ok(())
}

#[test]
fn memory_scan_from_both_ends() -> Result<(), Error> {
    let mut s = sample()?;
    let mut scan = s.scan((Bound::Unbounded, Bound::Unbounded));
    assert_eq!(Some(Ok((b"".to_vec(), vec![]))), scan.next());
    assert_eq!(Some(Ok((b"d".to_vec(), vec![0x04]))), scan.next_back());
    assert_eq!(Some(Ok((b"c".to_vec(), vec![0x03]))), scan.next_back());
    assert_eq!(Some(Ok((b"a".to_vec(), vec![0x01]))), scan.next());
    assert_eq!(Some(Ok((b"b".to_vec(), vec![0x02]))), scan.next());
    assert_eq!(None, scan.next_back());
    assert_eq!(None, scan.next());
    Ok(())
}

#[test]
fn memory_scan_prefix() -> Result<(), Error> {
    let mut s = Memory::new();
    s.set(b"a", vec![1])?;
    s.set(b"ab", vec![2])?;
    s.set(b"abc", vec![3])?;
    s.set(b"ac", vec![4])?;
    s.set(b"b", vec![5])?;
    s.set(&[0xff], vec![6])?;
    s.set(&[0xff, 0xff], vec![7])?;
    s.set(&[0xff, 0x00], vec![8])?;
    assert_eq!(
        vec![(b"ab".to_vec(), vec![2]), (b"abc".to_vec(), vec![3])],
        s.scan_prefix(b"ab").collect()?
    );
    assert_eq!(
        vec![
            (b"a".to_vec(), vec![1]),
            (b"ab".to_vec(), vec![2]),
            (b"abc".to_vec(), vec![3]),
            (b"ac".to_vec(), vec![4])
        ],
        s.scan_prefix(b"a").collect()?
    );
    assert_eq!(
        vec![
            (vec![0xff], vec![6]),
            (vec![0xff, 0x00], vec![8]),
            (vec![0xff, 0xff], vec![7])
        ],
        s.scan_prefix(&[0xff]).collect()?
    );
    assert_eq!(Vec::<(Vec<u8>, Vec<u8>)>::new(), s.scan_prefix(b"abd").collect()?);
    Ok(())
}

#[test]
fn memory_status() -> Result<(), Error> {
    let mut s = sample()?;
    assert_eq!(
        Status {
            name: "memory".to_string(),
            key_count: 5,
            size: 8,
            total_disk_size: 0,
            live_disk_size: 0,
            garbage_disk_size: 0,
        },
        s.status()?
    );
    Ok(())
}

/// A small generator of numbers, so that the runs are the same each time.
fn step(seed: &mut u64) -> u64 {
    *seed = seed.wrapping_mul(6364136223846793005).wrapping_add(1442695040888963407);
    *seed >> 33
}

fn key(seed: &mut u64) -> Vec<u8> {
    let len = (step(seed) % 3) as usize;
    (0..len).map(|_| [0x00, 0x61, 0xff][(step(seed) % 3) as usize]).collect()
}

fn bounds(seed: &mut u64) -> (Bound, std::ops::Bound<Vec<u8>>) {
    let k = key(seed);
    match step(seed) % 3 {
        0 => (Bound::Included(k.clone()), std::ops::Bound::Included(k)),
        1 => (Bound::Excluded(k.clone()), std::ops::Bound::Excluded(k)),
        _ => (Bound::Unbounded, std::ops::Bound::Unbounded),
    }
}

/// Whether the range has a key at or before its end, as `BTreeMap::range`
/// asks of it.
fn in_order(start: &std::ops::Bound<Vec<u8>>, end: &std::ops::Bound<Vec<u8>>) -> bool {
    match (start, end) {
        (std::ops::Bound::Unbounded, _) | (_, std::ops::Bound::Unbounded) => true,
        (std::ops::Bound::Excluded(s), std::ops::Bound::Excluded(e)) => s < e,
        (std::ops::Bound::Included(s), std::ops::Bound::Included(e))
        | (std::ops::Bound::Included(s), std::ops::Bound::Excluded(e))
        | (std::ops::Bound::Excluded(s), std::ops::Bound::Included(e)) => s <= e,
    }
}

#[test]
/// The engine gives what a `BTreeMap` gives for the same calls.
fn memory_matches_btree_map() -> Result<(), Error> {
    let mut seed: u64 = 23;
    let mut m = Memory::new();
    let mut b: BTreeMap<Vec<u8>, Vec<u8>> = BTreeMap::new();
    for _ in 0..3000 {
        let k = key(&mut seed);
        match step(&mut seed) % 4 {
            0 | 1 => {
                let v = key(&mut seed);
                m.set(&k, v.clone())?;
                b.insert(k, v);
            }
            2 => {
                m.delete(&k)?;
                b.remove(&k);
            }
            _ => assert_eq!(b.get(&k).cloned(), m.get(&k)?),
        }
        let (start, std_start) = bounds(&mut seed);
        let (end, std_end) = bounds(&mut seed);
        let expect: Vec<(Vec<u8>, Vec<u8>)> = if in_order(&std_start, &std_end) {
            b.range((std_start, std_end)).map(|(k, v)| (k.clone(), v.clone())).collect()
        } else {
            vec![]
        };
        assert_eq!(expect, m.scan((start, end)).collect()?);
        let size: usize = b.iter().map(|(k, v)| k.len() + v.len()).sum();
        let status = m.status()?;
        assert_eq!(b.len() as u64, status.key_count);
        assert_eq!(size as u64, status.size);
    }
    Ok(())
}
