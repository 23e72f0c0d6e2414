use yuudb::bound::Bound;
use yuudb::error::Error;
use yuudb::storage::bitcask::{BitCask, Log};
use yuudb::storage::engine::{Engine, Scan, Status};

type Entries = Vec<(Vec<u8>, Vec<u8>)>;

/// Creates a new BitCask engine on an empty log.
fn setup() -> Result<BitCask, Error> {
    BitCask::new(Vec::new())
}

/// All entries of the engine, in key order.
fn scan_all(s: &mut BitCask) -> Result<Entries, Error> {
    s.scan((Bound::Unbounded, Bound::Unbounded)).collect()
}

/// Writes various values primarily for testing log file handling.
///
/// - '': empty key and value
/// - a: write
/// - b: write, write
/// - c: write, delete, write
/// - d: delete, write
/// - e: write, delete
/// - f: delete
fn setup_log(s: &mut BitCask) -> Result<(), Error> {
    s.set(b"b", vec![0x01])?;
    s.set(b"b", vec![0x02])?;

    s.set(b"e", vec![0x05])?;
    s.delete(b"e")?;

    s.set(b"c", vec![0x00])?;
    s.delete(b"c")?;
    s.set(b"c", vec![0x03])?;

    s.set(b"", vec![])?;

    s.set(b"a", vec![0x01])?;

    s.delete(b"f")?;

    s.delete(b"d")?;
    s.set(b"d", vec![0x04])?;

    // Make sure the scan yields the expected results.
    assert_eq!(
        vec![
            (b"".to_vec(), vec![]),
            (b"a".to_vec(), vec![0x01]),
            (b"b".to_vec(), vec![0x02]),
            (b"c".to_vec(), vec![0x03]),
            (b"d".to_vec(), vec![0x04]),
        ],
        scan_all(s)?,
    );

    Ok(())
}

/// The log that `setup_log` writes.
fn expected_log() -> Vec<u8> {
    let mut log: Vec<u8> = Vec::new();
    log.extend_from_slice(&[0, 0, 0, 1, 0, 0, 0, 1, b'b', 0x01]);
    log.extend_from_slice(&[0, 0, 0, 1, 0, 0, 0, 1, b'b', 0x02]);
    log.extend_from_slice(&[0, 0, 0, 1, 0, 0, 0, 1, b'e', 0x05]);
    log.extend_from_slice(&[0, 0, 0, 1, 0xff, 0xff, 0xff, 0xff, b'e']);
    log.extend_from_slice(&[0, 0, 0, 1, 0, 0, 0, 1, b'c', 0x00]);
    log.extend_from_slice(&[0, 0, 0, 1, 0xff, 0xff, 0xff, 0xff, b'c']);
    log.extend_from_slice(&[0, 0, 0, 1, 0, 0, 0, 1, b'c', 0x03]);
    log.extend_from_slice(&[0, 0, 0, 0, 0, 0, 0, 0]);
    log.extend_from_slice(&[0, 0, 0, 1, 0, 0, 0, 1, b'a', 0x01]);
    log.extend_from_slice(&[0, 0, 0, 1, 0xff, 0xff, 0xff, 0xff, b'f']);
    log.extend_from_slice(&[0, 0, 0, 1, 0xff, 0xff, 0xff, 0xff, b'd']);
    log.extend_from_slice(&[0, 0, 0, 1, 0, 0, 0, 1, b'd', 0x04]);
    log
}

/// The log that compaction leaves of the log of `setup_log`.
fn expected_compacted_log() -> Vec<u8> {
    let mut log: Vec<u8> = Vec::new();
    log.extend_from_slice(&[0, 0, 0, 0, 0, 0, 0, 0]);
    log.extend_from_slice(&[0, 0, 0, 1, 0, 0, 0, 1, b'a', 0x01]);
    log.extend_from_slice(&[0, 0, 0, 1, 0, 0, 0, 1, b'b', 0x02]);
    log.extend_from_slice(&[0, 0, 0, 1, 0, 0, 0, 1, b'c', 0x03]);
    log.extend_from_slice(&[0, 0, 0, 1, 0, 0, 0, 1, b'd', 0x04]);
    log
}

#[test]
/// Tests that logs are written correctly, byte for byte.
fn log() -> Result<(), Error> {
    let mut s = setup()?;
    setup_log(&mut s)?;

    assert_eq!(expected_log(), s.log().as_bytes().to_vec());
    assert_eq!(114, s.log().len());
    Ok(())
}

#[test]
/// Tests that writing and then reading a log yields the same results.
fn reopen() -> Result<(), Error> {
    let mut s = BitCask::new(Vec::new())?;
    setup_log(&mut s)?;

    let expect = scan_all(&mut s)?;
    let file = s.into_log().into_bytes();
    let mut s = BitCask::new(file)?;
    assert_eq!(expect, scan_all(&mut s)?,);

    Ok(())
}

#[test]
/// Tests log compaction, by checking the log before and after, and checking
/// that the database contains the same results, even after reopening the log.
fn compact() -> Result<(), Error> {
    let mut s = BitCask::new(Vec::new())?;
    setup_log(&mut s)?;

    // Check the initial log.
    assert_eq!(expected_log(), s.log().as_bytes().to_vec());
    let expect = scan_all(&mut s)?;

    // Compact the log and assert the new log contents.
    s.compact()?;
    assert_eq!(expect, scan_all(&mut s)?,);
    assert_eq!(expected_compacted_log(), s.log().as_bytes().to_vec());

    // Reopen the log and assert that the contents are the same.
    let file = s.into_log().into_bytes();
    let mut s = BitCask::new(file)?;
    assert_eq!(expect, scan_all(&mut s)?,);

    Ok(())
}

#[test]
/// Tests that new_compact() will automatically compact the log when appropriate.
fn new_compact() -> Result<(), Error> {
    // Create an initial log with a few entries.
    let mut s = BitCask::new_compact(Vec::new(), 2, 10)?;
    setup_log(&mut s)?;
    let status = s.status()?;
    assert_eq!(66, status.garbage_disk_size);
    assert_eq!(114, status.total_disk_size);
    let file = s.into_log().into_bytes();

    // Test a few threshold values and assert whether they should trigger
    // compaction. The garbage ratio is 66 / 114.
    let cases: Vec<(i64, u64, bool)> = vec![
        (-1, 1, true),
        (0, 1, true),
        (66 * 1000 - 114, 114 * 1000, true),
        (66, 114, true),
        (66 * 1000 + 114, 114 * 1000, false),
        (1, 1, false),
        (2, 1, false),
    ];
    for (numerator, denominator, expect_compact) in cases.into_iter() {
        let mut s = BitCask::new_compact(file.clone(), numerator, denominator)?;
        let new_status = s.status()?;
        assert_eq!(new_status.live_disk_size, status.live_disk_size);
        if expect_compact {
            assert_eq!(new_status.total_disk_size, status.live_disk_size);
            assert_eq!(new_status.garbage_disk_size, 0);
        } else {
            assert_eq!(new_status, status);
        }
    }

    Ok(())
}

#[test]
/// Tests that a threshold with the denominator zero is refused.
fn new_compact_zero_denominator() {
    match BitCask::new_compact(Vec::new(), 1, 0) {
        Err(Error::Config(_)) => {}
        _ => panic!("expected a Config error"),
    }
}

#[test]
/// Tests that an incomplete write at the end of the log can be recovered by
/// discarding the last entry.
fn recovery() -> Result<(), Error> {
    // Create an initial log with a few entries.
    let mut log = Log::new(Vec::new());
    let mut ends = vec![];

    let (pos, len) = log.append_entry("deleted".as_bytes(), Some(&[1, 2, 3]))?;
    ends.push(pos + len);

    let (pos, len) = log.append_entry("deleted".as_bytes(), None)?;
    ends.push(pos + len);

    let (pos, len) = log.append_entry(&[], Some(&[]))?;
    ends.push(pos + len);

    let (pos, len) = log.append_entry("key".as_bytes(), Some(&[1, 2, 3, 4, 5]))?;
    ends.push(pos + len);

    assert_eq!(vec![18, 33, 41, 57], ends);
    let complete = log.into_bytes();

    // Copy the log, and truncate it at each byte, then try to open it and
    // assert that we always retain a prefix of entries.
    let size = complete.len() as u64;
    for pos in 0..=size {
        let mut truncated = complete.clone();
        truncated.truncate(pos as usize);

        let mut expect = vec![];
        if pos >= ends[0] {
            expect.push((b"deleted".to_vec(), vec![1, 2, 3]))
        }
        if pos >= ends[1] {
            expect.pop(); // "deleted" key removed
        }
        if pos >= ends[2] {
            expect.push((b"".to_vec(), vec![]))
        }
        if pos >= ends[3] {
            expect.push((b"key".to_vec(), vec![1, 2, 3, 4, 5]))
        }

        let mut s = BitCask::new(truncated)?;
        assert_eq!(expect, scan_all(&mut s)?);

        // The rest of the unfinished write is cut off.
        let kept = ends.iter().filter(|end| **end <= pos).max().copied().unwrap_or(0);
        assert_eq!(kept, s.log().len());
        assert_eq!(complete[..kept as usize].to_vec(), s.log().as_bytes().to_vec());
    }

    Ok(())
}

#[test]
/// Tests status(), both for a log with known garbage, and after compacting
/// it when the live size must equal the log size.
fn status_full() -> Result<(), Error> {
    let mut s = setup()?;
    setup_log(&mut s)?;

    // Before compaction.
    assert_eq!(
        s.status()?,
        Status {
            name: "bitcask".to_string(),
            key_count: 5,
            size: 8,
            total_disk_size: 114,
            live_disk_size: 48,
            garbage_disk_size: 66
        }
    );

    // After compaction.
    s.compact()?;
    assert_eq!(
        s.status()?,
        Status {
            name: "bitcask".to_string(),
            key_count: 5,
            size: 8,
            total_disk_size: 48,
            live_disk_size: 48,
            garbage_disk_size: 0,
        }
    );

    Ok(())
}

#[test]
/// Tests point reads after writes and deletes.
fn get_after_set_and_delete() -> Result<(), Error> {
    let mut s = setup()?;
    setup_log(&mut s)?;
    assert_eq!(Some(vec![]), s.get(b"")?);
    assert_eq!(Some(vec![0x01]), s.get(b"a")?);
    assert_eq!(Some(vec![0x02]), s.get(b"b")?);
    assert_eq!(Some(vec![0x03]), s.get(b"c")?);
    assert_eq!(Some(vec![0x04]), s.get(b"d")?);
    assert_eq!(None, s.get(b"e")?);
    assert_eq!(None, s.get(b"f")?);
    assert_eq!(None, s.get(b"ab")?);
    Ok(())
}

#[test]
/// Tests that a delete of an absent key still writes a tombstone.
fn delete_absent_key_appends_tombstone() -> Result<(), Error> {
    let mut s = setup()?;
    s.delete(b"x")?;
    assert_eq!(vec![0, 0, 0, 1, 0xff, 0xff, 0xff, 0xff, b'x'], s.log().as_bytes().to_vec());
    let status = s.status()?;
    assert_eq!(0, status.key_count);
    assert_eq!(9, status.total_disk_size);
    assert_eq!(0, status.live_disk_size);
    assert_eq!(9, status.garbage_disk_size);
    Ok(())
}

#[test]
/// Tests that any negative value marker is read as a tombstone.
fn negative_marker_is_tombstone() -> Result<(), Error> {
    let mut file: Vec<u8> = Vec::new();
    file.extend_from_slice(&[0, 0, 0, 1, 0, 0, 0, 1, b'k', 7]);
    file.extend_from_slice(&[0, 0, 0, 1, 0x80, 0, 0, 0, b'k']);
    let mut s = BitCask::new(file)?;
    assert_eq!(None, s.get(b"k")?);
    assert_eq!(19, s.log().len());
    Ok(())
}

#[test]
/// Tests reads by place in the log.
fn read_value_by_place() -> Result<(), Error> {
    let mut log = Log::new(Vec::new());
    let (pos, len) = log.append_entry(b"key", Some(&[9, 8, 7]))?;
    assert_eq!((0, 14), (pos, len));
    assert_eq!(vec![9, 8, 7], log.read_value(11, 3)?);
    assert_eq!(vec![8], log.read_value(12, 1)?);
    assert_eq!(Vec::<u8>::new(), log.read_value(14, 0)?);
    assert!(matches!(log.read_value(12, 3), Err(Error::Internal(_))));
    assert!(matches!(log.read_value(15, 0), Err(Error::Internal(_))));
    Ok(())
}

#[test]
/// Tests the key directory that is built from a log.
fn key_dir_of_log() -> Result<(), Error> {
    let mut log = Log::new(expected_log());
    let dir = log.build_key_dir()?;
    assert_eq!(5, dir.len());
    assert_eq!(Some(&(76, 0)), dir.get(b""));
    assert_eq!(Some(&(85, 1)), dir.get(b"a"));
    assert_eq!(Some(&(19, 1)), dir.get(b"b"));
    assert_eq!(Some(&(67, 1)), dir.get(b"c"));
    assert_eq!(Some(&(113, 1)), dir.get(b"d"));
    assert_eq!(None, dir.get(b"e"));
    Ok(())
}

#[test]
/// Tests that scans can be consumed from both ends.
fn scan_both_ends() -> Result<(), Error> {
    let mut s = setup()?;
    setup_log(&mut s)?;
    let mut scan = s.scan((Bound::Included(b"a".to_vec()), Bound::Excluded(b"d".to_vec())));
    assert_eq!(Some(Ok((b"a".to_vec(), vec![0x01]))), scan.next());
    assert_eq!(Some(Ok((b"c".to_vec(), vec![0x03]))), scan.next_back());
    assert_eq!(Some(Ok((b"b".to_vec(), vec![0x02]))), scan.next_back());
    assert_eq!(None, scan.next());
    assert_eq!(None, scan.next_back());
    Ok(())
}

#[test]
/// Tests scans by prefix.
fn scan_prefix_bitcask() -> Result<(), Error> {
    let mut s = setup()?;
    s.set(b"a", vec![1])?;
    s.set(b"ab", vec![2])?;
    s.set(b"abc", vec![3])?;
    s.set(b"ac", vec![4])?;
    s.set(b"b", vec![5])?;
    s.set(&[0xff], vec![6])?;
    s.set(&[0xff, 0xff], vec![7])?;
    s.set(&[0xff, 0x00], vec![8])?;
    assert_eq!(
        vec![(b"ab".to_vec(), vec![2]), (b"abc".to_vec(), vec![3])],
        s.scan_prefix(b"ab").collect()?
    );
    assert_eq!(
        vec![
            (vec![0xff], vec![6]),
            (vec![0xff, 0x00], vec![8]),
            (vec![0xff, 0xff], vec![7])
        ],
        s.scan_prefix(&[0xff]).collect()?
    );
    assert_eq!(vec![(vec![0xff, 0xff], vec![7])], s.scan_prefix(&[0xff, 0xff]).collect()?);
    assert_eq!(8, s.scan_prefix(b"").collect()?.len());
    Ok(())
}
