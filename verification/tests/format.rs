use yuudb::error::Error;
use yuudb::storage::bitcask::{reaches_threshold, BitCask, Log};
use yuudb::storage::engine::{Engine, Status};

#[test]
fn lengths_are_big_endian() -> Result<(), Error> {
    let key = vec![b'k'; 0x0102];
    let value = vec![b'v'; 0x01_0203];
    let mut log = Log::new(vec![]);
    assert_eq!((0, 8 + 0x0102 + 0x01_0203), log.append_entry(&key, Some(&value))?);
    assert_eq!(vec![0, 0, 1, 2, 0, 1, 2, 3], log.as_bytes()[..8].to_vec());
    let dir = log.build_key_dir()?;
    assert_eq!(1, dir.len());
    assert_eq!(Some(&(8 + 0x0102, 0x01_0203)), dir.get(&key));
    assert_eq!(value, log.read_value(8 + 0x0102, 0x01_0203)?);
    assert_eq!(8 + 0x0102 + 0x01_0203, log.len());
    Ok(())
}

#[test]
fn entries_are_encoded() -> Result<(), Error> {
    let mut log = Log::new(vec![]);
    assert_eq!((0, 13), log.append_entry(b"ab", Some(b"xyz"))?);
    assert_eq!((13, 10), log.append_entry(b"ab", None)?);
    assert_eq!((23, 8), log.append_entry(b"", Some(b""))?);
    assert_eq!(
        vec![
            0, 0, 0, 2, 0, 0, 0, 3, b'a', b'b', b'x', b'y', b'z', 0, 0, 0, 2, 0xff, 0xff, 0xff,
            0xff, b'a', b'b', 0, 0, 0, 0, 0, 0, 0, 0
        ],
        log.as_bytes().to_vec()
    );
    assert_eq!(31, log.len());
    Ok(())
}

#[test]
fn value_that_is_too_long_is_refused() -> Result<(), Error> {
    let mut s = BitCask::new(vec![])?;
    s.set(b"k", vec![1])?;
    let long = vec![0u8; 0x8000_0000];
    assert!(matches!(s.set(b"k", long), Err(Error::Value(_))));
    assert_eq!(Some(vec![1]), s.get(b"k")?);
    assert_eq!(10, s.log().len());
    Ok(())
}

fn status(garbage: u64, total: u64) -> Status {
    Status {
        name: "bitcask".to_string(),
        key_count: 0,
        size: 0,
        total_disk_size: total,
        live_disk_size: total - garbage,
        garbage_disk_size: garbage,
    }
}

#[test]
fn thresholds() {
    assert!(!reaches_threshold(&status(0, 100), -1, 1));
    assert!(!reaches_threshold(&status(0, 0), 0, 1));
    assert!(reaches_threshold(&status(1, 100), -1, 1));
    assert!(reaches_threshold(&status(1, 100), 0, 1));
    assert!(reaches_threshold(&status(1, 100), 1, 100));
    assert!(!reaches_threshold(&status(1, 100), 1, 99));
    assert!(reaches_threshold(&status(50, 100), 1, 2));
    assert!(!reaches_threshold(&status(49, 100), 1, 2));
    assert!(reaches_threshold(&status(100, 100), 1, 1));
    assert!(!reaches_threshold(&status(100, 100), 2, 1));
    assert!(reaches_threshold(&status(u64::MAX, u64::MAX), i64::MAX, i64::MAX as u64));
    assert!(!reaches_threshold(&status(u64::MAX - 1, u64::MAX), i64::MAX, i64::MAX as u64));
}
