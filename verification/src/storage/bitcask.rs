//! A variant of Bitcask: a log-structured key/value engine.
//!
//! One log only: no hint files, no checksums, no timestamps. The engine
//! works on the bytes of the log; the caller keeps them in a file. Every
//! write appends an entry to the log, and a key directory in memory gives
//! for each live key the place of its value in the log. Compaction writes a
//! new log that holds the live entries only.

use vstd::prelude::*;
use vstd::slice::{slice_subrange, slice_to_vec};
use crate::bound::Bound;
use crate::error::Error;
use crate::ordered_map::{
    lemma_del, lemma_put, lemma_range_same_keys, lemma_select_is_subrange,
    lemma_subrange_ascending, OrderedMap,
};
use crate::storage::engine::{Engine, Scan, Status, MAX_KEY_LEN, MAX_VALUE_LEN};
use crate::storage::format::{
    complete, encode, encode_all, entry_at, entry_len, laid_out, lemma_cut_at_valid_len,
    lemma_laid_out_parse, lemma_parse_append, lemma_parse_encode_all, lemma_parse_laid_out,
    lemma_total_len_push, parse, push_u32, read_u32, storable, total_len, valid_len, Entry,
    HEADER_LEN, TOMBSTONE,
};
use crate::storage::replay::{
    contents, data_size, directory, finds, lemma_contents_ascending, lemma_contents_of_puts,
    lemma_data_size_take, lemma_directory_finds, lemma_finds_key, lemma_live_within_log,
    lemma_rewrite_step, lemma_total_len_of_puts, puts,
};

verus! {

/// The key directory: for each live key the offset and the length of its
/// value in the log.
pub type KeyDir = OrderedMap<(u64, u32)>;

/// The entry that a key and, for a put, a value make.
pub open spec fn entry_of(key: &[u8], value: Option<&[u8]>) -> Entry {
    Entry {
        key: key@,
        value: match value {
            Some(v) => Some(v@),
            None => None,
        },
    }
}

/// The bytes of a log file.
pub struct Log {
    data: Vec<u8>,
}

impl Log {
    /// The bytes of the log.
    pub closed spec fn view(&self) -> Seq<u8> {
        self.data@
    }

    /// A log with the bytes that were found in its file.
    pub fn new(data: Vec<u8>) -> (r: Self)
        ensures
            r@ == data@,
    {
        Log { data }
    }

    /// The length of the log.
    pub fn len(&self) -> (r: u64)
        ensures
            r == self@.len(),
    {
        self.data.len() as u64
    }

    /// The bytes of the log.
    pub fn as_bytes(&self) -> (r: &[u8])
        ensures
            r@ == self@,
    {
        self.data.as_slice()
    }

    /// The length of a log fits a `u64`.
    pub proof fn lemma_len_fits(&self)
        ensures
            self@.len() <= usize::MAX,
            self@.len() <= u64::MAX,
    {
        vstd::std_specs::vec::axiom_spec_len(&self.data);
    }

    /// Takes the bytes out of the log.
    pub fn into_bytes(self) -> (r: Vec<u8>)
        ensures
            r@ == self@,
    {
        self.data
    }

    /// Reads the log from its start and builds the key directory of its
    /// complete entries. What follows the last complete entry is the rest
    /// of a write that did not finish; it is cut off.
    pub fn build_key_dir(&mut self) -> (r: Result<KeyDir, Error>)
        ensures
            final(self)@ == old(self)@.take(valid_len(old(self)@) as int),
            complete(final(self)@),
            parse(final(self)@) == parse(old(self)@),
            r matches Ok(dir) && dir.wf() && dir.entries() == directory(parse(old(self)@)),
    {
        let ghost log = self.data@;
        let ghost mut parsed = Seq::<Entry>::empty();
        let n: usize = self.data.len();
        let mut key_dir = KeyDir::new();
        let mut offset: usize = 0;
        let mut done = false;
        while !done
            invariant
                self.data@ == log,
                n == log.len(),
                offset <= n,
                laid_out(log, parsed),
                total_len(parsed) == offset,
                key_dir.wf(),
                key_dir.entries() == directory(parsed),
                done ==> entry_at(log, offset as int) is None,
            decreases n - offset + if done { 0int } else { 1int },
        {
            if n - offset < HEADER_LEN {
                done = true;
            } else {
                let key_length = read_u32(self.data.as_slice(), offset) as usize;
                let marker = read_u32(self.data.as_slice(), offset + 4);
                let rest: usize = n - offset - HEADER_LEN;
                if key_length > rest {
                    done = true;
                } else {
                    let value_offset: usize = offset + HEADER_LEN + key_length;
                    let key = slice_subrange(
                        self.data.as_slice(),
                        offset + HEADER_LEN,
                        value_offset,
                    );
                    if marker as usize <= MAX_VALUE_LEN {
                        let value_length = marker as usize;
                        if value_length > rest - key_length {
                            done = true;
                        } else {
                            proof {
                                let e = entry_at(log, offset as int).unwrap();
                                lemma_total_len_push(parsed, e);
                                assert(parsed.push(e).drop_last() =~= parsed);
                                parsed = parsed.push(e);
                            }
                            key_dir.insert(slice_to_vec(key), (value_offset as u64, marker));
                            offset = value_offset + value_length;
                        }
                    } else {
                        proof {
                            let e = entry_at(log, offset as int).unwrap();
                            lemma_total_len_push(parsed, e);
                            assert(parsed.push(e).drop_last() =~= parsed);
                            parsed = parsed.push(e);
                        }
                        key_dir.remove(key);
                        offset = value_offset;
                    }
                }
            }
        }
        proof {
            lemma_laid_out_parse(log, parsed);
            assert(parsed + Seq::<Entry>::empty() =~= parsed);
            lemma_cut_at_valid_len(log);
        }
        self.data.truncate(offset);
        Ok(key_dir)
    }

    /// Reads the `value_length` bytes that stand at `value_offset`. A place
    /// that is not all within the log gives an `Internal` error.
    pub fn read_value(&self, value_offset: u64, value_length: u32) -> (r: Result<Vec<u8>, Error>)
        ensures
            r is Ok <==> value_offset + value_length <= self@.len(),
            r matches Ok(v) ==> v@ == self@.subrange(
                value_offset as int,
                value_offset + value_length,
            ),
            r matches Err(e) ==> e is Internal,
    {
        let n = self.data.len() as u64;
        if value_offset > n || value_length as u64 > n - value_offset {
            return Err(Error::Internal("the value lies outside the log".to_owned()));
        }
        let from = value_offset as usize;
        let to = from + value_length as usize;
        Ok(slice_to_vec(slice_subrange(self.data.as_slice(), from, to)))
    }

    /// Appends an entry to the log: a put of `value` under `key`, or,
    /// without a value, a tombstone for `key`. Returns the offset at which
    /// the entry begins, and its length. A key or a value that is too long
    /// for its length field gives a `Value` error, and the log stays as it is.
    pub fn append_entry(&mut self, key: &[u8], value: Option<&[u8]>) -> (r: Result<
        (u64, u64),
        Error,
    >)
        ensures
            r is Ok <==> storable(entry_of(key, value)),
            r matches Ok(place) ==> {
                &&& place.0 == old(self)@.len()
                &&& place.1 == entry_len(entry_of(key, value))
                &&& final(self)@ == old(self)@ + encode(entry_of(key, value))
            },
            r matches Err(e) ==> e is Value && final(self)@ == old(self)@,
    {
        if key.len() > MAX_KEY_LEN {
            return Err(Error::Value("the key is too long".to_owned()));
        }
        let offset = self.data.len() as u64;
        let key_length = key.len() as u32;
        match value {
            Some(v) => {
                if v.len() > MAX_VALUE_LEN {
                    return Err(Error::Value("the value is too long".to_owned()));
                }
                push_u32(&mut self.data, key_length);
                push_u32(&mut self.data, v.len() as u32);
                self.data.extend_from_slice(key);
                self.data.extend_from_slice(v);
                assert(self.data@ =~= old(self)@ + encode(entry_of(key, value)));
                Ok((offset, HEADER_LEN as u64 + key.len() as u64 + v.len() as u64))
            },
            None => {
                push_u32(&mut self.data, key_length);
                push_u32(&mut self.data, TOMBSTONE);
                self.data.extend_from_slice(key);
                assert(self.data@ =~= old(self)@ + encode(entry_of(key, value)));
                Ok((offset, HEADER_LEN as u64 + key.len() as u64))
            },
        }
    }
}

/// Whether the garbage of a log calls for compaction: there is some, and
/// its share of the log is at least the threshold `numerator / denominator`.
pub open spec fn garbage_reaches(
    garbage: nat,
    total: nat,
    numerator: int,
    denominator: nat,
) -> bool {
    garbage > 0 && garbage * denominator >= numerator * total
}

/// The size that the live entries of a state take in a log: their data and
/// one header each.
pub open spec fn live_size(c: Seq<(Seq<u8>, Seq<u8>)>) -> nat {
    data_size(c) + 8 * c.len()
}

/// Whether a log that was just opened is compacted at once.
pub open spec fn compacts_at_open(log: Seq<u8>, numerator: int, denominator: nat) -> bool {
    garbage_reaches(
        (valid_len(log) - live_size(contents(parse(log)))) as nat,
        valid_len(log),
        numerator,
        denominator,
    )
}

/// Whether the garbage that a status reports calls for compaction at the
/// threshold `numerator / denominator`.
pub fn reaches_threshold(status: &Status, numerator: i64, denominator: u64) -> (r: bool)
    ensures
        r == garbage_reaches(
            status.garbage_disk_size as nat,
            status.total_disk_size as nat,
            numerator as int,
            denominator as nat,
        ),
{
    let garbage = status.garbage_disk_size;
    let total = status.total_disk_size;
    if garbage == 0 {
        false
    } else if numerator <= 0 {
        assert(garbage * denominator >= 0 >= numerator * total) by (nonlinear_arith)
            requires
                garbage >= 0,
                denominator >= 0,
                numerator <= 0,
                total >= 0,
        ;
        true
    } else {
        assert(garbage * denominator <= u64::MAX * u64::MAX) by (nonlinear_arith)
            requires
                0 <= garbage <= u64::MAX,
                0 <= denominator <= u64::MAX,
        ;
        assert(numerator * total <= u64::MAX * u64::MAX) by (nonlinear_arith)
            requires
                0 <= numerator <= u64::MAX,
                0 <= total <= u64::MAX,
        ;
        (garbage as u128) * (denominator as u128) >= (numerator as u128) * (total as u128)
    }
}

/// The Bitcask engine: a log and the key directory of its entries.
pub struct BitCask {
    log: Log,
    key_dir: KeyDir,
}

impl BitCask {
    /// The bytes of the log.
    pub closed spec fn bytes(&self) -> Seq<u8> {
        self.log@
    }

    /// The log ends with a complete entry, and the key directory is the
    /// directory of its entries.
    pub closed spec fn valid(&self) -> bool {
        &&& complete(self.log@)
        &&& self.key_dir.wf()
        &&& self.key_dir.entries() == directory(parse(self.log@))
    }

    /// The state: what the entries of the log leave behind.
    pub open spec fn state(&self) -> Seq<(Seq<u8>, Seq<u8>)> {
        contents(parse(self.bytes()))
    }

    /// The garbage: the part of the log that the live entries do not take.
    pub open spec fn garbage_size(&self) -> int {
        self.bytes().len() - live_size(self.state())
    }

    /// Opens the engine on the bytes of its log file. The rest of a write
    /// that did not finish is cut off the log.
    pub fn new(data: Vec<u8>) -> (r: Result<Self, Error>)
        ensures
            r matches Ok(s) && s.valid() && s.bytes() == data@.take(valid_len(data@) as int)
                && s.state() == contents(parse(data@)),
    {
        let mut log = Log::new(data);
        let key_dir = log.build_key_dir()?;
        Ok(BitCask { log, key_dir })
    }

    /// Opens the engine as `new` does, and compacts the log at once where
    /// it holds garbage and the share of the garbage is at least the
    /// threshold `numerator / denominator`. A denominator of zero gives a
    /// `Config` error.
    pub fn new_compact(data: Vec<u8>, numerator: i64, denominator: u64) -> (r: Result<Self, Error>)
        ensures
            denominator == 0 ==> (r matches Err(e) && e is Config),
            denominator > 0 ==> (r matches Ok(s) && s.valid() && s.state() == contents(
                parse(data@),
            ) && s.bytes() == if compacts_at_open(data@, numerator as int, denominator as nat) {
                encode_all(puts(contents(parse(data@))))
            } else {
                data@.take(valid_len(data@) as int)
            }),
    {
        if denominator == 0 {
            return Err(Error::Config("the threshold has the denominator zero".to_owned()));
        }
        proof {
            lemma_parse_laid_out(data@);
        }
        let mut engine = BitCask::new(data)?;
        let status = engine.status()?;
        if reaches_threshold(&status, numerator, denominator) {
            engine.compact()?;
        }
        Ok(engine)
    }

    /// Writes the log anew, with one put for each live key in key order and
    /// nothing else. The state stays as it is.
    pub fn compact(&mut self) -> (r: Result<(), Error>)
        requires
            old(self).valid(),
        ensures
            final(self).valid(),
            r is Ok,
            final(self).state() == old(self).state(),
            final(self).bytes() == encode_all(puts(old(self).state())),
            final(self).bytes().len() == live_size(old(self).state()),
            final(self).garbage_size() == 0,
    {
        let (new_log, new_key_dir) = self.write_log()?;
        self.log = new_log;
        self.key_dir = new_key_dir;
        Ok(())
    }

    /// Writes the live entries to a new log, in key order, and builds the
    /// key directory of that log.
    fn write_log(&self) -> (r: Result<(Log, KeyDir), Error>)
        requires
            self.valid(),
        ensures
            r matches Ok(pair) && {
                &&& pair.0@ == encode_all(puts(self.state()))
                &&& pair.0@.len() == live_size(self.state())
                &&& complete(pair.0@)
                &&& parse(pair.0@) == puts(self.state())
                &&& contents(parse(pair.0@)) == self.state()
                &&& pair.1.wf()
                &&& pair.1.entries() == directory(parse(pair.0@))
            },
    {
        let ghost log = self.log@;
        let ghost state = self.state();
        let ghost dir = self.key_dir.entries();
        proof {
            self.log.lemma_len_fits();
            lemma_directory_finds(log);
        }
        let mut new_log = Log::new(Vec::new());
        let mut new_key_dir = KeyDir::new();
        let n = self.key_dir.len();
        let mut i: usize = 0;
        proof {
            assert(puts(state.take(0)) =~= Seq::<Entry>::empty());
            lemma_parse_encode_all(puts(state.take(0)));
        }
        while i < n
            invariant
                log == self.log@,
                dir == self.key_dir.entries(),
                finds(dir, state, log),
                n == dir.len(),
                i <= n,
                new_log@ == encode_all(puts(state.take(i as int))),
                complete(new_log@),
                parse(new_log@) == puts(state.take(i as int)),
                new_key_dir.wf(),
                new_key_dir.entries() == directory(puts(state.take(i as int))),
            decreases n - i,
        {
            proof {
                assert(dir[i as int].0 == state[i as int].0);
                lemma_rewrite_step(state, i as int, new_log@);
            }
            let key = self.key_dir.key_at(i);
            let place = *self.key_dir.value_at(i);
            let value = self.log.read_value(place.0, place.1)?;
            let (offset, _) = new_log.append_entry(key.as_slice(), Some(value.as_slice()))?;
            proof {
                new_log.lemma_len_fits();
            }
            new_key_dir.insert(
                key.clone(),
                (offset + HEADER_LEN as u64 + key.len() as u64, place.1),
            );
            i = i + 1;
        }
        proof {
            assert(state.take(n as int) =~= state);
            lemma_contents_of_puts(state);
            lemma_total_len_of_puts(state);
        }
        Ok((new_log, new_key_dir))
    }

    /// The log.
    pub fn log(&self) -> (r: &Log)
        ensures
            r@ == self.bytes(),
    {
        &self.log
    }

    /// Gives up the engine for its log.
    pub fn into_log(self) -> (r: Log)
        ensures
            r@ == self.bytes(),
    {
        self.log
    }

    /// Accounting: the data is not larger than what is live in the log, and
    /// that is not longer than the log.
    pub proof fn lemma_live_within_total(&self)
        requires
            self.valid(),
        ensures
            data_size(self.state()) <= live_size(self.state()) <= self.bytes().len(),
            self.garbage_size() >= 0,
    {
        lemma_live_within_log(parse(self.bytes()));
    }

    /// Persistence: the log of a valid engine is complete, so that opening
    /// the engine anew on its log keeps the whole log, and gives the state
    /// that the engine is in.
    pub proof fn lemma_reopen(&self)
        requires
            self.valid(),
        ensures
            complete(self.bytes()),
            self.bytes().take(valid_len(self.bytes()) as int) == self.bytes(),
            contents(parse(self.bytes())) == self.state(),
    {
        assert(self.bytes().take(self.bytes().len() as int) =~= self.bytes());
    }
}

/// A scan of a `BitCask` engine. It reads each value from the log when the
/// entry is taken.
pub struct ScanIterator<'a> {
    engine: &'a BitCask,
    front: usize,
    back: usize,
}

impl<'a> ScanIterator<'a> {
    /// Reads the entry at index `i` of the key directory.
    fn map(&self, i: usize) -> (r: Result<(Vec<u8>, Vec<u8>), Error>)
        requires
            self.engine.valid(),
            i < self.engine.state().len(),
        ensures
            r matches Ok(e) && (e.0@, e.1@) == self.engine.state()[i as int],
    {
        proof {
            self.engine.log.lemma_len_fits();
            lemma_directory_finds(self.engine.log@);
        }
        let key = self.engine.key_dir.key_at(i);
        let place = *self.engine.key_dir.value_at(i);
        Ok((key.clone(), self.engine.log.read_value(place.0, place.1)?))
    }
}

impl<'a> Scan for ScanIterator<'a> {
    closed spec fn wf(&self) -> bool {
        &&& self.engine.valid()
        &&& self.front <= self.back <= self.engine.state().len()
    }

    closed spec fn remaining(&self) -> Seq<(Seq<u8>, Seq<u8>)> {
        self.engine.state().subrange(self.front as int, self.back as int)
    }

    proof fn lemma_remaining_ascending(&self) {
        lemma_contents_ascending(parse(self.engine.bytes()));
        lemma_subrange_ascending(self.engine.state(), self.front as int, self.back as int);
    }

    fn next(&mut self) -> (r: Option<Result<(Vec<u8>, Vec<u8>), Error>>) {
        if self.front < self.back {
            let item = self.map(self.front);
            self.front = self.front + 1;
            assert(self.remaining() =~= old(self).remaining().drop_first());
            Some(item)
        } else {
            None
        }
    }

    fn next_back(&mut self) -> (r: Option<Result<(Vec<u8>, Vec<u8>), Error>>) {
        if self.front < self.back {
            self.back = self.back - 1;
            let item = self.map(self.back);
            assert(self.remaining() =~= old(self).remaining().drop_last());
            Some(item)
        } else {
            None
        }
    }
}

impl Engine for BitCask {
    type ScanIterator<'a> = ScanIterator<'a>;

    open spec fn wf(&self) -> bool {
        self.valid()
    }

    open spec fn entries(&self) -> Seq<(Seq<u8>, Seq<u8>)> {
        self.state()
    }

    /// This engine keeps its log on disk.
    open spec fn disk(&self) -> Seq<u8> {
        self.bytes()
    }

    proof fn lemma_entries_ascending(&self) {
        lemma_contents_ascending(parse(self.bytes()));
    }

    /// Appends a put of `value` under `key` to the log. A key or a value
    /// that is too long gives a `Value` error, and nothing changes.
    fn set(&mut self, key: &[u8], value: Vec<u8>) -> (r: Result<(), Error>)
        ensures
            r is Ok <==> key@.len() <= MAX_KEY_LEN && value@.len() <= MAX_VALUE_LEN,
            r is Ok ==> final(self).bytes() == old(self).bytes() + encode(
                Entry { key: key@, value: Some(value@) },
            ),
            r matches Err(e) ==> e is Value && final(self).bytes() == old(self).bytes(),
    {
        let ghost es = parse(self.log@);
        let ghost e = Entry { key: key@, value: Some(value@) };
        proof {
            if storable(e) {
                lemma_parse_append(self.log@, e);
            }
            assert(es.push(e).drop_last() =~= es);
            lemma_contents_ascending(es);
            lemma_put(contents(es), key@, value@);
        }
        let (offset, _) = self.log.append_entry(key, Some(value.as_slice()))?;
        proof {
            self.log.lemma_len_fits();
        }
        let value_offset = offset + HEADER_LEN as u64 + key.len() as u64;
        self.key_dir.insert(slice_to_vec(key), (value_offset, value.len() as u32));
        Ok(())
    }

    fn get(&mut self, key: &[u8]) -> (r: Result<Option<Vec<u8>>, Error>) {
        proof {
            self.log.lemma_len_fits();
            lemma_directory_finds(self.log@);
            lemma_finds_key(self.key_dir.entries(), self.entries(), self.log@, key@);
        }
        match self.key_dir.get(key) {
            Some(place) => Ok(Some(self.log.read_value(place.0, place.1)?)),
            None => Ok(None),
        }
    }

    /// Appends a tombstone for `key` to the log, whether the key is live or
    /// not. A key that is too long gives a `Value` error, and nothing
    /// changes.
    fn delete(&mut self, key: &[u8]) -> (r: Result<(), Error>)
        ensures
            r is Ok <==> key@.len() <= MAX_KEY_LEN,
            r is Ok ==> final(self).bytes() == old(self).bytes() + encode(
                Entry { key: key@, value: None },
            ),
            r matches Err(e) ==> e is Value && final(self).bytes() == old(self).bytes(),
    {
        let ghost es = parse(self.log@);
        let ghost e = Entry { key: key@, value: None };
        proof {
            if storable(e) {
                lemma_parse_append(self.log@, e);
            }
            assert(es.push(e).drop_last() =~= es);
            lemma_contents_ascending(es);
            lemma_del(contents(es), key@);
        }
        self.log.append_entry(key, None)?;
        self.key_dir.remove(key);
        Ok(())
    }

    /// Nothing to do: the caller keeps the log in its file.
    fn flush(&mut self) -> (r: Result<(), Error>) {
        Ok(())
    }

    /// The status: the name `bitcask`, the number of live keys, the size of
    /// their data, the length of the log, the part of it that the live
    /// entries take with one header each, and the rest, which is garbage.
    fn status(&mut self) -> (r: Result<Status, Error>)
        ensures
            r matches Ok(s) && {
                &&& s.name@ == "bitcask"@
                &&& s.live_disk_size == live_size(old(self).entries())
                &&& s.live_disk_size == s.size + 8 * s.key_count
                &&& s.garbage_disk_size == old(self).garbage_size()
            },
    {
        let ghost state = self.entries();
        proof {
            self.log.lemma_len_fits();
            lemma_directory_finds(self.log@);
        }
        let n = self.key_dir.len();
        let mut size: u64 = 0;
        let mut i: usize = 0;
        assert(state.take(0).len() == 0);
        while i < n
            invariant
                *self == *old(self),
                self.wf(),
                state == self.entries(),
                n == state.len(),
                n == self.key_dir.entries().len(),
                i <= n,
                size == data_size(state.take(i as int)),
                data_size(state) + 8 * state.len() <= self.log@.len() <= u64::MAX,
                finds(self.key_dir.entries(), state, self.log@),
            decreases n - i,
        {
            proof {
                lemma_data_size_take(state, i as int);
                lemma_data_size_take(state, i + 1);
            }
            let key_length = self.key_dir.key_at(i).len() as u64;
            let value_length = self.key_dir.value_at(i).1 as u64;
            size = size + key_length + value_length;
            i = i + 1;
        }
        assert(state.take(n as int) =~= state);
        let key_count = n as u64;
        let total_disk_size = self.log.len();
        let live_disk_size = size + 8 * key_count;
        let garbage_disk_size = total_disk_size - live_disk_size;
        Ok(
            Status {
                name: "bitcask".to_owned(),
                key_count,
                size,
                total_disk_size,
                live_disk_size,
                garbage_disk_size,
            },
        )
    }

    fn scan<'a>(&'a mut self, range: (Bound, Bound)) -> (r: ScanIterator<'a>) {
        proof {
            self.log.lemma_len_fits();
            lemma_directory_finds(self.log@);
            lemma_range_same_keys(self.key_dir.entries(), self.entries(), range.0, range.1);
            lemma_select_is_subrange(self.entries(), range.0, range.1);
        }
        let (front, back) = self.key_dir.range(&range.0, &range.1);
        ScanIterator { engine: &*self, front, back }
    }
}

} // verus!
