//! The contract of a key/value storage engine.
//!
//! The state of an engine is its sequence of entries in strictly ascending
//! key order. Every operation is stated over that sequence, so that two
//! engines that start from the same state and see the same calls stay in
//! the same state and give the same answers.

use vstd::prelude::*;
use crate::bound::{lemma_select_prefix, prefix_range, select, select_prefix, Bound};
use crate::error::Error;
use crate::ordered_map::{as_map, ascending, del, lookup, put};
use crate::storage::replay::data_size;

verus! {

/// The greatest length of a key.
pub const MAX_KEY_LEN: usize = 0xffff_ffff;

/// The greatest length of a value.
pub const MAX_VALUE_LEN: usize = 0x7fff_ffff;

/// The status of a storage engine.
#[derive(Clone, Debug, PartialEq, Eq)]
pub struct Status {
    /// The name of the engine.
    pub name: String,
    /// The number of live keys.
    pub key_count: u64,
    /// The logical size of the live keys and values.
    pub size: u64,
    /// The size of all data on disk, live and garbage.
    pub total_disk_size: u64,
    /// The size of the live data on disk.
    pub live_disk_size: u64,
    /// The size of the garbage on disk.
    pub garbage_disk_size: u64,
}

/// The key and the value of an entry as byte sequences.
pub open spec fn entry_view(e: (Vec<u8>, Vec<u8>)) -> (Seq<u8>, Seq<u8>) {
    (e.0@, e.1@)
}

/// A list of entries as byte sequences.
pub open spec fn entries_view(v: Seq<(Vec<u8>, Vec<u8>)>) -> Seq<(Seq<u8>, Seq<u8>)> {
    v.map_values(|e: (Vec<u8>, Vec<u8>)| entry_view(e))
}

/// What a lookup gives, as a byte sequence.
pub open spec fn found_view(found: Option<Vec<u8>>) -> Option<Seq<u8>> {
    match found {
        Some(v) => Some(v@),
        None => None,
    }
}

/// A scan in progress: an ordered run of entries that is consumed from
/// both ends.
pub trait Scan {
    /// The scan is in a valid state.
    spec fn wf(&self) -> bool;

    /// The entries that are still to come, in ascending key order.
    spec fn remaining(&self) -> Seq<(Seq<u8>, Seq<u8>)>;

    /// Scan ordering: the entries that remain are in strictly ascending key
    /// order. So `next` gives keys in ascending order, `next_back` gives
    /// them in descending order, and the two take from the two ends of one
    /// run.
    proof fn lemma_remaining_ascending(&self)
        requires
            self.wf(),
        ensures
            ascending(self.remaining()),
    ;

    /// Takes the entry with the least key of those that remain.
    fn next(&mut self) -> (r: Option<Result<(Vec<u8>, Vec<u8>), Error>>)
        requires
            old(self).wf(),
        ensures
            final(self).wf(),
            match r {
                Some(Ok(e)) => old(self).remaining().len() > 0 && entry_view(e) == old(
                    self,
                ).remaining().first() && final(self).remaining() == old(
                    self,
                ).remaining().drop_first(),
                Some(Err(_)) => false,
                None => old(self).remaining().len() == 0 && final(self).remaining() == old(
                    self,
                ).remaining(),
            },
    ;

    /// Takes the entry with the greatest key of those that remain.
    fn next_back(&mut self) -> (r: Option<Result<(Vec<u8>, Vec<u8>), Error>>)
        requires
            old(self).wf(),
        ensures
            final(self).wf(),
            match r {
                Some(Ok(e)) => old(self).remaining().len() > 0 && entry_view(e) == old(
                    self,
                ).remaining().last() && final(self).remaining() == old(
                    self,
                ).remaining().drop_last(),
                Some(Err(_)) => false,
                None => old(self).remaining().len() == 0 && final(self).remaining() == old(
                    self,
                ).remaining(),
            },
    ;

    /// Takes all entries that remain, in ascending key order.
    fn collect(&mut self) -> (r: Result<Vec<(Vec<u8>, Vec<u8>)>, Error>)
        requires
            old(self).wf(),
        ensures
            final(self).wf(),
            final(self).remaining().len() == 0,
            r matches Ok(v) && entries_view(v@) == old(self).remaining(),
    {
        let mut out: Vec<(Vec<u8>, Vec<u8>)> = Vec::new();
        let ghost all = self.remaining();
        assert(entries_view(out@) + self.remaining() =~= all);
        loop
            invariant
                self.wf(),
                all == old(self).remaining(),
                entries_view(out@) + self.remaining() == all,
            decreases self.remaining().len(),
        {
            let ghost before = self.remaining();
            let ghost taken = entries_view(out@);
            match self.next() {
                Some(Ok(e)) => {
                    out.push(e);
                    assert(entries_view(out@) =~= taken.push(entry_view(e)));
                    assert(taken.push(before.first()) + before.drop_first() =~= taken + before);
                },
                Some(Err(e)) => {
                    return Err(e);
                },
                None => {
                    assert(entries_view(out@) + self.remaining() =~= entries_view(out@));
                    return Ok(out);
                },
            }
        }
    }
}

/// A key/value storage engine for one thread.
pub trait Engine: Send + Sync {
    /// The scan that `scan` and `scan_prefix` return.
    type ScanIterator<'a>: Scan where Self: 'a;

    /// The engine is in a valid state.
    spec fn wf(&self) -> bool;

    /// The state: the live keys with their values, in ascending key order.
    spec fn entries(&self) -> Seq<(Seq<u8>, Seq<u8>)>;

    /// What the engine keeps on disk: the bytes of its file. An engine
    /// without a file keeps nothing.
    spec fn disk(&self) -> Seq<u8>;

    /// The state is in strictly ascending key order: no key occurs twice.
    proof fn lemma_entries_ascending(&self)
        requires
            self.wf(),
        ensures
            ascending(self.entries()),
    ;

    /// Binds `key` to `value`. A key or a value that is too long may be
    /// refused, and then nothing changes.
    fn set(&mut self, key: &[u8], value: Vec<u8>) -> (r: Result<(), Error>)
        requires
            old(self).wf(),
        ensures
            final(self).wf(),
            key@.len() <= MAX_KEY_LEN && value@.len() <= MAX_VALUE_LEN ==> r is Ok,
            r is Ok ==> final(self).entries() == put(old(self).entries(), key@, value@),
            r is Ok ==> as_map(final(self).entries()) == as_map(old(self).entries()).insert(
                key@,
                value@,
            ),
            r is Err ==> final(self).entries() == old(self).entries(),
            r is Err ==> final(self).disk() == old(self).disk(),
    ;

    /// The value of `key`, if it has one. Nothing changes, in the state or
    /// on disk.
    fn get(&mut self, key: &[u8]) -> (r: Result<Option<Vec<u8>>, Error>)
        requires
            old(self).wf(),
        ensures
            final(self).wf(),
            final(self).entries() == old(self).entries(),
            final(self).disk() == old(self).disk(),
            r matches Ok(found) && found_view(found) == lookup(old(self).entries(), key@),
            r matches Ok(found) && found_view(found) == as_map(old(self).entries()).get(key@),
    ;

    /// Removes `key` and its value; no change where it has none. A key that
    /// is too long may be refused.
    fn delete(&mut self, key: &[u8]) -> (r: Result<(), Error>)
        requires
            old(self).wf(),
        ensures
            final(self).wf(),
            key@.len() <= MAX_KEY_LEN ==> r is Ok,
            r is Ok ==> final(self).entries() == del(old(self).entries(), key@),
            r is Ok ==> as_map(final(self).entries()) == as_map(old(self).entries()).remove(key@),
            r is Err ==> final(self).entries() == old(self).entries(),
            r is Err ==> final(self).disk() == old(self).disk(),
    ;

    /// Makes what was written durable. Nothing changes, in the state or on
    /// disk.
    fn flush(&mut self) -> (r: Result<(), Error>)
        requires
            old(self).wf(),
        ensures
            final(self).wf(),
            final(self).entries() == old(self).entries(),
            final(self).disk() == old(self).disk(),
            r is Ok,
    ;

    /// The status of the engine: the number of keys, the size of the data,
    /// and the size on disk, which is made up of what is live and what is
    /// garbage. It is owed where the size of the data fits a `u64`. Nothing
    /// changes, in the state or on disk.
    fn status(&mut self) -> (r: Result<Status, Error>)
        requires
            old(self).wf(),
        ensures
            final(self).wf(),
            final(self).entries() == old(self).entries(),
            final(self).disk() == old(self).disk(),
            data_size(old(self).entries()) <= u64::MAX ==> r is Ok,
            r matches Ok(s) ==> {
                &&& s.key_count == old(self).entries().len()
                &&& s.size == data_size(old(self).entries())
                &&& s.total_disk_size == old(self).disk().len()
                &&& s.total_disk_size == s.live_disk_size + s.garbage_disk_size
            },
    ;

    /// A scan of the entries whose key lies in the range, in ascending key
    /// order. The engine is borrowed until the scan is dropped, and is then
    /// as it was.
    fn scan<'a>(&'a mut self, range: (Bound, Bound)) -> (r: Self::ScanIterator<'a>)
        requires
            old(self).wf(),
        ensures
            r.wf(),
            r.remaining() == select(old(self).entries(), range.0, range.1),
            final(self).wf(),
            final(self).entries() == old(self).entries(),
            final(self).disk() == old(self).disk(),
    ;

    /// A scan of the entries whose key begins with `prefix`.
    fn scan_prefix<'a>(&'a mut self, prefix: &[u8]) -> (r: Self::ScanIterator<'a>)
        requires
            old(self).wf(),
        ensures
            r.wf(),
            r.remaining() == select_prefix(old(self).entries(), prefix@),
            final(self).wf(),
            final(self).entries() == old(self).entries(),
            final(self).disk() == old(self).disk(),
    {
        let range = prefix_range(prefix);
        proof {
            lemma_select_prefix(self.entries(), prefix@, range.0, range.1);
        }
        self.scan(range)
    }
}

} // verus!
