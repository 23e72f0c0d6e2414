//! An engine that keeps its data in memory, in an ordered map.

use vstd::prelude::*;
use vstd::slice::slice_to_vec;
use crate::bound::Bound;
use crate::error::Error;
use crate::order::lex_lt;
use crate::ordered_map::{
    ascending, del, has_key, lemma_del, lemma_put, lemma_range_same_keys, lemma_rank_bounds,
    lemma_rank_same_keys, lemma_select_is_subrange, lemma_subrange_ascending, lookup, put, rank,
    OrderedMap,
};
use crate::storage::engine::{Engine, Scan, Status};
use crate::storage::replay::{data_size, lemma_data_size_take};

verus! {

/// The entries of a map of byte vectors as byte sequences.
pub open spec fn views(s: Seq<(Seq<u8>, Vec<u8>)>) -> Seq<(Seq<u8>, Seq<u8>)> {
    s.map_values(|e: (Seq<u8>, Vec<u8>)| (e.0, e.1@))
}

/// Binding, removing and finding a key go through `views`.
pub proof fn lemma_views(s: Seq<(Seq<u8>, Vec<u8>)>, key: Seq<u8>)
    ensures
        ascending(s) == ascending(views(s)),
        rank(views(s), key) == rank(s, key),
        has_key(views(s), key) == has_key(s, key),
        lookup(views(s), key) == match lookup(s, key) {
            Some(v) => Some(v@),
            None => None,
        },
        views(del(s, key)) == del(views(s), key),
        forall|value: Vec<u8>| #[trigger] views(put(s, key, value)) == put(views(s), key, value@),
{
    let t = views(s);
    lemma_rank_same_keys(t, s, key);
    lemma_rank_bounds(s, key);
    if ascending(s) {
        assert forall|i: int, j: int| #![trigger t[i], t[j]] 0 <= i < j < t.len() implies lex_lt(
            t[i].0,
            t[j].0,
        ) by {
            assert(lex_lt(s[i].0, s[j].0));
        }
    }
    if ascending(t) {
        assert forall|i: int, j: int| #![trigger s[i], s[j]] 0 <= i < j < s.len() implies lex_lt(
            s[i].0,
            s[j].0,
        ) by {
            assert(lex_lt(t[i].0, t[j].0));
        }
    }
    assert(views(del(s, key)) =~= del(t, key));
    assert forall|value: Vec<u8>| #[trigger] views(put(s, key, value)) == put(t, key, value@) by {
        assert(views(put(s, key, value)) =~= put(t, key, value@));
    }
}

/// An engine that keeps its data in memory.
pub struct Memory {
    data: OrderedMap<Vec<u8>>,
}

impl Memory {
    /// An empty engine.
    pub fn new() -> (r: Self)
        ensures
            r.wf(),
            r.entries() == Seq::<(Seq<u8>, Seq<u8>)>::empty(),
    {
        let r = Memory { data: OrderedMap::new() };
        assert(r.entries() =~= Seq::<(Seq<u8>, Seq<u8>)>::empty());
        r
    }
}

/// A scan of a `Memory` engine.
pub struct ScanIterator<'a> {
    data: &'a OrderedMap<Vec<u8>>,
    front: usize,
    back: usize,
}

impl<'a> Scan for ScanIterator<'a> {
    closed spec fn wf(&self) -> bool {
        &&& self.data.wf()
        &&& self.front <= self.back <= self.data.entries().len()
    }

    closed spec fn remaining(&self) -> Seq<(Seq<u8>, Seq<u8>)> {
        views(self.data.entries()).subrange(self.front as int, self.back as int)
    }

    proof fn lemma_remaining_ascending(&self) {
        lemma_views(self.data.entries(), Seq::empty());
        lemma_subrange_ascending(
            views(self.data.entries()),
            self.front as int,
            self.back as int,
        );
    }

    fn next(&mut self) -> (r: Option<Result<(Vec<u8>, Vec<u8>), Error>>) {
        if self.front < self.back {
            let key = self.data.key_at(self.front).clone();
            let value = self.data.value_at(self.front).clone();
            self.front = self.front + 1;
            assert(self.remaining() =~= old(self).remaining().drop_first());
            Some(Ok((key, value)))
        } else {
            None
        }
    }

    fn next_back(&mut self) -> (r: Option<Result<(Vec<u8>, Vec<u8>), Error>>) {
        if self.front < self.back {
            self.back = self.back - 1;
            let key = self.data.key_at(self.back).clone();
            let value = self.data.value_at(self.back).clone();
            assert(self.remaining() =~= old(self).remaining().drop_last());
            Some(Ok((key, value)))
        } else {
            None
        }
    }
}

impl Engine for Memory {
    type ScanIterator<'a> = ScanIterator<'a>;

    closed spec fn wf(&self) -> bool {
        self.data.wf()
    }

    closed spec fn entries(&self) -> Seq<(Seq<u8>, Seq<u8>)> {
        views(self.data.entries())
    }

    /// This engine keeps nothing on disk.
    open spec fn disk(&self) -> Seq<u8> {
        Seq::empty()
    }

    proof fn lemma_entries_ascending(&self) {
        lemma_views(self.data.entries(), Seq::empty());
    }

    /// Binds `key` to `value`. This engine takes keys and values of any
    /// length.
    fn set(&mut self, key: &[u8], value: Vec<u8>) -> (r: Result<(), Error>)
        ensures
            r is Ok,
    {
        proof {
            lemma_views(self.data.entries(), key@);
            lemma_put(self.entries(), key@, value@);
        }
        self.data.insert(slice_to_vec(key), value);
        Ok(())
    }

    fn get(&mut self, key: &[u8]) -> (r: Result<Option<Vec<u8>>, Error>) {
        proof {
            lemma_views(self.data.entries(), key@);
        }
        match self.data.get(key) {
            Some(v) => Ok(Some(v.clone())),
            None => Ok(None),
        }
    }

    /// Removes `key` and its value. This engine takes keys of any length.
    fn delete(&mut self, key: &[u8]) -> (r: Result<(), Error>)
        ensures
            r is Ok,
    {
        proof {
            lemma_views(self.data.entries(), key@);
            lemma_del(self.entries(), key@);
        }
        self.data.remove(key);
        Ok(())
    }

    /// Nothing to do: this engine keeps nothing on disk.
    fn flush(&mut self) -> (r: Result<(), Error>) {
        Ok(())
    }

    /// The status: the name `memory`, the number of keys, and the size of
    /// the data. The sizes on disk are zero. Where the size of the data does
    /// not fit a `u64` the result is an `Internal` error.
    fn status(&mut self) -> (r: Result<Status, Error>)
        ensures
            r is Ok <==> data_size(old(self).entries()) <= u64::MAX,
            r matches Ok(s) ==> {
                &&& s.name@ == "memory"@
                &&& s.total_disk_size == 0
                &&& s.live_disk_size == 0
                &&& s.garbage_disk_size == 0
            },
            r matches Err(e) ==> e is Internal,
    {
        let ghost all = self.entries();
        let n = self.data.len();
        let mut size: u64 = 0;
        let mut i: usize = 0;
        assert(all.take(0).len() == 0);
        while i < n
            invariant
                self.wf(),
                *self == *old(self),
                all == self.entries(),
                n == all.len(),
                i <= n,
                size == data_size(all.take(i as int)),
            decreases n - i,
        {
            proof {
                lemma_data_size_take(all, i as int);
                lemma_data_size_take(all, i + 1);
            }
            let key_len = self.data.key_at(i).len() as u64;
            let value_len = self.data.value_at(i).len() as u64;
            let with_key = match size.checked_add(key_len) {
                Some(s) => s,
                None => {
                    return Err(Error::Internal("the size of the data overflows".to_owned()));
                },
            };
            size = match with_key.checked_add(value_len) {
                Some(s) => s,
                None => {
                    return Err(Error::Internal("the size of the data overflows".to_owned()));
                },
            };
            i = i + 1;
        }
        assert(all.take(n as int) =~= all);
        Ok(
            Status {
                name: "memory".to_owned(),
                key_count: n as u64,
                size,
                total_disk_size: 0,
                live_disk_size: 0,
                garbage_disk_size: 0,
            },
        )
    }

    fn scan<'a>(&'a mut self, range: (Bound, Bound)) -> (r: ScanIterator<'a>) {
        proof {
            lemma_views(self.data.entries(), Seq::empty());
            lemma_range_same_keys(self.data.entries(), self.entries(), range.0, range.1);
            lemma_select_is_subrange(self.entries(), range.0, range.1);
        }
        let (front, back) = self.data.range(&range.0, &range.1);
        ScanIterator { data: &self.data, front, back }
    }
}

} // verus!
