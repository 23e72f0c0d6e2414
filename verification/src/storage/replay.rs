//! What a log means: the state that its entries leave behind, and the
//! directory that finds each live value in the log.

use vstd::prelude::*;
use crate::order::lex_lt;
use crate::ordered_map::{
    ascending, del, has_key, lemma_del, lemma_put, lemma_rank_bounds, lemma_rank_same_keys,
    lemma_rank_unique, put, rank,
};
use crate::storage::engine::{MAX_KEY_LEN, MAX_VALUE_LEN};
use crate::storage::format::{
    complete, encode, encode_all, fitting, laid_out, lemma_entry_at_fits, lemma_laid_out_fits,
    lemma_parse_append, lemma_parse_laid_out, lemma_truncation_recovery, parse, storable,
    total_len, Entry, HEADER_LEN,
};

verus! {

/// The state that the entries leave, in key order: each key with the value
/// of its last put, unless a tombstone for it came later.
pub open spec fn contents(es: Seq<Entry>) -> Seq<(Seq<u8>, Seq<u8>)>
    decreases es.len(),
{
    if es.len() == 0 {
        Seq::empty()
    } else {
        let before = contents(es.drop_last());
        match es.last().value {
            Some(v) => put(before, es.last().key, v),
            None => del(before, es.last().key),
        }
    }
}

/// The offset at which the value bytes of the last entry of `es` begin.
pub open spec fn last_value_offset(es: Seq<Entry>) -> nat {
    total_len(es.drop_last()) + HEADER_LEN as nat + es.last().key.len()
}

/// The key directory of the entries, in key order: each live key with the
/// offset and the length of its value in the log.
pub open spec fn directory(es: Seq<Entry>) -> Seq<(Seq<u8>, (u64, u32))>
    decreases es.len(),
{
    if es.len() == 0 {
        Seq::empty()
    } else {
        let before = directory(es.drop_last());
        match es.last().value {
            Some(v) => put(
                before,
                es.last().key,
                (last_value_offset(es) as u64, v.len() as u32),
            ),
            None => del(before, es.last().key),
        }
    }
}

/// What a directory finds in a log: each key with the bytes at its place.
pub open spec fn read_through(d: Seq<(Seq<u8>, (u64, u32))>, log: Seq<u8>) -> Seq<
    (Seq<u8>, Seq<u8>),
> {
    Seq::new(
        d.len(),
        |i: int| (d[i].0, log.subrange(d[i].1.0 as int, d[i].1.0 as int + d[i].1.1 as int)),
    )
}

/// The size of the data: the lengths of all keys and values together.
pub open spec fn data_size(c: Seq<(Seq<u8>, Seq<u8>)>) -> nat
    decreases c.len(),
{
    if c.len() == 0 {
        0
    } else {
        data_size(c.drop_last()) + c.last().0.len() + c.last().1.len()
    }
}

/// The state that entries leave is in strictly ascending key order.
pub proof fn lemma_contents_ascending(es: Seq<Entry>)
    ensures
        ascending(contents(es)),
    decreases es.len(),
{
    if es.len() > 0 {
        let before = contents(es.drop_last());
        lemma_contents_ascending(es.drop_last());
        match es.last().value {
            Some(v) => lemma_put(before, es.last().key, v),
            None => lemma_del(before, es.last().key),
        }
    }
}

/// The key directory is in strictly ascending key order.
pub proof fn lemma_directory_ascending(es: Seq<Entry>)
    ensures
        ascending(directory(es)),
    decreases es.len(),
{
    if es.len() > 0 {
        let before = directory(es.drop_last());
        lemma_directory_ascending(es.drop_last());
        match es.last().value {
            Some(v) => lemma_put(
                before,
                es.last().key,
                (last_value_offset(es) as u64, v.len() as u32),
            ),
            None => lemma_del(before, es.last().key),
        }
    }
}

/// The size of the data up to an index is not more than the size of all.
pub proof fn lemma_data_size_take(c: Seq<(Seq<u8>, Seq<u8>)>, n: int)
    requires
        0 <= n <= c.len(),
    ensures
        data_size(c.take(n)) <= data_size(c),
        n < c.len() ==> data_size(c.take(n + 1)) == data_size(c.take(n)) + c[n].0.len()
            + c[n].1.len(),
    decreases c.len() - n,
{
    if n < c.len() {
        assert(c.take(n + 1).drop_last() =~= c.take(n));
        lemma_data_size_take(c, n + 1);
    } else {
        assert(c.take(n) =~= c);
    }
}

/// An entry more adds its key and its value to the size of the data.
pub proof fn lemma_data_size_insert(c: Seq<(Seq<u8>, Seq<u8>)>, i: int, e: (Seq<u8>, Seq<u8>))
    requires
        0 <= i <= c.len(),
    ensures
        data_size(c.insert(i, e)) == data_size(c) + e.0.len() + e.1.len(),
    decreases c.len(),
{
    let longer = c.insert(i, e);
    if i == c.len() {
        assert(longer.drop_last() =~= c);
    } else {
        assert(longer.drop_last() =~= c.drop_last().insert(i, e));
        assert(longer.last() == c.last());
        lemma_data_size_insert(c.drop_last(), i, e);
    }
}

/// An entry less takes its key and its value from the size of the data.
pub proof fn lemma_data_size_remove(c: Seq<(Seq<u8>, Seq<u8>)>, i: int)
    requires
        0 <= i < c.len(),
    ensures
        data_size(c.remove(i)) + c[i].0.len() + c[i].1.len() == data_size(c),
    decreases c.len(),
{
    let shorter = c.remove(i);
    if i == c.len() - 1 {
        assert(shorter =~= c.drop_last());
    } else {
        assert(shorter.drop_last() =~= c.drop_last().remove(i));
        assert(shorter.last() == c.last());
        lemma_data_size_remove(c.drop_last(), i);
    }
}

/// An entry in place of another changes the size of the data by the
/// difference of the two.
pub proof fn lemma_data_size_update(c: Seq<(Seq<u8>, Seq<u8>)>, i: int, e: (Seq<u8>, Seq<u8>))
    requires
        0 <= i < c.len(),
    ensures
        data_size(c.update(i, e)) + c[i].0.len() + c[i].1.len() == data_size(c) + e.0.len()
            + e.1.len(),
{
    lemma_data_size_remove(c, i);
    lemma_data_size_insert(c.remove(i), i, e);
    assert(c.remove(i).insert(i, e) =~= c.update(i, e));
}

/// A put adds at most one entry with its header to what is live; the value
/// it replaces, if any, is no longer counted.
pub proof fn lemma_data_size_put(c: Seq<(Seq<u8>, Seq<u8>)>, key: Seq<u8>, value: Seq<u8>)
    ensures
        data_size(put(c, key, value)) + 8 * put(c, key, value).len() <= data_size(c) + 8 * c.len()
            + 8 + key.len() + value.len(),
{
    lemma_rank_bounds(c, key);
    if has_key(c, key) {
        lemma_data_size_update(c, rank(c, key), (key, value));
    } else {
        lemma_data_size_insert(c, rank(c, key), (key, value));
    }
}

/// A removal does not add to what is live.
pub proof fn lemma_data_size_del(c: Seq<(Seq<u8>, Seq<u8>)>, key: Seq<u8>)
    ensures
        data_size(del(c, key)) + 8 * del(c, key).len() <= data_size(c) + 8 * c.len(),
{
    lemma_rank_bounds(c, key);
    if has_key(c, key) {
        lemma_data_size_remove(c, rank(c, key));
    }
}

/// Accounting: the live data, with one header for each live key, is not
/// more than the entries take in the log.
pub proof fn lemma_live_within_log(es: Seq<Entry>)
    ensures
        data_size(contents(es)) + 8 * contents(es).len() <= total_len(es),
    decreases es.len(),
{
    if es.len() > 0 {
        let before = contents(es.drop_last());
        lemma_live_within_log(es.drop_last());
        match es.last().value {
            Some(v) => lemma_data_size_put(before, es.last().key, v),
            None => lemma_data_size_del(before, es.last().key),
        }
    }
}

/// The directory finds the state: it holds the keys of the state, and at
/// the place it gives for a key the log holds the value of that key.
pub proof fn lemma_directory_reads(log: Seq<u8>, es: Seq<Entry>)
    requires
        laid_out(log, es),
        log.len() <= u64::MAX,
    ensures
        read_through(directory(es), log) == contents(es),
        directory(es).len() == contents(es).len(),
        forall|i: int|
            0 <= i < directory(es).len() ==> {
                &&& (#[trigger] directory(es)[i]).0 == contents(es)[i].0
                &&& directory(es)[i].1.1 == contents(es)[i].1.len()
                &&& directory(es)[i].1.0 + directory(es)[i].1.1 <= total_len(es)
            },
    decreases es.len(),
{
    if es.len() == 0 {
        assert(read_through(directory(es), log) =~= contents(es));
    } else {
        let d = es.drop_last();
        let e = es.last();
        let at = total_len(d) as int;
        lemma_directory_reads(log, d);
        lemma_laid_out_fits(log, es);
        lemma_entry_at_fits(log, at);
        let dir = directory(d);
        let dir2 = directory(es);
        let con = contents(d);
        let con2 = contents(es);
        assert forall|i: int| 0 <= i < dir.len() implies #[trigger] dir[i].0 == con[i].0 by {}
        lemma_rank_same_keys(dir, con, e.key);
        lemma_rank_bounds(dir, e.key);
        let r = rank(dir, e.key);
        match e.value {
            Some(v) => {
                let off = last_value_offset(es);
                assert(log.subrange(off as int, off as int + v.len() as int) == v);
                assert(dir2.len() == con2.len());
                assert forall|i: int| 0 <= i < dir2.len() implies {
                    &&& (#[trigger] dir2[i]).0 == con2[i].0
                    &&& dir2[i].1.1 == con2[i].1.len()
                    &&& dir2[i].1.0 + dir2[i].1.1 <= total_len(es)
                    &&& log.subrange(
                        dir2[i].1.0 as int,
                        dir2[i].1.0 as int + dir2[i].1.1 as int,
                    ) == con2[i].1
                } by {
                    if has_key(dir, e.key) {
                        if i != r {
                            assert(dir2[i] == dir[i]);
                            assert(con2[i] == con[i]);
                            assert(read_through(dir, log)[i] == con[i]);
                        }
                    } else {
                        if i < r {
                            assert(dir2[i] == dir[i]);
                            assert(con2[i] == con[i]);
                            assert(read_through(dir, log)[i] == con[i]);
                        } else if i > r {
                            assert(dir2[i] == dir[i - 1]);
                            assert(con2[i] == con[i - 1]);
                            assert(read_through(dir, log)[i - 1] == con[i - 1]);
                        }
                    }
                }
                assert(read_through(dir2, log) =~= con2);
            },
            None => {
                assert(dir2.len() == con2.len());
                assert forall|i: int| 0 <= i < dir2.len() implies {
                    &&& (#[trigger] dir2[i]).0 == con2[i].0
                    &&& dir2[i].1.1 == con2[i].1.len()
                    &&& dir2[i].1.0 + dir2[i].1.1 <= total_len(es)
                    &&& log.subrange(
                        dir2[i].1.0 as int,
                        dir2[i].1.0 as int + dir2[i].1.1 as int,
                    ) == con2[i].1
                } by {
                    if has_key(dir, e.key) {
                        if i < r {
                            assert(dir2[i] == dir[i]);
                            assert(con2[i] == con[i]);
                            assert(read_through(dir, log)[i] == con[i]);
                        } else {
                            assert(dir2[i] == dir[i + 1]);
                            assert(con2[i] == con[i + 1]);
                            assert(read_through(dir, log)[i + 1] == con[i + 1]);
                        }
                    } else {
                        assert(dir2[i] == dir[i]);
                        assert(con2[i] == con[i]);
                        assert(read_through(dir, log)[i] == con[i]);
                    }
                }
                assert(read_through(dir2, log) =~= con2);
            },
        }
    }
}

/// The puts that write the state `c` anew: one for each entry, in key order.
pub open spec fn puts(c: Seq<(Seq<u8>, Seq<u8>)>) -> Seq<Entry> {
    c.map_values(|e: (Seq<u8>, Seq<u8>)| Entry { key: e.0, value: Some(e.1) })
}

/// Replaying the puts of a state gives that state.
pub proof fn lemma_contents_of_puts(c: Seq<(Seq<u8>, Seq<u8>)>)
    requires
        ascending(c),
    ensures
        contents(puts(c)) == c,
    decreases c.len(),
{
    if c.len() == 0 {
        assert(contents(puts(c)) =~= c);
    } else {
        let d = c.drop_last();
        let last = c.last();
        assert(puts(c).drop_last() =~= puts(d));
        assert(ascending(d)) by {
            assert forall|i: int, j: int|
                #![trigger d[i], d[j]]
                0 <= i < j < d.len() implies lex_lt(d[i].0, d[j].0) by {
                assert(lex_lt(c[i].0, c[j].0));
            }
        }
        lemma_contents_of_puts(d);
        assert forall|i: int| 0 <= i < d.len() implies lex_lt(#[trigger] d[i].0, last.0) by {
            assert(lex_lt(c[i].0, c[c.len() - 1].0));
        }
        lemma_rank_unique(d, last.0, d.len() as int);
        assert(put(d, last.0, last.1) =~= c);
    }
}

/// A log of puts takes one header more than its data for each of them.
pub proof fn lemma_total_len_of_puts(c: Seq<(Seq<u8>, Seq<u8>)>)
    ensures
        total_len(puts(c)) == data_size(c) + 8 * c.len(),
        forall|i: int|
            0 <= i < c.len() ==> (#[trigger] puts(c)[i]) == (Entry {
                key: c[i].0,
                value: Some(c[i].1),
            }),
    decreases c.len(),
{
    if c.len() > 0 {
        assert(puts(c).drop_last() =~= puts(c.drop_last()));
        lemma_total_len_of_puts(c.drop_last());
    }
}

/// The directory `dir` finds the state `state` in `log`: it holds the keys
/// of the state, each with a place within the log at which the value of
/// the key stands; the keys and values are short enough to be stored.
pub open spec fn finds(
    dir: Seq<(Seq<u8>, (u64, u32))>,
    state: Seq<(Seq<u8>, Seq<u8>)>,
    log: Seq<u8>,
) -> bool {
    &&& dir.len() == state.len()
    &&& forall|i: int|
        0 <= i < dir.len() ==> {
            &&& (#[trigger] dir[i]).0 == state[i].0
            &&& dir[i].1.1 == state[i].1.len()
            &&& dir[i].1.0 + dir[i].1.1 <= log.len()
            &&& log.subrange(dir[i].1.0 as int, dir[i].1.0 + dir[i].1.1) == state[i].1
            &&& state[i].0.len() <= MAX_KEY_LEN
            &&& state[i].1.len() <= MAX_VALUE_LEN
        }
}

/// The state that storable entries leave holds storable keys and values.
pub proof fn lemma_contents_storable(es: Seq<Entry>)
    requires
        forall|i: int| 0 <= i < es.len() ==> storable(#[trigger] es[i]),
    ensures
        forall|i: int|
            0 <= i < contents(es).len() ==> (#[trigger] contents(es)[i]).0.len() <= MAX_KEY_LEN
                && contents(es)[i].1.len() <= MAX_VALUE_LEN,
    decreases es.len(),
{
    if es.len() > 0 {
        let d = es.drop_last();
        let before = contents(d);
        let after = contents(es);
        let e = es.last();
        assert forall|i: int| 0 <= i < d.len() implies storable(#[trigger] d[i]) by {
            assert(d[i] == es[i]);
        }
        lemma_contents_storable(d);
        lemma_rank_bounds(before, e.key);
        let r = rank(before, e.key);
        assert(storable(es[es.len() - 1]));
        assert forall|i: int| 0 <= i < after.len() implies (#[trigger] after[i]).0.len()
            <= MAX_KEY_LEN && after[i].1.len() <= MAX_VALUE_LEN by {
            match e.value {
                Some(v) => {
                    if has_key(before, e.key) {
                        if i != r {
                            assert(after[i] == before[i]);
                        }
                    } else {
                        if i < r {
                            assert(after[i] == before[i]);
                        } else if i > r {
                            assert(after[i] == before[i - 1]);
                        }
                    }
                },
                None => {
                    if has_key(before, e.key) {
                        if i < r {
                            assert(after[i] == before[i]);
                        } else {
                            assert(after[i] == before[i + 1]);
                        }
                    } else {
                        assert(after[i] == before[i]);
                    }
                },
            }
        }
    }
}

/// The directory of a complete log finds the state of the log in it. The
/// live entries, with one header each, are not longer than the log.
pub proof fn lemma_directory_finds(log: Seq<u8>)
    requires
        complete(log),
        log.len() <= u64::MAX,
    ensures
        ascending(directory(parse(log))),
        ascending(contents(parse(log))),
        finds(directory(parse(log)), contents(parse(log)), log),
        data_size(contents(parse(log))) + 8 * contents(parse(log)).len() <= log.len(),
{
    let es = parse(log);
    let dir = directory(es);
    let con = contents(es);
    lemma_parse_laid_out(log);
    lemma_directory_reads(log, es);
    lemma_directory_ascending(es);
    lemma_contents_ascending(es);
    lemma_live_within_log(es);
    lemma_contents_storable(es);
    assert forall|i: int| 0 <= i < dir.len() implies log.subrange(
        (#[trigger] dir[i]).1.0 as int,
        dir[i].1.0 + dir[i].1.1,
    ) == con[i].1 by {
        assert(read_through(dir, log)[i] == con[i]);
    }
}

/// A directory that finds a state holds a key where the state holds it,
/// and at the same index.
pub proof fn lemma_finds_key(
    dir: Seq<(Seq<u8>, (u64, u32))>,
    state: Seq<(Seq<u8>, Seq<u8>)>,
    log: Seq<u8>,
    key: Seq<u8>,
)
    requires
        finds(dir, state, log),
    ensures
        0 <= rank(dir, key) <= dir.len(),
        rank(dir, key) == rank(state, key),
        has_key(dir, key) == has_key(state, key),
{
    lemma_rank_same_keys(dir, state, key);
    lemma_rank_bounds(dir, key);
}

/// Truncation recovery: a log that was cut off at `t` holds the state that
/// the longest run of complete entries of the whole log within `t` bytes
/// leaves.
pub proof fn lemma_truncated_state(log: Seq<u8>, t: int)
    requires
        0 <= t <= log.len(),
    ensures
        contents(parse(log.take(t))) == contents(parse(log).take(fitting(parse(log), t))),
{
    lemma_truncation_recovery(log, t);
}

/// One step of writing a state anew: the put of its entry `i` behind the
/// puts of the entries before it.
pub proof fn lemma_rewrite_step(state: Seq<(Seq<u8>, Seq<u8>)>, i: int, log: Seq<u8>)
    requires
        0 <= i < state.len(),
        state[i].0.len() <= MAX_KEY_LEN,
        state[i].1.len() <= MAX_VALUE_LEN,
        log == encode_all(puts(state.take(i))),
        complete(log),
        parse(log) == puts(state.take(i)),
    ensures
        ({
            let e = Entry { key: state[i].0, value: Some(state[i].1) };
            let longer = log + encode(e);
            &&& storable(e)
            &&& longer == encode_all(puts(state.take(i + 1)))
            &&& complete(longer)
            &&& parse(longer) == puts(state.take(i + 1))
            &&& directory(puts(state.take(i + 1))) == put(
                directory(puts(state.take(i))),
                e.key,
                ((log.len() + 8 + e.key.len()) as u64, state[i].1.len() as u32),
            )
        }),
{
    let e = Entry { key: state[i].0, value: Some(state[i].1) };
    let written = puts(state.take(i));
    let next = puts(state.take(i + 1));
    assert(state.take(i + 1).drop_last() =~= state.take(i));
    assert(next.drop_last() =~= written);
    assert(next.last() == e);
    lemma_parse_append(log, e);
    assert(written.push(e) =~= next);
}

} // verus!
