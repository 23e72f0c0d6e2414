//! The log file format.
//!
//! A log is a run of entries with nothing between them. Each entry is:
//!
//! - the key length, a big-endian `u32`;
//! - the value marker, a big-endian `i32`: the value length, or a negative
//!   number for a tombstone;
//! - the key bytes;
//! - the value bytes (none for a tombstone).
//!
//! An entry is complete where all of these fit into the log. A log is read
//! from its start up to the first entry that is not complete.

use vstd::prelude::*;
use crate::storage::engine::{MAX_KEY_LEN, MAX_VALUE_LEN};

verus! {

/// The number of bytes in front of the key: the two length fields.
pub const HEADER_LEN: usize = 8;

/// The marker that is written for a tombstone: -1 as a big-endian `i32`.
pub const TOMBSTONE: u32 = 0xffff_ffff;

/// One log entry: a put of `value` under `key`, or, without a value, a
/// tombstone for `key`.
pub struct Entry {
    pub key: Seq<u8>,
    pub value: Option<Seq<u8>>,
}

/// The four bytes of `x` in big-endian order.
pub open spec fn be32(x: nat) -> Seq<u8> {
    seq![
        (x / 0x100_0000 % 0x100) as u8,
        (x / 0x1_0000 % 0x100) as u8,
        (x / 0x100 % 0x100) as u8,
        (x % 0x100) as u8,
    ]
}

/// The number that the first four bytes of `b` hold in big-endian order.
pub open spec fn from_be32(b: Seq<u8>) -> nat {
    (b[0] * 0x100_0000 + b[1] * 0x1_0000 + b[2] * 0x100 + b[3]) as nat
}

/// The key and the value are short enough for their length fields.
pub open spec fn storable(e: Entry) -> bool {
    &&& e.key.len() <= MAX_KEY_LEN
    &&& match e.value {
        Some(v) => v.len() <= MAX_VALUE_LEN,
        None => true,
    }
}

/// The length of the value bytes of an entry.
pub open spec fn value_len(e: Entry) -> nat {
    match e.value {
        Some(v) => v.len(),
        None => 0,
    }
}

/// The length of an entry in the log.
pub open spec fn entry_len(e: Entry) -> nat {
    HEADER_LEN as nat + e.key.len() + value_len(e)
}

/// The bytes of an entry in the log.
pub open spec fn encode(e: Entry) -> Seq<u8> {
    match e.value {
        Some(v) => be32(e.key.len()) + be32(v.len()) + e.key + v,
        None => be32(e.key.len()) + be32(TOMBSTONE as nat) + e.key,
    }
}

/// The complete entry that starts at `offset`, if there is one.
pub open spec fn entry_at(log: Seq<u8>, offset: int) -> Option<Entry> {
    if 0 <= offset && offset + 8 <= log.len() {
        let k = from_be32(log.subrange(offset, offset + 4));
        let m = from_be32(log.subrange(offset + 4, offset + 8));
        if m <= MAX_VALUE_LEN {
            if offset + 8 + k + m <= log.len() {
                Some(
                    Entry {
                        key: log.subrange(offset + 8, offset + 8 + k),
                        value: Some(log.subrange(offset + 8 + k, offset + 8 + k + m)),
                    },
                )
            } else {
                None
            }
        } else {
            if offset + 8 + k <= log.len() {
                Some(Entry { key: log.subrange(offset + 8, offset + 8 + k), value: None })
            } else {
                None
            }
        }
    } else {
        None
    }
}

/// The complete entries from `offset` on, in log order.
pub open spec fn parse_from(log: Seq<u8>, offset: int) -> Seq<Entry>
    decreases log.len() - offset,
{
    match entry_at(log, offset) {
        Some(e) => seq![e] + parse_from(log, offset + entry_len(e)),
        None => Seq::empty(),
    }
}

/// The complete entries of a log, in log order.
pub open spec fn parse(log: Seq<u8>) -> Seq<Entry> {
    parse_from(log, 0)
}

/// The length of a run of entries in the log.
pub open spec fn total_len(es: Seq<Entry>) -> nat
    decreases es.len(),
{
    if es.len() == 0 {
        0
    } else {
        total_len(es.drop_last()) + entry_len(es.last())
    }
}

/// The length of the part of a log that its complete entries fill.
pub open spec fn valid_len(log: Seq<u8>) -> nat {
    total_len(parse(log))
}

/// The log ends with its last complete entry.
pub open spec fn complete(log: Seq<u8>) -> bool {
    valid_len(log) == log.len()
}

/// The entries `es` stand at the start of `log`, one behind the other.
pub open spec fn laid_out(log: Seq<u8>, es: Seq<Entry>) -> bool
    decreases es.len(),
{
    es.len() == 0 || (laid_out(log, es.drop_last()) && entry_at(
        log,
        total_len(es.drop_last()) as int,
    ) == Some(es.last()))
}

/// The log that holds the entries `es` and nothing else.
pub open spec fn encode_all(es: Seq<Entry>) -> Seq<u8>
    decreases es.len(),
{
    if es.len() == 0 {
        Seq::empty()
    } else {
        encode_all(es.drop_last()) + encode(es.last())
    }
}

/// Reading the big-endian bytes of a `u32` gives the number back.
pub proof fn lemma_be32_round_trip(x: nat)
    requires
        x <= u32::MAX,
    ensures
        be32(x).len() == 4,
        from_be32(be32(x)) == x,
{
}

/// A complete entry lies within the log, and its parts can be stored.
pub proof fn lemma_entry_at_fits(log: Seq<u8>, offset: int)
    requires
        entry_at(log, offset) is Some,
    ensures
        0 <= offset,
        offset + entry_len(entry_at(log, offset).unwrap()) <= log.len(),
        storable(entry_at(log, offset).unwrap()),
{
    let b = log.subrange(offset, offset + 4);
    assert(from_be32(b) <= u32::MAX);
}

/// A complete entry stays what it is when the log grows.
pub proof fn lemma_entry_at_extend(log: Seq<u8>, more: Seq<u8>, offset: int)
    requires
        entry_at(log, offset) is Some,
    ensures
        entry_at(log + more, offset) == entry_at(log, offset),
{
    let long = log + more;
    assert(long.subrange(offset, offset + 4) =~= log.subrange(offset, offset + 4));
    assert(long.subrange(offset + 4, offset + 8) =~= log.subrange(offset + 4, offset + 8));
    let k = from_be32(log.subrange(offset, offset + 4));
    let m = from_be32(log.subrange(offset + 4, offset + 8));
    assert(long.subrange(offset + 8, offset + 8 + k) =~= log.subrange(offset + 8, offset + 8 + k));
    if m <= MAX_VALUE_LEN {
        assert(long.subrange(offset + 8 + k, offset + 8 + k + m) =~= log.subrange(
            offset + 8 + k,
            offset + 8 + k + m,
        ));
    }
}

/// In a log cut off at `t`, the complete entries are those of the whole log
/// that end at or before `t`.
pub proof fn lemma_entry_at_take(log: Seq<u8>, t: int, offset: int)
    requires
        0 <= t <= log.len(),
    ensures
        entry_at(log.take(t), offset) == match entry_at(log, offset) {
            Some(e) => if offset + entry_len(e) <= t {
                Some(e)
            } else {
                None
            },
            None => None,
        },
{
    let short = log.take(t);
    if 0 <= offset && offset + 8 <= t {
        assert(short.subrange(offset, offset + 4) =~= log.subrange(offset, offset + 4));
        assert(short.subrange(offset + 4, offset + 8) =~= log.subrange(offset + 4, offset + 8));
        let k = from_be32(log.subrange(offset, offset + 4));
        let m = from_be32(log.subrange(offset + 4, offset + 8));
        if offset + 8 + k <= t {
            assert(short.subrange(offset + 8, offset + 8 + k) =~= log.subrange(
                offset + 8,
                offset + 8 + k,
            ));
            if m <= MAX_VALUE_LEN && offset + 8 + k + m <= t {
                assert(short.subrange(offset + 8 + k, offset + 8 + k + m) =~= log.subrange(
                    offset + 8 + k,
                    offset + 8 + k + m,
                ));
            }
        }
    }
}

/// The entry that was written at the end of a log is read back there.
pub proof fn lemma_entry_at_encoded(log: Seq<u8>, e: Entry)
    requires
        storable(e),
    ensures
        entry_at(log + encode(e), log.len() as int) == Some(e),
        (log + encode(e)).len() == log.len() + entry_len(e),
{
    let n = log.len() as int;
    let long = log + encode(e);
    let k = e.key.len();
    lemma_be32_round_trip(k);
    assert(long.subrange(n, n + 4) =~= be32(k));
    assert(long.subrange(n + 8, n + 8 + k) =~= e.key);
    match e.value {
        Some(v) => {
            lemma_be32_round_trip(v.len());
            assert(long.subrange(n + 4, n + 8) =~= be32(v.len()));
            assert(long.subrange(n + 8 + k, n + 8 + k + v.len()) =~= v);
        },
        None => {
            lemma_be32_round_trip(TOMBSTONE as nat);
            assert(long.subrange(n + 4, n + 8) =~= be32(TOMBSTONE as nat));
        },
    }
}

/// Reads the big-endian `u32` that stands at `at`.
pub(crate) fn read_u32(bytes: &[u8], at: usize) -> (r: u32)
    requires
        at + 4 <= bytes@.len(),
    ensures
        r == from_be32(bytes@.subrange(at as int, at + 4)),
{
    let b0: u32 = bytes[at] as u32;
    let b1: u32 = bytes[at + 1] as u32;
    let b2: u32 = bytes[at + 2] as u32;
    let b3: u32 = bytes[at + 3] as u32;
    b0 * 0x100_0000 + b1 * 0x1_0000 + b2 * 0x100 + b3
}

/// Appends the four bytes of `x` in big-endian order.
pub(crate) fn push_u32(out: &mut Vec<u8>, x: u32)
    ensures
        final(out)@ == old(out)@ + be32(x as nat),
{
    out.push((x / 0x100_0000) as u8);
    out.push((x / 0x1_0000 % 0x100) as u8);
    out.push((x / 0x100 % 0x100) as u8);
    out.push((x % 0x100) as u8);
    assert(out@ =~= old(out)@ + be32(x as nat));
}

/// The number of entries at the start of `es` that fit into `t` bytes.
pub open spec fn fitting(es: Seq<Entry>, t: int) -> int
    decreases es.len(),
{
    if es.len() == 0 {
        0
    } else if total_len(es) <= t {
        es.len() as int
    } else {
        fitting(es.drop_last(), t)
    }
}

/// A run of entries grows by the length of the entry appended to it.
pub proof fn lemma_total_len_push(es: Seq<Entry>, e: Entry)
    ensures
        total_len(es.push(e)) == total_len(es) + entry_len(e),
{
    assert(es.push(e).drop_last() =~= es);
}

/// A shorter run of the same entries is not longer in bytes.
pub proof fn lemma_total_len_take(es: Seq<Entry>, n: int)
    requires
        0 <= n <= es.len(),
    ensures
        total_len(es.take(n)) <= total_len(es),
        n < es.len() ==> total_len(es.take(n + 1)) == total_len(es.take(n)) + entry_len(es[n]),
        n < es.len() ==> total_len(es.take(n + 1)) <= total_len(es),
    decreases es.len() - n,
{
    if n < es.len() {
        assert(es.take(n + 1).drop_last() =~= es.take(n));
        lemma_total_len_take(es, n + 1);
    } else {
        assert(es.take(n) =~= es);
    }
}

/// What `fitting` finds: the longest run at the start of `es` that is at
/// most `t` bytes long.
pub proof fn lemma_fitting(es: Seq<Entry>, t: int)
    requires
        0 <= t,
    ensures
        0 <= fitting(es, t) <= es.len(),
        total_len(es.take(fitting(es, t))) <= t,
        fitting(es, t) < es.len() ==> total_len(es.take(fitting(es, t) + 1)) > t,
        total_len(es) <= t ==> fitting(es, t) == es.len(),
    decreases es.len(),
{
    if es.len() == 0 {
        assert(es.take(0) =~= es);
    } else if total_len(es) <= t {
        assert(es.take(es.len() as int) =~= es);
    } else {
        let d = es.drop_last();
        lemma_fitting(d, t);
        let n = fitting(d, t);
        assert(d.take(n) =~= es.take(n));
        if n < d.len() {
            assert(d.take(n + 1) =~= es.take(n + 1));
        } else {
            assert(es.take(n + 1) =~= es);
        }
    }
}

/// Entries that are laid out in a log lie within it and can be stored.
pub proof fn lemma_laid_out_fits(log: Seq<u8>, es: Seq<Entry>)
    requires
        laid_out(log, es),
    ensures
        total_len(es) <= log.len(),
        forall|i: int| 0 <= i < es.len() ==> storable(#[trigger] es[i]),
    decreases es.len(),
{
    if es.len() > 0 {
        let d = es.drop_last();
        lemma_laid_out_fits(log, d);
        lemma_entry_at_fits(log, total_len(d) as int);
        assert forall|i: int| 0 <= i < es.len() implies storable(#[trigger] es[i]) by {
            if i < d.len() {
                assert(es[i] == d[i]);
            }
        }
    }
}

/// Each entry of a laid-out run stands where the entries before it end.
pub proof fn lemma_laid_out_at(log: Seq<u8>, es: Seq<Entry>, n: int)
    requires
        laid_out(log, es),
        0 <= n <= es.len(),
    ensures
        laid_out(log, es.take(n)),
        n < es.len() ==> entry_at(log, total_len(es.take(n)) as int) == Some(es[n]),
    decreases es.len() - n,
{
    if n == es.len() {
        assert(es.take(n) =~= es);
    } else {
        lemma_laid_out_at(log, es, n + 1);
        assert(es.take(n + 1).drop_last() =~= es.take(n));
    }
}

/// Entries that are laid out at the start of a log are the first that
/// parsing finds; it goes on behind them.
pub proof fn lemma_laid_out_parse(log: Seq<u8>, es: Seq<Entry>)
    requires
        laid_out(log, es),
    ensures
        parse(log) == es + parse_from(log, total_len(es) as int),
    decreases es.len(),
{
    if es.len() == 0 {
        assert(es + parse_from(log, 0) =~= parse_from(log, 0));
    } else {
        let d = es.drop_last();
        let e = es.last();
        lemma_laid_out_parse(log, d);
        let rest = parse_from(log, total_len(es) as int);
        assert(parse_from(log, total_len(d) as int) == seq![e] + rest);
        assert(d + (seq![e] + rest) =~= es + rest);
    }
}

/// Entries that are laid out in a log stay so with the entries that parsing
/// finds behind them, and behind those no complete entry follows.
proof fn lemma_parse_from_laid_out(log: Seq<u8>, es: Seq<Entry>)
    requires
        laid_out(log, es),
    ensures
        laid_out(log, es + parse_from(log, total_len(es) as int)),
        entry_at(log, total_len(es + parse_from(log, total_len(es) as int)) as int) is None,
    decreases log.len() - total_len(es),
{
    let at = total_len(es) as int;
    lemma_laid_out_fits(log, es);
    match entry_at(log, at) {
        Some(e) => {
            let longer = es.push(e);
            assert(longer.drop_last() =~= es);
            lemma_entry_at_fits(log, at);
            lemma_total_len_push(es, e);
            lemma_parse_from_laid_out(log, longer);
            assert(es + parse_from(log, at) =~= longer + parse_from(log, total_len(longer) as int));
        },
        None => {
            assert(es + parse_from(log, at) =~= es);
        },
    }
}

/// The complete entries of a log are laid out in it, and behind them no
/// complete entry follows.
pub proof fn lemma_parse_laid_out(log: Seq<u8>)
    ensures
        laid_out(log, parse(log)),
        valid_len(log) <= log.len(),
        entry_at(log, valid_len(log) as int) is None,
        forall|i: int| 0 <= i < parse(log).len() ==> storable(#[trigger] parse(log)[i]),
{
    let none = Seq::<Entry>::empty();
    lemma_parse_from_laid_out(log, none);
    assert(none + parse_from(log, 0) =~= parse_from(log, 0));
    lemma_laid_out_fits(log, parse(log));
}

/// Entries that are laid out in a log are laid out in every log that
/// begins with it.
pub proof fn lemma_laid_out_extend(log: Seq<u8>, more: Seq<u8>, es: Seq<Entry>)
    requires
        laid_out(log, es),
    ensures
        laid_out(log + more, es),
    decreases es.len(),
{
    if es.len() > 0 {
        lemma_laid_out_extend(log, more, es.drop_last());
        lemma_entry_at_extend(log, more, total_len(es.drop_last()) as int);
    }
}

/// Entries that are laid out in a log are laid out in what is left of it
/// after a cut behind them.
pub proof fn lemma_laid_out_take(log: Seq<u8>, t: int, es: Seq<Entry>)
    requires
        laid_out(log, es),
        total_len(es) <= t <= log.len(),
    ensures
        laid_out(log.take(t), es),
    decreases es.len(),
{
    if es.len() > 0 {
        lemma_laid_out_take(log, t, es.drop_last());
        lemma_entry_at_take(log, t, total_len(es.drop_last()) as int);
    }
}

/// Entries that are laid out in a log and fill it are its complete entries.
pub proof fn lemma_laid_out_whole(log: Seq<u8>, es: Seq<Entry>)
    requires
        laid_out(log, es),
        total_len(es) == log.len(),
    ensures
        parse(log) == es,
        complete(log),
{
    lemma_laid_out_parse(log, es);
    assert(entry_at(log, log.len() as int) is None);
    assert(es + Seq::<Entry>::empty() =~= es);
}

/// Appending an entry to a complete log appends it to the entries of the
/// log, and leaves the log complete.
pub proof fn lemma_parse_append(log: Seq<u8>, e: Entry)
    requires
        complete(log),
        storable(e),
    ensures
        parse(log + encode(e)) == parse(log).push(e),
        complete(log + encode(e)),
{
    let es = parse(log);
    let longer = es.push(e);
    lemma_parse_laid_out(log);
    lemma_laid_out_extend(log, encode(e), es);
    lemma_entry_at_encoded(log, e);
    assert(longer.drop_last() =~= es);
    lemma_total_len_push(es, e);
    lemma_laid_out_whole(log + encode(e), longer);
}

/// A log that was written entry by entry holds those entries and is
/// complete.
pub proof fn lemma_parse_encode_all(es: Seq<Entry>)
    requires
        forall|i: int| 0 <= i < es.len() ==> storable(#[trigger] es[i]),
    ensures
        parse(encode_all(es)) == es,
        complete(encode_all(es)),
        encode_all(es).len() == total_len(es),
    decreases es.len(),
{
    if es.len() == 0 {
        assert(entry_at(encode_all(es), 0) is None);
        assert(parse(encode_all(es)) =~= es);
    } else {
        let d = es.drop_last();
        assert forall|i: int| 0 <= i < d.len() implies storable(#[trigger] d[i]) by {
            assert(d[i] == es[i]);
        }
        lemma_parse_encode_all(d);
        lemma_parse_append(encode_all(d), es.last());
        assert(d.push(es.last()) =~= es);
    }
}

/// Truncation recovery: the complete entries of a log that was cut off at
/// `t` are the longest run of complete entries of the whole log that fits
/// into `t` bytes; the entry behind that run no longer fits.
pub proof fn lemma_truncation_recovery(log: Seq<u8>, t: int)
    requires
        0 <= t <= log.len(),
    ensures
        parse(log.take(t)) == parse(log).take(fitting(parse(log), t)),
        valid_len(log.take(t)) == total_len(parse(log).take(fitting(parse(log), t))),
        0 <= fitting(parse(log), t) <= parse(log).len(),
        total_len(parse(log).take(fitting(parse(log), t))) <= t,
        fitting(parse(log), t) < parse(log).len() ==> total_len(
            parse(log).take(fitting(parse(log), t) + 1),
        ) > t,
{
    let es = parse(log);
    let n = fitting(es, t);
    let kept = es.take(n);
    let at = total_len(kept) as int;
    lemma_parse_laid_out(log);
    lemma_fitting(es, t);
    lemma_laid_out_at(log, es, n);
    lemma_laid_out_take(log, t, kept);
    lemma_laid_out_parse(log.take(t), kept);
    lemma_entry_at_take(log, t, at);
    if n < es.len() {
        lemma_total_len_take(es, n);
    } else {
        assert(kept =~= es);
    }
    assert(entry_at(log.take(t), at) is None);
    assert(kept + Seq::<Entry>::empty() =~= kept);
}

/// A log that is cut off behind its last complete entry is complete and
/// holds the same entries.
pub proof fn lemma_cut_at_valid_len(log: Seq<u8>)
    ensures
        valid_len(log) <= log.len(),
        complete(log.take(valid_len(log) as int)),
        parse(log.take(valid_len(log) as int)) == parse(log),
{
    let es = parse(log);
    let v = valid_len(log) as int;
    lemma_parse_laid_out(log);
    lemma_truncation_recovery(log, v);
    lemma_fitting(es, v);
    assert(es.take(es.len() as int) =~= es);
}

} // verus!
