//! Histories of writes: what a run of sets and deletes leaves in an engine,
//! and in the log of the Bitcask engine.

use vstd::prelude::*;
use crate::bound::{select, select_prefix, Bound};
use crate::ordered_map::{del, lookup, put};
use crate::storage::bitcask::BitCask;
use crate::storage::engine::{Engine, MAX_KEY_LEN, MAX_VALUE_LEN};
use crate::storage::format::{
    complete, encode, encode_all, lemma_parse_encode_all, parse, storable, Entry,
};
use crate::storage::memory::Memory;
use crate::storage::replay::contents;

verus! {

/// A write to an engine.
pub enum Write {
    /// `set(key, value)`.
    Put { key: Seq<u8>, value: Seq<u8> },
    /// `delete(key)`.
    Delete { key: Seq<u8> },
}

/// The key and the value of the write are within the limits of the data
/// model, so that every engine accepts it.
pub open spec fn accepted(w: Write) -> bool {
    match w {
        Write::Put { key, value } => key.len() <= MAX_KEY_LEN && value.len() <= MAX_VALUE_LEN,
        Write::Delete { key } => key.len() <= MAX_KEY_LEN,
    }
}

/// The state of an engine after one more write, as `Engine::set` and
/// `Engine::delete` give it.
pub open spec fn apply(state: Seq<(Seq<u8>, Seq<u8>)>, w: Write) -> Seq<(Seq<u8>, Seq<u8>)> {
    match w {
        Write::Put { key, value } => put(state, key, value),
        Write::Delete { key } => del(state, key),
    }
}

/// The state of an engine that was empty and has seen the writes `ws`.
pub open spec fn state_after(ws: Seq<Write>) -> Seq<(Seq<u8>, Seq<u8>)>
    decreases ws.len(),
{
    if ws.len() == 0 {
        Seq::empty()
    } else {
        apply(state_after(ws.drop_last()), ws.last())
    }
}

/// The log entry that the Bitcask engine appends for a write.
pub open spec fn entry_for(w: Write) -> Entry {
    match w {
        Write::Put { key, value } => Entry { key, value: Some(value) },
        Write::Delete { key } => Entry { key, value: None },
    }
}

/// The log of a Bitcask engine that was empty and has seen the writes `ws`.
pub open spec fn log_after(ws: Seq<Write>) -> Seq<u8>
    decreases ws.len(),
{
    if ws.len() == 0 {
        Seq::empty()
    } else {
        log_after(ws.drop_last()) + encode(entry_for(ws.last()))
    }
}

/// After a run of accepted writes, the log of the Bitcask engine is
/// complete, holds the entries of the writes, and with them the state that
/// the writes leave in every engine that follows the engine contract.
pub proof fn lemma_log_holds_history(ws: Seq<Write>)
    requires
        forall|i: int| 0 <= i < ws.len() ==> accepted(#[trigger] ws[i]),
    ensures
        complete(log_after(ws)),
        parse(log_after(ws)) == ws.map_values(|w: Write| entry_for(w)),
        contents(parse(log_after(ws))) == state_after(ws),
    decreases ws.len(),
{
    let es = ws.map_values(|w: Write| entry_for(w));
    assert forall|i: int| 0 <= i < es.len() implies storable(#[trigger] es[i]) by {
        assert(accepted(ws[i]));
    }
    lemma_parse_encode_all(es);
    lemma_log_is_encoding(ws);
    lemma_contents_of_history(ws);
}

/// Functional equivalence: a Bitcask engine and a memory engine that were
/// empty and have seen the same accepted writes are in the same state, so
/// that every read and every scan gives the same answer on both. What is
/// asked of the two engines here is what their `set` and `delete` ensure,
/// write after write: the Bitcask engine has appended one entry for each
/// write to its log, the memory engine has gone from state to state.
pub proof fn lemma_engines_agree(ws: Seq<Write>, bitcask: BitCask, memory: Memory)
    requires
        forall|i: int| 0 <= i < ws.len() ==> accepted(#[trigger] ws[i]),
        bitcask.bytes() == log_after(ws),
        memory.entries() == state_after(ws),
    ensures
        bitcask.entries() == memory.entries(),
        forall|key: Seq<u8>|
            #[trigger] lookup(bitcask.entries(), key) == lookup(memory.entries(), key),
        forall|start: Bound, end: Bound|
            #[trigger] select(bitcask.entries(), start, end) == select(
                memory.entries(),
                start,
                end,
            ),
        forall|prefix: Seq<u8>|
            #[trigger] select_prefix(bitcask.entries(), prefix) == select_prefix(
                memory.entries(),
                prefix,
            ),
{
    lemma_log_holds_history(ws);
}

/// The log after a run of writes holds the entries of the writes and
/// nothing else.
proof fn lemma_log_is_encoding(ws: Seq<Write>)
    ensures
        log_after(ws) == encode_all(ws.map_values(|w: Write| entry_for(w))),
    decreases ws.len(),
{
    let es = ws.map_values(|w: Write| entry_for(w));
    if ws.len() > 0 {
        lemma_log_is_encoding(ws.drop_last());
        assert(es.drop_last() =~= ws.drop_last().map_values(|w: Write| entry_for(w)));
    }
}

/// The entries of a run of writes leave the state that the writes leave.
proof fn lemma_contents_of_history(ws: Seq<Write>)
    ensures
        contents(ws.map_values(|w: Write| entry_for(w))) == state_after(ws),
    decreases ws.len(),
{
    let es = ws.map_values(|w: Write| entry_for(w));
    if ws.len() > 0 {
        lemma_contents_of_history(ws.drop_last());
        assert(es.drop_last() =~= ws.drop_last().map_values(|w: Write| entry_for(w)));
    }
}

} // verus!
