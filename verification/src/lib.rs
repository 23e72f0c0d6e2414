//! Verified key/value storage engines.
//!
//! Two engines implement one contract, `storage::engine::Engine`:
//!
//! - `storage::memory::Memory` keeps its data in an ordered map;
//! - `storage::bitcask::BitCask` keeps an append-only log of puts and
//!   tombstones, and in memory a key directory that finds each live value
//!   in the log.
//!
//! The state of an engine is a sequence of keys and values in strictly
//! ascending key order. What the Bitcask engine holds is defined by the
//! bytes of its log alone: `storage::format` says how a log is read,
//! `storage::replay` what its entries leave behind. The engine works on the
//! bytes of the log; to keep them in a file, with a lock on it, is left to
//! the caller.
//!
//! All functions are verified with Verus against the contracts they carry.

pub mod bound;
pub mod error;
pub mod order;
pub mod ordered_map;
pub mod storage;
