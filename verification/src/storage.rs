//! Key/value storage engines.

pub mod bitcask;
pub mod engine;
pub mod format;
pub mod history;
pub mod memory;
pub mod replay;
