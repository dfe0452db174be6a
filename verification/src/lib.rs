//! A minimal log-structured-merge key-value core.
//!
//! The engine keeps its mutable state in a bounded in-memory table
//! ([`memtable::MemTable`]), records every mutation in a write-ahead log
//! ([`wal::WriteAheadLog`]) before applying it, and moves overflowing state
//! into immutable sorted segments encoded by [`sstable::SSTable`].
//!
//! The library is purely computational: it models the log as a sequence of
//! text lines and a segment as a byte block, and leaves opening, reading and
//! writing of actual files to its caller.

pub mod kvmap;
pub mod memtable;
pub mod sstable;
pub mod text;
pub mod wal;
