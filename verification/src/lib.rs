//! A sorted string table (SST) engine: an immutable on-disk table format
//! together with its builder and its ordered bidirectional iterator.
//!
//! Keys are internal keys: a user key followed by an 8-byte big-endian
//! timestamp. A table is a sequence of prefix-compressed blocks, an index
//! of block offsets, and checksummed framing. The builder ingests entries
//! in non-decreasing key order; the table opens a finished byte stream and
//! answers metadata queries and iteration.

pub mod block;
pub mod builder;
pub mod checksum;
pub mod cmp;
pub mod error;
pub mod format;
pub mod index;
pub mod iterator;
pub mod opt;
pub mod table;
pub mod value;
pub mod wal;
