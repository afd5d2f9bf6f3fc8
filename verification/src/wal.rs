//! The write-ahead log segment: an append-only record stream, one segment
//! per file id. The segment encodes entries as
//! `key_len (BE u32) ‖ value_len (BE u32) ‖ key ‖ value ‖ crc32c trailer`;
//! flushing the buffered bytes to the backing file is the caller's part.

use vstd::prelude::*;
use crate::checksum::{crc32c_digest, crc32c_of};
use crate::error::Error;
use crate::format::{extend_bytes, put_u32_be, spec_u32_to_be_bytes};

verus! {

/// One record handed to the log: a key and a value.
pub struct Entry {
    pub key: Vec<u8>,
    pub value: Vec<u8>,
}

/// The serialized form of one log record: both lengths, both byte strings,
/// and a checksum trailer over the lengths and bytes.
pub open spec fn spec_wal_encode(key: Seq<u8>, value: Seq<u8>) -> Seq<u8> {
    let body = spec_u32_to_be_bytes(key.len() as u32) + spec_u32_to_be_bytes(value.len() as u32)
        + key + value;
    body + spec_u32_to_be_bytes(crc32c_of(body))
}

/// A write-ahead log segment.
pub struct Wal {
    /// The id of the segment.
    pub file_id: usize,
    /// Where the segment's backing file lives.
    pub path: String,
    /// The records appended and not yet handed out for flushing.
    pub buf: Vec<u8>,
}

impl Wal {
    /// A segment for `(file_id, path)` with nothing appended yet.
    pub fn open(file_id: usize, path: String) -> (r: Wal)
        ensures
            r.file_id == file_id,
            r.path@ == path@,
            r.buf@.len() == 0,
    {
        Wal { file_id, path, buf: Vec::new() }
    }

    /// Appends one record to the segment.
    pub fn write_entry(&mut self, entry: &Entry) -> (r: Result<(), Error>)
        requires
            entry.key@.len() <= u32::MAX,
            entry.value@.len() <= u32::MAX,
        ensures
            r is Ok,
            final(self).buf@ == old(self).buf@ + spec_wal_encode(entry.key@, entry.value@),
            final(self).file_id == old(self).file_id,
            final(self).path == old(self).path,
    {
        let mut body: Vec<u8> = Vec::new();
        put_u32_be(&mut body, entry.key.len() as u32);
        put_u32_be(&mut body, entry.value.len() as u32);
        extend_bytes(&mut body, entry.key.as_slice());
        extend_bytes(&mut body, entry.value.as_slice());
        let sum = crc32c_digest(body.as_slice());
        extend_bytes(&mut self.buf, body.as_slice());
        put_u32_be(&mut self.buf, sum);
        proof {
            assert(self.buf@ =~= old(self).buf@ + spec_wal_encode(entry.key@, entry.value@));
        }
        Ok(())
    }

    /// The bytes appended so far and not yet flushed.
    pub fn pending(&self) -> (r: &Vec<u8>)
        ensures
            r@ == self.buf@,
    {
        &self.buf
    }

    /// Hands out the buffered bytes for flushing and empties the buffer.
    pub fn take_pending(&mut self) -> (r: Vec<u8>)
        ensures
            r@ == old(self).buf@,
            final(self).buf@.len() == 0,
            final(self).file_id == old(self).file_id,
            final(self).path == old(self).path,
    {
        let mut out: Vec<u8> = Vec::new();
        std::mem::swap(&mut out, &mut self.buf);
        out
    }
}

} // verus!
