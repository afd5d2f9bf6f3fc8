//! One decoded block of a table: the raw entry bytes, the array of entry
//! offsets, and the checksum message that covers them.
//!
//! Block layout, back to front: a big-endian u32 checksum length, the
//! serialized checksum message, a big-endian u32 entry count `n`, the `n`
//! little-endian u32 entry offsets, and before those the entries themselves.
//! Each entry is `overlap_len (LE u16) ‖ diff_len (LE u16) ‖ diff ‖ value`,
//! where the key is the first `overlap_len` bytes of the block's base key
//! followed by `diff`; the base key is the full key of entry 0.

use vstd::prelude::*;
use vstd::bytes::{spec_u16_from_le_bytes, spec_u32_from_le_bytes};
use crate::checksum::{
    crc32c_of, decode_checksum, spec_checksum_decode, spec_checksum_decodes, verify_checksum,
    CHECKSUM_ENCODED_LEN,
};
use crate::error::Error;
use crate::format::{extend_from_range, get_u16_le, get_u32_be, get_u32_le, spec_u32_from_be_bytes};
use crate::value::{spec_value_matches, Value, VALUE_HEADER_LEN};

verus! {

// ---------------------------------------------------------------------------
// Spec-level parse of the block framing.
// ---------------------------------------------------------------------------

/// The checksum length declared in the last 4 bytes of a block slice.
pub open spec fn spec_block_checksum_len(s: Seq<u8>) -> int
    recommends
        s.len() >= 4,
{
    spec_u32_from_be_bytes(s.subrange(s.len() - 4, s.len() as int)) as int
}

/// Where the entry-count field of a block slice begins.
pub open spec fn spec_block_count_pos(s: Seq<u8>) -> int {
    s.len() - 8 - spec_block_checksum_len(s)
}

/// The entry count declared in a block slice.
pub open spec fn spec_block_num_entries(s: Seq<u8>) -> int {
    spec_u32_from_be_bytes(
        s.subrange(spec_block_count_pos(s), spec_block_count_pos(s) + 4),
    ) as int
}

/// Where the entry-offsets array of a block slice begins.
pub open spec fn spec_block_entries_index_start(s: Seq<u8>) -> int {
    spec_block_count_pos(s) - 4 * spec_block_num_entries(s)
}

/// Whether the tail fields of a block slice address positions inside it.
pub open spec fn spec_block_parses(s: Seq<u8>) -> bool {
    &&& s.len() >= 4
    &&& spec_block_checksum_len(s) + 8 <= s.len()
    &&& 0 <= spec_block_entries_index_start(s)
}

/// The entry offsets stored in a block slice.
pub open spec fn spec_block_offsets(s: Seq<u8>) -> Seq<u32> {
    Seq::new(
        spec_block_num_entries(s) as nat,
        |i: int|
            spec_u32_from_le_bytes(
                s.subrange(
                    spec_block_entries_index_start(s) + 4 * i,
                    spec_block_entries_index_start(s) + 4 * i + 4,
                ),
            ),
    )
}

/// The checksum-covered prefix of a block slice: entries, offsets array and
/// entry count.
pub open spec fn spec_block_covered(s: Seq<u8>) -> Seq<u8> {
    s.take(spec_block_count_pos(s) + 4)
}

/// The serialized checksum message stored in a block slice.
pub open spec fn spec_block_checksum_bytes(s: Seq<u8>) -> Seq<u8> {
    s.subrange(s.len() - 4 - spec_block_checksum_len(s), s.len() - 4)
}

// ---------------------------------------------------------------------------
// Spec-level decoding of entries within a parsed block.
// ---------------------------------------------------------------------------

/// Where entry `i` ends: the next entry's offset, or the offsets array.
pub open spec fn spec_entry_end(offs: Seq<u32>, eis: int, i: int) -> int {
    if i + 1 < offs.len() {
        offs[i + 1] as int
    } else {
        eis
    }
}

/// The `overlap_len` header field of entry `i`.
pub open spec fn spec_entry_overlap(d: Seq<u8>, offs: Seq<u32>, i: int) -> int {
    spec_u16_from_le_bytes(d.subrange(offs[i] as int, offs[i] + 2)) as int
}

/// The `diff_len` header field of entry `i`.
pub open spec fn spec_entry_diff_len(d: Seq<u8>, offs: Seq<u32>, i: int) -> int {
    spec_u16_from_le_bytes(d.subrange(offs[i] + 2, offs[i] + 4)) as int
}

/// The key bytes entry `i` stores beyond the base-key prefix.
pub open spec fn spec_entry_diff(d: Seq<u8>, offs: Seq<u32>, i: int) -> Seq<u8> {
    d.subrange(offs[i] + 4, offs[i] + 4 + spec_entry_diff_len(d, offs, i))
}

/// The value bytes of entry `i`.
pub open spec fn spec_entry_value_bytes(d: Seq<u8>, offs: Seq<u32>, eis: int, i: int) -> Seq<u8> {
    d.subrange(offs[i] + 4 + spec_entry_diff_len(d, offs, i), spec_entry_end(offs, eis, i))
}

/// Whether the header and regions of entry `i` lie inside the entries area.
pub open spec fn spec_entry_bounds_ok(d: Seq<u8>, offs: Seq<u32>, eis: int, i: int) -> bool {
    let off = offs[i] as int;
    let end = spec_entry_end(offs, eis, i);
    &&& off + 4 <= end
    &&& end <= eis
    &&& eis <= d.len()
    &&& off + 4 + spec_entry_diff_len(d, offs, i) + VALUE_HEADER_LEN <= end
}

/// The base key of the block: the full key stored by entry 0.
pub open spec fn spec_base_key(d: Seq<u8>, offs: Seq<u32>) -> Seq<u8> {
    spec_entry_diff(d, offs, 0)
}

/// Whether entry `i` of the block can be decoded: entry 0 must supply a
/// whole base key, and entry `i` must lie in bounds with an overlap no
/// longer than the base key.
pub open spec fn spec_entry_ok(d: Seq<u8>, offs: Seq<u32>, eis: int, i: int) -> bool {
    &&& 0 <= i < offs.len()
    &&& spec_entry_bounds_ok(d, offs, eis, 0)
    &&& spec_entry_overlap(d, offs, 0) == 0
    &&& spec_entry_bounds_ok(d, offs, eis, i)
    &&& spec_entry_overlap(d, offs, i) <= spec_base_key(d, offs).len()
}

/// The key of entry `i`: the shared base-key prefix followed by the diff.
pub open spec fn spec_entry_key(d: Seq<u8>, offs: Seq<u32>, eis: int, i: int) -> Seq<u8> {
    spec_base_key(d, offs).take(spec_entry_overlap(d, offs, i)) + spec_entry_diff(d, offs, i)
}

/// The block-size bound in its spec'd shape: a parsed block whose checksum
/// message decodes and whose last entry starts within the block size is no
/// longer than the block size plus the serialized size of its last entry,
/// its offsets array, its entry-count field and its checksum framing.
pub proof fn lemma_block_size_bound(slice: Seq<u8>, block_size: u32)
    requires
        spec_block_parses(slice),
        spec_checksum_decodes(spec_block_checksum_bytes(slice)),
        spec_block_offsets(slice).len() > 0,
        spec_block_offsets(slice).last() as int <= block_size,
    ensures
        slice.len() <= block_size + (spec_block_entries_index_start(slice)
            - spec_block_offsets(slice).last()) + 4 * spec_block_offsets(slice).len() + 8
            + CHECKSUM_ENCODED_LEN,
{
    assert(spec_block_checksum_bytes(slice).len() == spec_block_checksum_len(slice));
    assert(spec_block_checksum_len(slice) == CHECKSUM_ENCODED_LEN as int);
}

/// Entry decoding is stable under growing the byte region and the offsets
/// array: an entry that decodes against a prefix `d` decodes the same
/// against any extension `d2`, as long as its own offsets and its end do
/// not move.
pub proof fn lemma_entry_decode_prefix_stable(
    d: Seq<u8>,
    d2: Seq<u8>,
    offs: Seq<u32>,
    offs2: Seq<u32>,
    eis2: int,
    i: int,
)
    requires
        0 <= i < offs.len(),
        offs2.len() >= offs.len(),
        forall|j: int| 0 <= j < offs.len() ==> offs2[j] == offs[j],
        spec_entry_end(offs2, eis2, i) == spec_entry_end(offs, d.len() as int, i),
        spec_entry_end(offs2, eis2, 0) == spec_entry_end(offs, d.len() as int, 0),
        d.len() <= d2.len(),
        d2.subrange(0, d.len() as int) == d,
        eis2 <= d2.len(),
        spec_entry_end(offs2, eis2, i) <= eis2,
        spec_entry_end(offs2, eis2, 0) <= eis2,
        spec_entry_ok(d, offs, d.len() as int, i),
    ensures
        spec_entry_ok(d2, offs2, eis2, i),
        spec_entry_key(d2, offs2, eis2, i) == spec_entry_key(d, offs, d.len() as int, i),
        spec_entry_value_bytes(d2, offs2, eis2, i) == spec_entry_value_bytes(
            d,
            offs,
            d.len() as int,
            i,
        ),
        spec_entry_overlap(d2, offs2, i) == spec_entry_overlap(d, offs, i),
        spec_base_key(d2, offs2) == spec_base_key(d, offs),
{
    assert forall|k: int| 0 <= k < d.len() implies d2[k] == d[k] by {
        assert(d2.subrange(0, d.len() as int)[k] == d2[k]);
    }
    let eis = d.len() as int;
    assert forall|a: int, b: int| 0 <= a <= b <= d.len() implies d2.subrange(a, b) == d.subrange(
        a,
        b,
    ) by {
        assert(d2.subrange(a, b) =~= d.subrange(a, b));
    }
    let o0 = offs[0] as int;
    let oi = offs[i] as int;
    assert(offs2[0] == offs[0]);
    assert(offs2[i] == offs[i]);
    assert(d2.subrange(o0, o0 + 2) == d.subrange(o0, o0 + 2));
    assert(d2.subrange(o0 + 2, o0 + 4) == d.subrange(o0 + 2, o0 + 4));
    assert(d2.subrange(oi, oi + 2) == d.subrange(oi, oi + 2));
    assert(d2.subrange(oi + 2, oi + 4) == d.subrange(oi + 2, oi + 4));
    let dl0 = spec_entry_diff_len(d, offs, 0);
    let dli = spec_entry_diff_len(d, offs, i);
    assert(d2.subrange(o0 + 4, o0 + 4 + dl0) == d.subrange(o0 + 4, o0 + 4 + dl0));
    assert(d2.subrange(oi + 4, oi + 4 + dli) == d.subrange(oi + 4, oi + 4 + dli));
    let end = spec_entry_end(offs, eis, i);
    assert(d2.subrange(oi + 4 + dli, end) == d.subrange(oi + 4 + dli, end));
}

// ---------------------------------------------------------------------------
// The block value.
// ---------------------------------------------------------------------------

/// A decoded block.
pub struct Block {
    /// The checksum-covered region: entries, offsets array and entry count.
    pub data: Vec<u8>,
    /// The decoded entry offsets.
    pub entry_offsets: Vec<u32>,
    /// Where the offsets array begins within `data`.
    pub entries_index_start: usize,
    /// The serialized checksum message covering `data`.
    pub checksum: Vec<u8>,
    /// The byte offset of this block within its table.
    pub offset: usize,
}

impl Block {
    /// Structural consistency between the decoded fields.
    pub open spec fn wf(self) -> bool {
        &&& self.entries_index_start + 4 * self.entry_offsets@.len() + 4 == self.data@.len()
    }

    /// The number of entries the block declares.
    pub open spec fn spec_num_entries(self) -> int {
        self.entry_offsets@.len() as int
    }

    /// Whether entry `i` can be decoded.
    pub open spec fn entry_ok(self, i: int) -> bool {
        spec_entry_ok(self.data@, self.entry_offsets@, self.entries_index_start as int, i)
    }

    /// The key of entry `i`.
    pub open spec fn spec_key(self, i: int) -> Seq<u8> {
        spec_entry_key(self.data@, self.entry_offsets@, self.entries_index_start as int, i)
    }

    /// The value bytes of entry `i`.
    pub open spec fn spec_value_bytes(self, i: int) -> Seq<u8> {
        spec_entry_value_bytes(
            self.data@,
            self.entry_offsets@,
            self.entries_index_start as int,
            i,
        )
    }

    /// Parses a block slice read from table offset `offset`. Fails when a
    /// tail field addresses a position outside the slice.
    pub fn parse(input: &[u8], offset: usize) -> (r: Result<Block, Error>)
        ensures
            r is Ok <==> spec_block_parses(input@),
            r is Err ==> r->Err_0 is TableRead,
            r is Ok ==> {
                let b = r->Ok_0;
                &&& b.wf()
                &&& b.data@ == spec_block_covered(input@)
                &&& b.entry_offsets@ == spec_block_offsets(input@)
                &&& b.entries_index_start == spec_block_entries_index_start(input@)
                &&& b.checksum@ == spec_block_checksum_bytes(input@)
                &&& b.offset == offset
            },
    {
        let len: usize = input.len();
        if len < 4 {
            return Err(Error::TableRead("block shorter than its footer".to_owned()));
        }
        let cl: usize = get_u32_be(input, len - 4) as usize;
        if cl > len - 4 || len - 4 - cl < 4 {
            return Err(Error::TableRead("checksum length out of range".to_owned()));
        }
        let count_pos: usize = len - 4 - cl - 4;
        let n: usize = get_u32_be(input, count_pos) as usize;
        if n > count_pos / 4 {
            return Err(Error::TableRead("entry count out of range".to_owned()));
        }
        let eis: usize = count_pos - 4 * n;
        let mut entry_offsets: Vec<u32> = Vec::new();
        let mut j: usize = 0;
        while j < n
            invariant
                j <= n,
                spec_block_parses(input@),
                n == spec_block_num_entries(input@),
                eis == spec_block_entries_index_start(input@),
                len == input@.len(),
                eis + 4 * n + 4 <= len,
                entry_offsets@ == spec_block_offsets(input@).take(j as int),
            decreases n - j,
        {
            let off = get_u32_le(input, eis + 4 * j);
            entry_offsets.push(off);
            proof {
                assert(entry_offsets@ =~= spec_block_offsets(input@).take(j + 1));
            }
            j = j + 1;
        }
        let mut data: Vec<u8> = Vec::new();
        extend_from_range(&mut data, input, 0, count_pos + 4);
        let mut checksum: Vec<u8> = Vec::new();
        extend_from_range(&mut checksum, input, len - 4 - cl, len - 4);
        proof {
            assert(entry_offsets@ =~= spec_block_offsets(input@));
            assert(data@ =~= spec_block_covered(input@));
        }
        Ok(Block { data, entry_offsets, entries_index_start: eis, checksum, offset })
    }

    /// The number of entries in the block.
    pub fn num_entries(&self) -> (r: usize)
        ensures
            r == self.spec_num_entries(),
    {
        self.entry_offsets.len()
    }

    /// Recomputes the declared checksum over the covered region and compares
    /// it with the stored digest.
    pub fn verify_checksum(&self) -> (r: Result<(), Error>)
        ensures
            r is Ok <==> spec_checksum_decodes(self.checksum@) && spec_checksum_decode(
                self.checksum@,
            ).sum == crc32c_of(self.data@) as u64,
            !spec_checksum_decodes(self.checksum@) ==> r is Err && r->Err_0 is DecodeError,
            (spec_checksum_decodes(self.checksum@) && spec_checksum_decode(self.checksum@).sum
                != crc32c_of(self.data@) as u64) ==> r is Err && r->Err_0 is ChecksumMismatch,
    {
        let chksum = match decode_checksum(self.checksum.as_slice()) {
            Ok(c) => c,
            Err(e) => {
                return Err(e);
            },
        };
        verify_checksum(self.data.as_slice(), &chksum)
    }

    /// Decodes the key and value of entry `i`, rebuilding the key from the
    /// base-key prefix and the stored diff.
    pub fn read_entry(&self, i: usize) -> (r: Result<(Vec<u8>, Value), Error>)
        requires
            self.wf(),
            i < self.spec_num_entries(),
        ensures
            r is Ok <==> self.entry_ok(i as int),
            r is Ok ==> r->Ok_0.0@ == self.spec_key(i as int),
            r is Ok ==> spec_value_matches(r->Ok_0.1, self.spec_value_bytes(i as int)),
            r is Err ==> r->Err_0 is TableRead || r->Err_0 is DecodeError,
    {
        let base = match self.read_base_key() {
            Ok(b) => b,
            Err(e) => {
                return Err(e);
            },
        };
        let n = self.entry_offsets.len();
        let off = self.entry_offsets[i] as usize;
        let end: usize = if i + 1 < n {
            self.entry_offsets[i + 1] as usize
        } else {
            self.entries_index_start
        };
        if end > self.entries_index_start || end < 4 || off > end - 4 {
            return Err(Error::TableRead("entry out of range".to_owned()));
        }
        let overlap = get_u16_le(self.data.as_slice(), off) as usize;
        let diff_len = get_u16_le(self.data.as_slice(), off + 2) as usize;
        if diff_len > end - (off + 4) || end - (off + 4) - diff_len < VALUE_HEADER_LEN {
            return Err(Error::TableRead("entry header out of range".to_owned()));
        }
        if overlap > base.len() {
            return Err(Error::TableRead("overlap longer than base key".to_owned()));
        }
        let mut key: Vec<u8> = Vec::new();
        extend_from_range(&mut key, base.as_slice(), 0, overlap);
        extend_from_range(&mut key, self.data.as_slice(), off + 4, off + 4 + diff_len);
        let value = match Value::decode(self.data.as_slice(), off + 4 + diff_len, end) {
            Ok(v) => v,
            Err(e) => {
                return Err(e);
            },
        };
        proof {
            let d = self.data@;
            let offs = self.entry_offsets@;
            let eis = self.entries_index_start as int;
            assert(d.subrange(off as int, off + 2) =~= d.subrange(
                offs[i as int] as int,
                offs[i as int] + 2,
            ));
            assert(key@ =~= self.spec_key(i as int));
        }
        Ok((key, value))
    }

    /// Decodes the block's base key: the diff of entry 0, whose overlap
    /// must be 0.
    pub fn read_base_key(&self) -> (r: Result<Vec<u8>, Error>)
        requires
            self.wf(),
            self.spec_num_entries() > 0,
        ensures
            r is Ok <==> (spec_entry_bounds_ok(
                self.data@,
                self.entry_offsets@,
                self.entries_index_start as int,
                0,
            ) && spec_entry_overlap(self.data@, self.entry_offsets@, 0) == 0),
            r is Ok ==> r->Ok_0@ == spec_base_key(self.data@, self.entry_offsets@),
            r is Err ==> r->Err_0 is TableRead,
    {
        let n = self.entry_offsets.len();
        let off = self.entry_offsets[0] as usize;
        let end: usize = if 1 < n {
            self.entry_offsets[1] as usize
        } else {
            self.entries_index_start
        };
        if end > self.entries_index_start || end < 4 || off > end - 4 {
            return Err(Error::TableRead("base entry out of range".to_owned()));
        }
        let overlap = get_u16_le(self.data.as_slice(), off) as usize;
        let diff_len = get_u16_le(self.data.as_slice(), off + 2) as usize;
        if diff_len > end - (off + 4) || end - (off + 4) - diff_len < VALUE_HEADER_LEN {
            return Err(Error::TableRead("base entry header out of range".to_owned()));
        }
        if overlap != 0 {
            return Err(Error::TableRead("base entry stores a partial key".to_owned()));
        }
        let mut base: Vec<u8> = Vec::new();
        extend_from_range(&mut base, self.data.as_slice(), off + 4, off + 4 + diff_len);
        Ok(base)
    }
}

} // verus!
