//! The table: an immutable, opened SST backed by an in-memory byte stream.
//!
//! Read order from the tail: the last 4 bytes give the checksum length, the
//! bytes before them the index checksum message, the 4 bytes before that the
//! index length, and the bytes before those the serialized index; everything
//! earlier is blocks.

use vstd::prelude::*;
use crate::block::{
    spec_block_checksum_bytes, spec_block_covered, spec_block_entries_index_start,
    spec_block_num_entries, spec_block_offsets, spec_block_parses, spec_entry_key, spec_entry_ok,
    Block,
};
use crate::checksum::{
    crc32c_of, decode_checksum, lemma_checksum_round_trip, spec_checksum_decode,
    spec_checksum_decodes, spec_checksum_encode, verify_checksum, Checksum, ChecksumAlgorithm,
    CHECKSUM_ENCODED_LEN,
};
use crate::error::Error;
use crate::format::{
    get_u32_be, lemma_u32_be_bytes, lemma_u64_be_bytes, spec_u32_from_be_bytes,
    spec_u32_to_be_bytes,
};
use crate::index::{
    decode_index, index_wf, lemma_index_round_trip, lemma_offsets_encode_len, spec_index_decode,
    spec_index_encode, BlockOffset, TableIndex, TableIndexView,
};
use crate::opt::Options;

verus! {

// ---------------------------------------------------------------------------
// Spec-level parse of the table tail.
// ---------------------------------------------------------------------------

/// The checksum length declared in the last 4 bytes of a table.
pub open spec fn spec_table_checksum_len(s: Seq<u8>) -> int
    recommends
        s.len() >= 4,
{
    spec_u32_from_be_bytes(s.subrange(s.len() - 4, s.len() as int)) as int
}

/// Where the index checksum message begins.
pub open spec fn spec_table_checksum_start(s: Seq<u8>) -> int {
    s.len() - 4 - spec_table_checksum_len(s)
}

/// The index length declared in the 4 bytes before the checksum message.
pub open spec fn spec_table_index_len(s: Seq<u8>) -> int {
    spec_u32_from_be_bytes(
        s.subrange(spec_table_checksum_start(s) - 4, spec_table_checksum_start(s)),
    ) as int
}

/// Where the serialized index begins.
pub open spec fn spec_table_index_start(s: Seq<u8>) -> int {
    spec_table_checksum_start(s) - 4 - spec_table_index_len(s)
}

/// Whether the tail fields address positions inside the table.
pub open spec fn spec_table_tail_parses(s: Seq<u8>) -> bool {
    &&& s.len() >= 8
    &&& spec_table_checksum_len(s) + 8 <= s.len()
    &&& spec_table_index_start(s) >= 0
}

/// The serialized index stored in the table.
pub open spec fn spec_table_index_bytes(s: Seq<u8>) -> Seq<u8> {
    s.subrange(spec_table_index_start(s), spec_table_index_start(s) + spec_table_index_len(s))
}

/// The serialized index checksum message stored in the table.
pub open spec fn spec_table_checksum_bytes(s: Seq<u8>) -> Seq<u8> {
    s.subrange(spec_table_checksum_start(s), s.len() - 4)
}

/// Whether the table's index region opens cleanly: the tail parses, the
/// stored checksum message decodes and matches the index bytes, the index
/// deserializes, and the table has at least one block.
pub open spec fn spec_table_index_opens(s: Seq<u8>) -> bool {
    &&& spec_table_tail_parses(s)
    &&& spec_checksum_decodes(spec_table_checksum_bytes(s))
    &&& spec_checksum_decode(spec_table_checksum_bytes(s)).sum == crc32c_of(
        spec_table_index_bytes(s),
    ) as u64
    &&& spec_index_decode(spec_table_index_bytes(s)) is Some
    &&& spec_index_decode(spec_table_index_bytes(s))->Some_0.offsets.len() > 0
}

/// The byte region of block `i` per the index, clipped nowhere: callers
/// check it lies inside the table.
pub open spec fn spec_table_block_slice(s: Seq<u8>, v: TableIndexView, i: int) -> Seq<u8> {
    s.subrange(v.offsets[i].offset as int, v.offsets[i].offset + v.offsets[i].len)
}

/// Whether block `i` of the table loads: its region lies inside the table,
/// it parses, and its checksum message verifies.
pub open spec fn spec_table_block_loads(s: Seq<u8>, v: TableIndexView, i: int) -> bool {
    &&& 0 <= i < v.offsets.len()
    &&& v.offsets[i].offset + v.offsets[i].len <= s.len()
    &&& spec_block_parses(spec_table_block_slice(s, v, i))
    &&& spec_checksum_decodes(spec_block_checksum_bytes(spec_table_block_slice(s, v, i)))
    &&& spec_checksum_decode(spec_block_checksum_bytes(spec_table_block_slice(s, v, i))).sum
        == crc32c_of(spec_block_covered(spec_table_block_slice(s, v, i))) as u64
}

/// A stream laid out as the builder leaves it -- a body of blocks, then the
/// serialized index, the index length, the index checksum message, and the
/// message length -- opens: its tail parses, the checksum verifies, and the
/// index reads back as the index that was written.
pub proof fn lemma_finished_stream_opens(body: Seq<u8>, iv: TableIndexView)
    requires
        iv.offsets.len() > 0,
        index_wf(iv),
        spec_index_encode(iv).len() <= u32::MAX,
    ensures
        ({
            let ib = spec_index_encode(iv);
            let cs = Checksum { algo: ChecksumAlgorithm::Crc32c, sum: crc32c_of(ib) as u64 };
            let stream = body + ib + spec_u32_to_be_bytes(ib.len() as u32) + spec_checksum_encode(
                cs,
            ) + spec_u32_to_be_bytes(CHECKSUM_ENCODED_LEN as u32);
            &&& spec_table_index_opens(stream)
            &&& spec_table_index_start(stream) == body.len()
            &&& spec_table_index_bytes(stream) == ib
            &&& spec_index_decode(spec_table_index_bytes(stream)) == Some(iv)
        }),
{
    lemma_u32_be_bytes();
    lemma_u64_be_bytes();
    let ib = spec_index_encode(iv);
    let cs = Checksum { algo: ChecksumAlgorithm::Crc32c, sum: crc32c_of(ib) as u64 };
    let csb = spec_checksum_encode(cs);
    lemma_checksum_round_trip(cs);
    assert(csb.len() == CHECKSUM_ENCODED_LEN);
    let stream = body + ib + spec_u32_to_be_bytes(ib.len() as u32) + csb + spec_u32_to_be_bytes(
        CHECKSUM_ENCODED_LEN as u32,
    );
    let len = stream.len() as int;
    assert(ib.len() >= 20) by {
        lemma_offsets_encode_len(iv.offsets);
    }
    assert(len == body.len() + ib.len() + 17);
    assert(stream.subrange(len - 4, len) =~= spec_u32_to_be_bytes(CHECKSUM_ENCODED_LEN as u32));
    assert(spec_table_checksum_len(stream) == CHECKSUM_ENCODED_LEN as int);
    assert(spec_table_checksum_start(stream) == len - 13);
    assert(spec_table_checksum_bytes(stream) =~= csb);
    assert(stream.subrange(len - 17, len - 13) =~= spec_u32_to_be_bytes(ib.len() as u32));
    assert(spec_table_index_len(stream) == ib.len());
    assert(spec_table_index_start(stream) == body.len());
    assert(spec_table_index_bytes(stream) =~= ib);
    lemma_index_round_trip(iv);
}

// ---------------------------------------------------------------------------
// The table value.
// ---------------------------------------------------------------------------

/// An opened, immutable table over an in-memory byte stream.
pub struct Table {
    /// The whole table byte stream.
    pub data: Vec<u8>,
    /// The table id.
    pub id: u64,
    /// The deserialized index.
    pub index: TableIndex,
    /// Where the serialized index begins.
    pub index_start: usize,
    /// The length of the serialized index.
    pub index_len: usize,
    /// The serialized index checksum message.
    pub checksum: Vec<u8>,
    /// The key of the first entry of the first block.
    pub smallest: Vec<u8>,
    /// The key of the last entry of the last block.
    pub biggest: Vec<u8>,
    /// The options the table was opened with.
    pub opt: Options,
}

impl Table {
    /// The opened table is faithful to its byte stream.
    pub open spec fn wf(self) -> bool {
        &&& spec_table_index_opens(self.data@)
        &&& self.index_start == spec_table_index_start(self.data@)
        &&& self.index_len == spec_table_index_len(self.data@)
        &&& Some(self.index@) == spec_index_decode(spec_table_index_bytes(self.data@))
        &&& self.checksum@ == spec_table_checksum_bytes(self.data@)
        &&& self.index@.offsets.len() > 0
        &&& self.smallest@ == self.index@.offsets[0].key
        &&& ({
            let last = self.index@.offsets.len() - 1;
            let slice = spec_table_block_slice(self.data@, self.index@, last);
            let cov = spec_block_covered(slice);
            let offs = spec_block_offsets(slice);
            let eis = spec_block_entries_index_start(slice);
            &&& spec_table_block_loads(self.data@, self.index@, last)
            &&& offs.len() > 0
            &&& spec_entry_ok(cov, offs, eis, offs.len() - 1)
            &&& self.biggest@ == spec_entry_key(cov, offs, eis, offs.len() - 1)
        })
    }

    /// The number of blocks.
    pub open spec fn spec_num_blocks(self) -> int {
        self.index@.offsets.len() as int
    }

    /// Opens a table over a byte stream held in memory. Fails when the tail
    /// fields are out of range, the index checksum does not match, the index
    /// does not deserialize, the table has no blocks, or the last block does
    /// not yield its last entry for the biggest-key probe.
    pub fn open_in_memory(data: Vec<u8>, id: u64, opt: Options) -> (r: Result<Table, Error>)
        ensures
            r is Ok ==> r->Ok_0.wf(),
            r is Ok ==> r->Ok_0.data@ == data@,
            r is Ok ==> r->Ok_0.id == id,
            !spec_table_index_opens(data@) ==> r is Err,
            ({
                let iv = spec_index_decode(spec_table_index_bytes(data@))->Some_0;
                let last = iv.offsets.len() - 1;
                let slice = spec_table_block_slice(data@, iv, last);
                let cov = spec_block_covered(slice);
                let offs = spec_block_offsets(slice);
                let eis = spec_block_entries_index_start(slice);
                (spec_table_index_opens(data@) && spec_table_block_loads(data@, iv, last)
                    && offs.len() > 0 && spec_entry_ok(cov, offs, eis, offs.len() - 1)) ==> r is Ok
            }),
            ({
                let cs_ok = spec_table_tail_parses(data@) && spec_checksum_decodes(
                    spec_table_checksum_bytes(data@),
                ) && spec_checksum_decode(spec_table_checksum_bytes(data@)).sum == crc32c_of(
                    spec_table_index_bytes(data@),
                ) as u64;
                (cs_ok && spec_index_decode(spec_table_index_bytes(data@)) is Some
                    && spec_index_decode(spec_table_index_bytes(data@))->Some_0.offsets.len() == 0)
                    <==> (r is Err && r->Err_0 is EmptyTable)
            }),
            (spec_table_tail_parses(data@) && spec_checksum_decodes(
                spec_table_checksum_bytes(data@),
            ) && spec_checksum_decode(spec_table_checksum_bytes(data@)).sum != crc32c_of(
                spec_table_index_bytes(data@),
            ) as u64) ==> r is Err && r->Err_0 is ChecksumMismatch,
            r is Err ==> r->Err_0 is TableRead || r->Err_0 is DecodeError || r->Err_0
                is ChecksumMismatch || r->Err_0 is EmptyTable,
    {
        let len = data.len();
        if len < 8 {
            return Err(Error::TableRead("table shorter than its footer".to_owned()));
        }
        let cl = get_u32_be(data.as_slice(), len - 4) as usize;
        if cl > len - 4 || len - 4 - cl < 4 {
            return Err(Error::TableRead("checksum length out of range".to_owned()));
        }
        let cs_start = len - 4 - cl;
        let mut checksum: Vec<u8> = Vec::new();
        crate::format::extend_from_range(&mut checksum, data.as_slice(), cs_start, len - 4);
        proof {
            assert(checksum@ =~= spec_table_checksum_bytes(data@));
        }
        let chksum = match decode_checksum(checksum.as_slice()) {
            Ok(c) => c,
            Err(e) => {
                return Err(e);
            },
        };
        let il = get_u32_be(data.as_slice(), cs_start - 4) as usize;
        if il > cs_start - 4 {
            proof {
                assert(spec_table_index_start(data@) < 0);
            }
            return Err(Error::TableRead("index length out of range".to_owned()));
        }
        let index_start = cs_start - 4 - il;
        let index_bytes = &data.as_slice()[index_start..index_start + il];
        if let Err(e) = verify_checksum(index_bytes, &chksum) {
            return Err(e);
        }
        let index = match decode_index(index_bytes) {
            Ok(ix) => ix,
            Err(e) => {
                return Err(e);
            },
        };
        if index.offsets.len() == 0 {
            return Err(Error::EmptyTable);
        }
        let mut smallest: Vec<u8> = Vec::new();
        crate::format::extend_bytes(&mut smallest, index.offsets[0].key.as_slice());
        let mut t = Table {
            data,
            id,
            index,
            index_start,
            index_len: il,
            checksum,
            smallest,
            biggest: Vec::new(),
            opt,
        };
        // The biggest-key probe: the last entry of the last block.
        let last = t.index.offsets.len() - 1;
        let blk = match t.block(last, false) {
            Ok(b) => b,
            Err(e) => {
                return Err(e);
            },
        };
        let ne = blk.num_entries();
        if ne == 0 {
            return Err(Error::TableRead("last block has no entries".to_owned()));
        }
        let (key, _value) = match blk.read_entry(ne - 1) {
            Ok(kv) => kv,
            Err(e) => {
                return Err(e);
            },
        };
        t.biggest = key;
        Ok(t)
    }

    /// The number of blocks in the table.
    pub fn offsets_length(&self) -> (r: usize)
        ensures
            r == self.spec_num_blocks(),
    {
        self.index.offsets.len()
    }

    /// The directory record of block `idx`.
    pub fn offsets(&self, idx: usize) -> (r: Option<&BlockOffset>)
        ensures
            idx < self.spec_num_blocks() <==> r is Some,
            idx < self.spec_num_blocks() ==> r->Some_0@ == self.index@.offsets[idx as int],
    {
        if idx < self.index.offsets.len() {
            Some(&self.index.offsets[idx])
        } else {
            None
        }
    }

    /// Reads, parses and checks block `idx`. The cache flag is accepted for
    /// interface fidelity; this table keeps no cache.
    pub fn block(&self, idx: usize, _use_cache: bool) -> (r: Result<Block, Error>)
        ensures
            r is Ok <==> spec_table_block_loads(self.data@, self.index@, idx as int),
            idx >= self.spec_num_blocks() ==> r is Err && r->Err_0 is TableRead,
            (idx < self.spec_num_blocks() && self.index@.offsets[idx as int].offset
                + self.index@.offsets[idx as int].len > self.data@.len()) ==> r is Err && r->Err_0
                is TableRead,
            ({
                let slice = spec_table_block_slice(self.data@, self.index@, idx as int);
                &&& ((idx < self.spec_num_blocks() && self.index@.offsets[idx as int].offset
                    + self.index@.offsets[idx as int].len <= self.data@.len()
                    && !spec_block_parses(slice)) ==> r is Err && r->Err_0 is TableRead)
                &&& ((idx < self.spec_num_blocks() && self.index@.offsets[idx as int].offset
                    + self.index@.offsets[idx as int].len <= self.data@.len()
                    && spec_block_parses(slice) && !spec_checksum_decodes(
                    spec_block_checksum_bytes(slice),
                )) ==> r is Err && r->Err_0 is DecodeError)
                &&& ((idx < self.spec_num_blocks() && self.index@.offsets[idx as int].offset
                    + self.index@.offsets[idx as int].len <= self.data@.len()
                    && spec_block_parses(slice) && spec_checksum_decodes(
                    spec_block_checksum_bytes(slice),
                ) && spec_checksum_decode(spec_block_checksum_bytes(slice)).sum != crc32c_of(
                    spec_block_covered(slice),
                ) as u64) ==> r is Err && r->Err_0 is ChecksumMismatch)
            }),
            r is Ok ==> {
                let slice = spec_table_block_slice(self.data@, self.index@, idx as int);
                let b = r->Ok_0;
                &&& b.wf()
                &&& b.data@ == spec_block_covered(slice)
                &&& b.entry_offsets@ == spec_block_offsets(slice)
                &&& b.entries_index_start == spec_block_entries_index_start(slice)
                &&& b.checksum@ == spec_block_checksum_bytes(slice)
                &&& b.offset == self.index@.offsets[idx as int].offset
            },
    {
        if idx >= self.index.offsets.len() {
            return Err(Error::TableRead("block out of index".to_owned()));
        }
        let bo_offset = self.index.offsets[idx].offset as usize;
        let bo_len = self.index.offsets[idx].len as usize;
        let data_len = self.data.len();
        if bo_len > data_len || bo_offset > data_len - bo_len {
            return Err(Error::TableRead("block out of range".to_owned()));
        }
        let slice = &self.data.as_slice()[bo_offset..bo_offset + bo_len];
        let blk = match Block::parse(slice, bo_offset) {
            Ok(b) => b,
            Err(e) => {
                return Err(e);
            },
        };
        if let Err(e) = blk.verify_checksum() {
            return Err(e);
        }
        Ok(blk)
    }

    /// Recomputes and checks the checksum of every block.
    pub fn verify_checksum(&self) -> (r: Result<(), Error>)
        ensures
            r is Ok <==> forall|i: int|
                0 <= i < self.spec_num_blocks() ==> spec_table_block_loads(
                    self.data@,
                    self.index@,
                    i,
                ),
            r is Err ==> (r->Err_0 is TableRead || r->Err_0 is DecodeError || r->Err_0
                is ChecksumMismatch) && exists|i: int|
                0 <= i < self.spec_num_blocks() && !(#[trigger] spec_table_block_loads(
                    self.data@,
                    self.index@,
                    i,
                )) && (forall|j: int|
                    0 <= j < i ==> spec_table_block_loads(self.data@, self.index@, j)),
    {
        let n = self.index.offsets.len();
        let mut i: usize = 0;
        while i < n
            invariant
                i <= n,
                n == self.spec_num_blocks(),
                forall|j: int|
                    0 <= j < i ==> spec_table_block_loads(self.data@, self.index@, j),
            decreases n - i,
        {
            if let Err(e) = self.block(i, true) {
                return Err(e);
            }
            i = i + 1;
        }
        Ok(())
    }

    /// The number of keys in the table.
    pub fn key_count(&self) -> (r: u32)
        ensures
            r == self.index@.key_count,
    {
        self.index.key_count
    }

    /// The size of the serialized index.
    pub fn index_size(&self) -> (r: usize)
        ensures
            r == self.index_len,
    {
        self.index_len
    }

    /// The size of the bloom filter blob stored in the index.
    pub fn bloom_filter_size(&self) -> (r: usize)
        ensures
            r == self.index@.bloom_filter.len(),
    {
        self.index.bloom_filter.len()
    }

    /// The size of the table byte stream.
    pub fn size(&self) -> (r: u64)
        requires
            self.data@.len() <= u64::MAX,
        ensures
            r == self.data@.len(),
    {
        self.data.len() as u64
    }

    /// The smallest key of the table.
    pub fn smallest(&self) -> (r: &Vec<u8>)
        ensures
            r@ == self.smallest@,
    {
        &self.smallest
    }

    /// The biggest key of the table.
    pub fn biggest(&self) -> (r: &Vec<u8>)
        ensures
            r@ == self.biggest@,
    {
        &self.biggest
    }

    /// The display name of the table; a memory-backed table has none.
    pub fn filename(&self) -> (r: String)
        ensures
            r@ == "<memtable>"@,
    {
        "<memtable>".to_owned()
    }

    /// The table id.
    pub fn id(&self) -> (r: u64)
        ensures
            r == self.id,
    {
        self.id
    }

    /// Whether the table is held in memory rather than on disk.
    pub fn is_in_memory(&self) -> (r: bool)
        ensures
            r,
    {
        true
    }

    /// The largest timestamp among the table's keys, as recorded at build
    /// time.
    pub fn max_version(&self) -> (r: u64)
        ensures
            r == self.index@.max_version,
    {
        self.index.max_version
    }

    /// Whether the bloom filter rules the hash out. Without a bloom filter
    /// nothing is ever ruled out.
    pub fn does_not_have(_hash: u32) -> (r: bool)
        ensures
            !r,
    {
        false
    }
}

/// The number a string of decimal digits denotes.
pub open spec fn spec_decimal_value(s: Seq<char>) -> int
    decreases s.len(),
{
    if s.len() == 0 {
        0
    } else {
        spec_decimal_value(s.drop_last()) * 10 + (s.last() as int - '0' as int)
    }
}

/// Whether every character is a decimal digit.
pub open spec fn spec_all_digits(s: Seq<char>) -> bool {
    forall|i: int| 0 <= i < s.len() ==> '0' <= #[trigger] s[i] <= '9'
}

/// Whether a file name is `<u64-decimal>.sst`.
pub open spec fn spec_is_sst_name(s: Seq<char>) -> bool {
    &&& s.len() >= 5
    &&& s[s.len() - 4] == '.'
    &&& s[s.len() - 3] == 's'
    &&& s[s.len() - 2] == 's'
    &&& s[s.len() - 1] == 't'
    &&& spec_all_digits(s.take(s.len() - 4))
    &&& spec_decimal_value(s.take(s.len() - 4)) <= u64::MAX
}

/// A digit string denotes a nonnegative number that only grows as digits
/// are appended.
proof fn lemma_decimal_nonneg(s: Seq<char>)
    requires
        spec_all_digits(s),
    ensures
        spec_decimal_value(s) >= 0,
    decreases s.len(),
{
    if s.len() > 0 {
        assert(spec_all_digits(s.drop_last()));
        lemma_decimal_nonneg(s.drop_last());
    }
}

/// Every prefix of a digit string denotes no more than the whole.
proof fn lemma_decimal_prefix_le(s: Seq<char>, k: int)
    requires
        spec_all_digits(s),
        0 <= k <= s.len(),
    ensures
        spec_decimal_value(s.take(k)) <= spec_decimal_value(s),
    decreases s.len() - k,
{
    if k < s.len() {
        lemma_decimal_prefix_le(s, k + 1);
        let p = s.take(k + 1);
        assert(p.drop_last() =~= s.take(k));
        assert(spec_all_digits(s.take(k)));
        lemma_decimal_nonneg(s.take(k));
        assert(spec_decimal_value(p) == spec_decimal_value(s.take(k)) * 10 + (p.last() as int
            - '0' as int));
    } else {
        assert(s.take(k) =~= s);
    }
}

/// Parses a table file name `<u64-decimal>.sst` into the table id. Any
/// other name is rejected.
#[verifier::loop_isolation(false)]
pub fn parse_file_id(name: &str) -> (r: Result<u64, Error>)
    ensures
        r is Ok <==> spec_is_sst_name(name@),
        r is Ok ==> r->Ok_0 == spec_decimal_value(name@.take(name@.len() - 4)),
        r is Err ==> r->Err_0 is InvalidFilename,
{
    if !name.is_ascii() {
        proof {
            if spec_is_sst_name(name@) {
                assert(vstd::utf8::is_ascii_chars(name@)) by {
                    assert forall|i: int| 0 <= i < name@.len() implies '\0' <= (
                    #[trigger] name@[i]) <= '\u{7f}' by {
                        if i < name@.len() - 4 {
                            assert('0' <= name@.take(name@.len() - 4)[i] <= '9');
                        }
                    }
                }
            }
        }
        return Err(Error::InvalidFilename(name.to_owned()));
    }
    let b = name.as_bytes();
    proof {
        vstd::string::is_ascii_spec_bytes(name);
        assert(b@ =~= Seq::new(name@.len(), |j: int| name@[j] as u8));
    }
    let n = b.len();
    if n < 5 {
        return Err(Error::InvalidFilename(name.to_owned()));
    }
    if !(b[n - 4] == 46 && b[n - 3] == 115 && b[n - 2] == 115 && b[n - 1] == 116) {
        return Err(Error::InvalidFilename(name.to_owned()));
    }
    let mut v: u64 = 0;
    let mut i: usize = 0;
    let ghost stem = name@.take(name@.len() - 4);
    while i < n - 4
        invariant
            i <= n - 4,
            n == b@.len(),
            n == name@.len(),
            n >= 5,
            b@ == Seq::new(name@.len(), |j: int| name@[j] as u8),
            spec_all_digits(name@.take(i as int)),
            v == spec_decimal_value(name@.take(i as int)),
        decreases n - 4 - i,
    {
        let c = b[i];
        if c < 48 || c > 57 {
            proof {
                if spec_is_sst_name(name@) {
                    assert('0' <= name@.take(n - 4)[i as int] <= '9');
                    assert(name@.take(n - 4)[i as int] == name@[i as int]);
                    assert(48 <= name@[i as int] as int <= 57);
                    assert(c == name@[i as int] as u8);
                }
            }
            return Err(Error::InvalidFilename(name.to_owned()));
        }
        let d = (c - 48) as u64;
        if v > (u64::MAX - d) / 10 {
            proof {
                let p = name@.take(i + 1);
                assert(p.drop_last() =~= name@.take(i as int));
                assert(spec_decimal_value(p) == v * 10 + d);
                assert(spec_decimal_value(p) > u64::MAX);
                assert(spec_all_digits(p));
                if spec_is_sst_name(name@) {
                    assert(stem.take(i + 1) =~= p);
                    lemma_decimal_prefix_le(stem, i + 1);
                }
            }
            return Err(Error::InvalidFilename(name.to_owned()));
        }
        v = v * 10 + d;
        proof {
            let p = name@.take(i + 1);
            assert(p.drop_last() =~= name@.take(i as int));
            assert(spec_all_digits(p));
        }
        i = i + 1;
    }
    proof {
        assert(name@.take((n - 4) as int) =~= stem);
    }
    Ok(v)
}

} // verus!
