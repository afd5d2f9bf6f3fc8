//! The table builder: a write-only assembler that accepts entries in
//! non-decreasing internal-key order, groups them into size-bounded blocks,
//! and emits the finished table byte stream.

use vstd::prelude::*;
use vstd::bytes::{lemma_auto_spec_u32_to_from_le_bytes, spec_u32_to_le_bytes};
use crate::block::{
    lemma_entry_decode_prefix_stable, spec_base_key, spec_block_checksum_bytes,
    spec_block_covered, spec_block_entries_index_start, spec_block_num_entries,
    spec_block_offsets, spec_block_parses, spec_entry_end, spec_entry_key, spec_entry_ok,
    spec_entry_overlap, spec_entry_value_bytes,
};
use crate::checksum::{
    calculate_checksum, crc32c_of, encode_checksum, lemma_checksum_round_trip,
    spec_checksum_decode, spec_checksum_decodes, spec_checksum_encode, Checksum,
    ChecksumAlgorithm, CHECKSUM_ENCODED_LEN,
};
use crate::cmp::{key_lt, lemma_lex_le_transitive, lemma_lex_total, lex_le, lex_lt, spec_lcp};
use crate::error::Error;
use crate::format::{
    extend_bytes, extend_from_range, get_ts, lemma_u32_be_bytes, lemma_u64_be_bytes, put_u16_le,
    put_u32_be, put_u32_le, spec_get_ts, spec_u32_to_be_bytes,
};
use crate::index::{
    encode_index, spec_index_encode, spec_offsets_encode, BlockOffset, BlockOffsetView,
    TableIndex, TableIndexView,
};
use crate::opt::Options;
use crate::value::Value;

verus! {

/// The largest key the block format can store: entry header fields are u16.
pub const MAX_KEY_LEN: usize = 65535;

/// A sequence of keys in non-decreasing lexicographic order.
pub open spec fn keys_sorted(keys: Seq<Seq<u8>>) -> bool {
    forall|i: int, j: int|
        0 <= i < j < keys.len() ==> lex_le(#[trigger] keys[i], #[trigger] keys[j])
}

/// The little-endian serialization of an entry-offsets array.
pub open spec fn spec_offsets_le(offs: Seq<u32>) -> Seq<u8>
    decreases offs.len(),
{
    if offs.len() == 0 {
        Seq::empty()
    } else {
        spec_u32_to_le_bytes(offs[0]) + spec_offsets_le(offs.skip(1))
    }
}

/// The serialization of an offsets array is 4 bytes per element.
pub proof fn lemma_offsets_le_len(offs: Seq<u32>)
    ensures
        spec_offsets_le(offs).len() == 4 * offs.len(),
    decreases offs.len(),
{
    lemma_auto_spec_u32_to_from_le_bytes();
    if offs.len() > 0 {
        lemma_offsets_le_len(offs.skip(1));
    }
}

/// Appending one offset appends its 4 bytes.
pub proof fn lemma_offsets_le_snoc(offs: Seq<u32>)
    requires
        offs.len() > 0,
    ensures
        spec_offsets_le(offs) == spec_offsets_le(offs.drop_last()) + spec_u32_to_le_bytes(
            offs.last(),
        ),
    decreases offs.len(),
{
    if offs.len() == 1 {
        assert(offs.skip(1) =~= Seq::<u32>::empty());
        assert(offs.drop_last() =~= Seq::<u32>::empty());
        assert(spec_offsets_le(offs.drop_last()) + spec_u32_to_le_bytes(offs.last())
            =~= spec_u32_to_le_bytes(offs[0]) + spec_offsets_le(offs.skip(1)));
    } else {
        lemma_offsets_le_snoc(offs.skip(1));
        assert(offs.skip(1).drop_last() =~= offs.drop_last().skip(1));
        assert(offs.skip(1).last() == offs.last());
        assert(offs.drop_last()[0] == offs[0]);
        assert(spec_offsets_le(offs) =~= spec_offsets_le(offs.drop_last()) + spec_u32_to_le_bytes(
            offs.last(),
        ));
    }
}

/// The bytes at position `4*i` of a serialized offsets array are offset `i`.
pub proof fn lemma_offsets_le_index(offs: Seq<u32>, i: int)
    requires
        0 <= i < offs.len(),
    ensures
        spec_offsets_le(offs).subrange(4 * i, 4 * i + 4) == spec_u32_to_le_bytes(offs[i]),
    decreases i,
{
    lemma_offsets_le_len(offs);
    lemma_auto_spec_u32_to_from_le_bytes();
    if i == 0 {
        lemma_offsets_le_len(offs.skip(1));
        assert(spec_offsets_le(offs).subrange(0, 4) =~= spec_u32_to_le_bytes(offs[0]));
    } else {
        lemma_offsets_le_index(offs.skip(1), i - 1);
        lemma_offsets_le_len(offs.skip(1));
        assert(spec_offsets_le(offs).subrange(4 * i, 4 * i + 4) =~= spec_offsets_le(
            offs.skip(1),
        ).subrange(4 * (i - 1), 4 * (i - 1) + 4));
        assert(offs.skip(1)[i - 1] == offs[i]);
    }
}

/// The finished serialization of one block: the entry bytes, the offsets
/// array, the entry count, the checksum message over everything so far, and
/// the checksum length.
pub open spec fn spec_block_assemble(entries: Seq<u8>, offs: Seq<u32>) -> Seq<u8> {
    let covered = entries + spec_offsets_le(offs) + spec_u32_to_be_bytes(offs.len() as u32);
    covered + spec_checksum_encode(
        Checksum { algo: ChecksumAlgorithm::Crc32c, sum: crc32c_of(covered) as u64 },
    ) + spec_u32_to_be_bytes(CHECKSUM_ENCODED_LEN as u32)
}

/// Every block the builder finalizes parses back to exactly its entry bytes
/// and entry offsets, and its stored checksum message verifies against the
/// covered region.
pub proof fn lemma_built_block_parses(entries: Seq<u8>, offs: Seq<u32>)
    requires
        offs.len() <= u32::MAX,
    ensures
        ({
            let bb = spec_block_assemble(entries, offs);
            &&& spec_block_parses(bb)
            &&& spec_block_entries_index_start(bb) == entries.len()
            &&& spec_block_num_entries(bb) == offs.len()
            &&& spec_block_offsets(bb) == offs
            &&& spec_block_covered(bb) == entries + spec_offsets_le(offs) + spec_u32_to_be_bytes(
                offs.len() as u32,
            )
            &&& spec_checksum_decodes(spec_block_checksum_bytes(bb))
            &&& spec_checksum_decode(spec_block_checksum_bytes(bb)).sum == crc32c_of(
                spec_block_covered(bb),
            ) as u64
            &&& bb.len() == entries.len() + 4 * offs.len() + 17
        }),
{
    lemma_u32_be_bytes();
    lemma_offsets_le_len(offs);
    let covered = entries + spec_offsets_le(offs) + spec_u32_to_be_bytes(offs.len() as u32);
    let cs = Checksum { algo: ChecksumAlgorithm::Crc32c, sum: crc32c_of(covered) as u64 };
    lemma_checksum_round_trip(cs);
    lemma_u64_be_bytes();
    let bb = spec_block_assemble(entries, offs);
    let len = bb.len() as int;
    assert(covered.len() == entries.len() + 4 * offs.len() + 4);
    assert(spec_checksum_encode(cs).len() == CHECKSUM_ENCODED_LEN);
    assert(len == covered.len() + CHECKSUM_ENCODED_LEN + 4);
    assert(bb.subrange(len - 4, len) =~= spec_u32_to_be_bytes(CHECKSUM_ENCODED_LEN as u32));
    assert(crate::block::spec_block_checksum_len(bb) == CHECKSUM_ENCODED_LEN as int);
    assert(crate::block::spec_block_count_pos(bb) == covered.len() - 4);
    assert(bb.subrange(covered.len() - 4, covered.len() as int) =~= spec_u32_to_be_bytes(
        offs.len() as u32,
    ));
    assert(spec_block_num_entries(bb) == offs.len());
    assert(spec_block_entries_index_start(bb) == entries.len());
    assert(spec_block_covered(bb) =~= covered);
    assert(spec_block_checksum_bytes(bb) =~= spec_checksum_encode(cs));
    assert forall|i: int| 0 <= i < offs.len() implies spec_block_offsets(bb)[i] == offs[i] by {
        lemma_offsets_le_index(offs, i);
        assert(bb.subrange(entries.len() + 4 * i, entries.len() + 4 * i + 4) =~= spec_offsets_le(
            offs,
        ).subrange(4 * i, 4 * i + 4));
        lemma_auto_spec_u32_to_from_le_bytes();
    }
    assert(spec_block_offsets(bb) =~= offs);
}

/// What the directory record `bo` promises of the stream `buf`: its block
/// region lies inside the stream, parses with a matching checksum, its base
/// key is its first entry's key, and its entries decode to exactly the keys
/// `ks` and encoded values `vs`.
pub open spec fn spec_block_slice_inv(
    buf: Seq<u8>,
    bo: BlockOffsetView,
    ks: Seq<Seq<u8>>,
    vs: Seq<Seq<u8>>,
) -> bool {
    let slice = buf.subrange(bo.offset as int, bo.offset + bo.len);
    let cov = spec_block_covered(slice);
    let offs = spec_block_offsets(slice);
    let eis = spec_block_entries_index_start(slice);
    &&& bo.offset + bo.len <= buf.len()
    &&& spec_block_parses(slice)
    &&& spec_checksum_decodes(spec_block_checksum_bytes(slice))
    &&& spec_checksum_decode(spec_block_checksum_bytes(slice)).sum == crc32c_of(cov) as u64
    &&& offs.len() == ks.len()
    &&& vs.len() == ks.len()
    &&& ks.len() > 0
    &&& offs[0] == 0
    &&& bo.key == spec_entry_key(cov, offs, eis, 0)
    &&& forall|i: int| 0 <= i < offs.len() ==> #[trigger] spec_entry_ok(cov, offs, eis, i)
    &&& forall|i: int|
        0 <= i < offs.len() ==> #[trigger] spec_entry_key(cov, offs, eis, i) == ks[i]
    &&& forall|i: int|
        0 <= i < offs.len() ==> #[trigger] spec_entry_value_bytes(cov, offs, eis, i) == vs[i]
}

/// A block's promise is stable under growing the stream behind it.
pub proof fn lemma_block_slice_inv_extend(
    buf: Seq<u8>,
    buf2: Seq<u8>,
    bo: BlockOffsetView,
    ks: Seq<Seq<u8>>,
    vs: Seq<Seq<u8>>,
)
    requires
        buf.len() <= buf2.len(),
        buf2.subrange(0, buf.len() as int) == buf,
        spec_block_slice_inv(buf, bo, ks, vs),
    ensures
        spec_block_slice_inv(buf2, bo, ks, vs),
{
    assert forall|k: int| 0 <= k < buf.len() implies buf2[k] == buf[k] by {
        assert(buf2.subrange(0, buf.len() as int)[k] == buf2[k]);
    }
    assert(buf2.subrange(bo.offset as int, bo.offset + bo.len) =~= buf.subrange(
        bo.offset as int,
        bo.offset + bo.len,
    ));
}

/// What every directory record of a finished stream promises, block by
/// block.
pub open spec fn spec_stream_blocks_inv(
    stream: Seq<u8>,
    blocks: Seq<BlockOffsetView>,
    all_keys: Seq<Seq<Seq<u8>>>,
    all_vals: Seq<Seq<Seq<u8>>>,
) -> bool {
    &&& all_keys.len() == blocks.len()
    &&& all_vals.len() == blocks.len()
    &&& forall|j: int|
        0 <= j < blocks.len() ==> #[trigger] spec_block_slice_inv(
            stream,
            blocks[j],
            all_keys[j],
            all_vals[j],
        )
}

/// Whether every block of the directory keeps its last entry's offset
/// within the block size. For a parsed block this is the block-size bound
/// in the shape spec'd of it: the block's length is then at most the block
/// size plus its last entry's serialized size, the offsets array, the
/// entry-count field and the checksum framing.
#[verifier::opaque]
pub open spec fn blocks_within_budget(
    buf: Seq<u8>,
    blocks: Seq<BlockOffsetView>,
    block_size: u32,
) -> bool {
    forall|j: int|
        0 <= j < blocks.len() ==> (#[trigger] spec_block_offsets(
            buf.subrange(blocks[j].offset as int, blocks[j].offset + blocks[j].len),
        )).last() as int <= block_size
}

/// Appending one entry's bytes and its offset to a block under
/// construction leaves every earlier entry decoding exactly as before.
proof fn lemma_cur_entries_stable_after_append(
    d: Seq<u8>,
    d2: Seq<u8>,
    offs: Seq<u32>,
    offs2: Seq<u32>,
)
    requires
        offs2.len() == offs.len() + 1,
        forall|j: int| 0 <= j < offs.len() ==> offs2[j] == offs[j],
        offs2[offs.len() as int] as int == d.len(),
        d.len() <= d2.len(),
        d2.subrange(0, d.len() as int) == d,
        forall|i: int| 0 <= i < offs.len() ==> #[trigger] spec_entry_ok(d, offs, d.len() as int, i),
    ensures
        forall|i: int|
            0 <= i < offs.len() ==> #[trigger] spec_entry_ok(d2, offs2, d2.len() as int, i),
        forall|i: int|
            0 <= i < offs.len() ==> #[trigger] spec_entry_key(d2, offs2, d2.len() as int, i)
                == spec_entry_key(d, offs, d.len() as int, i),
        forall|i: int|
            0 <= i < offs.len() ==> #[trigger] spec_entry_value_bytes(d2, offs2, d2.len() as int, i)
                == spec_entry_value_bytes(d, offs, d.len() as int, i),
        offs.len() > 0 ==> spec_base_key(d2, offs2) == spec_base_key(d, offs),
        offs.len() > 0 ==> spec_entry_overlap(d2, offs2, 0) == spec_entry_overlap(d, offs, 0),
{
    let eis2 = d2.len() as int;
    assert forall|i: int| 0 <= i < offs.len() implies #[trigger] spec_entry_ok(
        d2,
        offs2,
        eis2,
        i,
    ) by {
        assert(spec_entry_ok(d, offs, d.len() as int, i));
        assert(spec_entry_end(offs2, eis2, i) == spec_entry_end(offs, d.len() as int, i));
        assert(spec_entry_end(offs2, eis2, 0) == spec_entry_end(offs, d.len() as int, 0));
        assert(spec_entry_end(offs, d.len() as int, i) <= d.len());
        assert(spec_entry_end(offs, d.len() as int, 0) <= d.len());
        lemma_entry_decode_prefix_stable(d, d2, offs, offs2, eis2, i);
    }
    assert forall|i: int| 0 <= i < offs.len() implies #[trigger] spec_entry_key(d2, offs2, eis2, i)
        == spec_entry_key(d, offs, d.len() as int, i) by {
        assert(spec_entry_ok(d, offs, d.len() as int, i));
        assert(spec_entry_end(offs2, eis2, i) == spec_entry_end(offs, d.len() as int, i));
        assert(spec_entry_end(offs2, eis2, 0) == spec_entry_end(offs, d.len() as int, 0));
        assert(spec_entry_end(offs, d.len() as int, i) <= d.len());
        assert(spec_entry_end(offs, d.len() as int, 0) <= d.len());
        lemma_entry_decode_prefix_stable(d, d2, offs, offs2, eis2, i);
    }
    assert forall|i: int| 0 <= i < offs.len() implies #[trigger] spec_entry_value_bytes(
        d2,
        offs2,
        eis2,
        i,
    ) == spec_entry_value_bytes(d, offs, d.len() as int, i) by {
        assert(spec_entry_ok(d, offs, d.len() as int, i));
        assert(spec_entry_end(offs2, eis2, i) == spec_entry_end(offs, d.len() as int, i));
        assert(spec_entry_end(offs2, eis2, 0) == spec_entry_end(offs, d.len() as int, 0));
        assert(spec_entry_end(offs, d.len() as int, i) <= d.len());
        assert(spec_entry_end(offs, d.len() as int, 0) <= d.len());
        lemma_entry_decode_prefix_stable(d, d2, offs, offs2, eis2, i);
    }
    if offs.len() > 0 {
        assert(spec_entry_ok(d, offs, d.len() as int, 0));
        assert(spec_entry_end(offs2, eis2, 0) == spec_entry_end(offs, d.len() as int, 0));
        assert(spec_entry_end(offs, d.len() as int, 0) <= d.len());
        lemma_entry_decode_prefix_stable(d, d2, offs, offs2, eis2, 0);
    }
}

/// The bytes the serialized index spends on a list of block-offset records.
pub open spec fn spec_index_weight(blocks: Seq<BlockOffsetView>) -> int
    decreases blocks.len(),
{
    if blocks.len() == 0 {
        0
    } else {
        12 + blocks[0].key.len() + spec_index_weight(blocks.skip(1))
    }
}

/// Appending one record adds its own weight.
pub proof fn lemma_index_weight_snoc(blocks: Seq<BlockOffsetView>)
    requires
        blocks.len() > 0,
    ensures
        spec_index_weight(blocks) == spec_index_weight(blocks.drop_last()) + 12
            + blocks.last().key.len(),
        spec_index_weight(blocks) >= 0,
    decreases blocks.len(),
{
    if blocks.len() == 1 {
        assert(blocks.skip(1) =~= Seq::<BlockOffsetView>::empty());
        assert(blocks.drop_last() =~= Seq::<BlockOffsetView>::empty());
    } else {
        lemma_index_weight_snoc(blocks.skip(1));
        assert(blocks.skip(1).drop_last() =~= blocks.drop_last().skip(1));
        assert(blocks.skip(1).last() == blocks.last());
        assert(blocks.drop_last()[0] == blocks[0]);
    }
}

/// The record list of a serialized index is exactly its weight long.
pub proof fn lemma_index_weight_is_encode_len(blocks: Seq<BlockOffsetView>)
    ensures
        spec_offsets_encode(blocks).len() == spec_index_weight(blocks),
        spec_index_weight(blocks) >= 0,
    decreases blocks.len(),
{
    lemma_u32_be_bytes();
    if blocks.len() > 0 {
        lemma_index_weight_is_encode_len(blocks.skip(1));
    }
}

/// The table builder.
pub struct Builder {
    /// The finished blocks, as table bytes.
    pub buf: Vec<u8>,
    /// The entry bytes of the block being built.
    pub cur_data: Vec<u8>,
    /// The entry offsets of the block being built.
    pub cur_offsets: Vec<u32>,
    /// The base key of the block being built.
    pub base_key: Vec<u8>,
    /// The last key added, for the ordering check.
    pub last_key: Vec<u8>,
    /// The directory of finished blocks.
    pub block_list: Vec<BlockOffset>,
    /// How many entries were added.
    pub key_count: u32,
    /// The largest timestamp among the added keys.
    pub max_version: u64,
    /// The build options, with a zero block size already defaulted.
    pub options: Options,
    /// The keys added so far, oldest first.
    pub keys: Ghost<Seq<Seq<u8>>>,
    /// The encoded value bytes added so far, oldest first.
    pub vals: Ghost<Seq<Seq<u8>>>,
    /// The key of each entry of the block being built.
    pub cur_keys: Ghost<Seq<Seq<u8>>>,
    /// The encoded value bytes of each entry of the block being built.
    pub cur_vals: Ghost<Seq<Seq<u8>>>,
    /// The keys of each finished block, block by block.
    pub done_keys: Ghost<Seq<Seq<Seq<u8>>>>,
    /// The encoded value bytes of each finished block, block by block.
    pub done_vals: Ghost<Seq<Seq<Seq<u8>>>>,
}

impl Builder {
    /// The bytes this builder has laid out so far.
    pub open spec fn spec_used(self) -> int {
        self.buf@.len() + self.cur_data@.len() + 4 * self.cur_offsets@.len() as int
    }

    /// The directory of finished blocks, as views.
    pub open spec fn spec_blocks(self) -> Seq<BlockOffsetView> {
        self.block_list@.map_values(|b: BlockOffset| b@)
    }

    /// The block under construction decodes, entry by entry, to exactly the
    /// keys and encoded values added into it. The entries area is read as in
    /// a finished block whose offsets array starts where the area ends.
    pub open spec fn cur_block_inv(self) -> bool {
        let d = self.cur_data@;
        let offs = self.cur_offsets@;
        let eis = d.len() as int;
        &&& self.cur_keys@.len() == offs.len()
        &&& self.cur_vals@.len() == offs.len()
        &&& forall|i: int| 0 <= i < offs.len() ==> #[trigger] spec_entry_ok(d, offs, eis, i)
        &&& forall|i: int|
            0 <= i < offs.len() ==> #[trigger] spec_entry_key(d, offs, eis, i)
                == self.cur_keys@[i]
        &&& forall|i: int|
            0 <= i < offs.len() ==> #[trigger] spec_entry_value_bytes(d, offs, eis, i)
                == self.cur_vals@[i]
        &&& offs.len() > 0 ==> spec_base_key(d, offs) == self.base_key@ && offs[0] == 0
    }

    /// The builder invariant, except the block-size budget of the block
    /// under construction and the size slack.
    pub open spec fn wf_core(self) -> bool {
        &&& self.options.block_size > 0
        &&& self.key_count == self.keys@.len()
        &&& keys_sorted(self.keys@)
        &&& self.keys@.len() > 0 ==> self.last_key@ == self.keys@.last()
        &&& self.last_key@.len() <= MAX_KEY_LEN
        &&& self.base_key@.len() <= MAX_KEY_LEN
        &&& self.cur_offsets@.len() > 0 ==> self.cur_data@.len() >= self.base_key@.len() + 14
        &&& self.cur_offsets@.len() == 0 ==> self.cur_data@.len() == 0
        &&& spec_index_weight(self.spec_blocks()) <= self.buf@.len()
        &&& self.block_list@.len() <= self.buf@.len()
        &&& forall|i: int|
            0 <= i < self.spec_blocks().len() ==> (#[trigger] self.spec_blocks()[i]).key.len()
                <= MAX_KEY_LEN
        &&& self.cur_block_inv()
        &&& self.done_keys@.len() == self.spec_blocks().len()
        &&& self.done_vals@.len() == self.spec_blocks().len()
        &&& forall|j: int|
            0 <= j < self.spec_blocks().len() ==> #[trigger] spec_block_slice_inv(
                self.buf@,
                self.spec_blocks()[j],
                self.done_keys@[j],
                self.done_vals@[j],
            )
        &&& forall|j: int|
            0 <= j < self.spec_blocks().len() ==> (#[trigger] self.spec_blocks()[j]).len as int
                <= self.options.block_size + self.done_keys@[j].last().len()
                + self.done_vals@[j].last().len() + 25
        &&& self.cur_offsets@.len() > 0 ==> self.cur_offsets@.last() as int
            <= self.options.block_size
        &&& blocks_within_budget(self.buf@, self.spec_blocks(), self.options.block_size)
        &&& self.keys@ == self.done_keys@.flatten() + self.cur_keys@
        &&& self.vals@ == self.done_vals@.flatten() + self.cur_vals@
        &&& forall|j: int|
            0 <= j && j + 1 < self.spec_blocks().len() ==> (#[trigger] self.spec_blocks()[j]).offset
                + self.spec_blocks()[j].len == self.spec_blocks()[j + 1].offset
        &&& self.spec_blocks().len() > 0 ==> self.spec_blocks()[0].offset == 0
            && self.spec_blocks().last().offset + self.spec_blocks().last().len
            == self.buf@.len()
        &&& self.spec_blocks().len() == 0 ==> self.buf@.len() == 0
    }

    /// The builder invariant.
    pub open spec fn wf(self) -> bool {
        &&& self.wf_core()
        &&& self.cur_offsets@.len() > 0 ==> self.cur_data@.len() + 4 * self.cur_offsets@.len()
            + 17 <= self.options.block_size
        &&& self.spec_used() + 40 <= u32::MAX
    }

    /// A fresh builder for the given options. A zero block size is treated
    /// as the default block size.
    pub fn new(opt: Options) -> (r: Builder)
        ensures
            r.wf(),
            r.keys@.len() == 0,
            r.key_count == 0,
            r.max_version == 0,
            r.buf@.len() == 0,
            r.spec_blocks().len() == 0,
            r.cur_offsets@.len() == 0,
            r.options.block_size == if opt.block_size == 0 {
                crate::opt::DEFAULT_BLOCK_SIZE
            } else {
                opt.block_size
            },
            r.options.table_size == opt.table_size,
    {
        let b = Builder {
            buf: Vec::new(),
            cur_data: Vec::new(),
            cur_offsets: Vec::new(),
            base_key: Vec::new(),
            last_key: Vec::new(),
            block_list: Vec::new(),
            key_count: 0,
            max_version: 0,
            options: opt.effective(),
            keys: Ghost(Seq::empty()),
            vals: Ghost(Seq::empty()),
            cur_keys: Ghost(Seq::empty()),
            cur_vals: Ghost(Seq::empty()),
            done_keys: Ghost(Seq::empty()),
            done_vals: Ghost(Seq::empty()),
        };
        proof {
            assert(b.spec_blocks() =~= Seq::<BlockOffsetView>::empty());
            assert(b.keys@ =~= b.done_keys@.flatten() + b.cur_keys@);
            assert(b.vals@ =~= b.done_vals@.flatten() + b.cur_vals@);
            reveal(blocks_within_budget);
        }
        b
    }

    /// Finalizes the block under construction: appends the offsets array,
    /// the entry count, the checksum and its length, and records the block
    /// in the directory.
    fn finish_block(&mut self)
        requires
            old(self).wf_core(),
            old(self).spec_used() + 40 <= u32::MAX,
            old(self).cur_offsets@.len() > 0,
            old(self).cur_data@.len() + 4 * old(self).cur_offsets@.len() + 17 <= old(
                self,
            ).options.block_size + old(self).cur_keys@.last().len() + old(
                self,
            ).cur_vals@.last().len() + 25,
        ensures
            final(self).wf_core(),
            final(self).spec_used() == old(self).spec_used() + 17,
            final(self).buf@ == old(self).buf@ + spec_block_assemble(
                old(self).cur_data@,
                old(self).cur_offsets@,
            ),
            final(self).spec_blocks() == old(self).spec_blocks().push(
                BlockOffsetView {
                    key: old(self).base_key@,
                    offset: old(self).buf@.len() as u32,
                    len: (old(self).cur_data@.len() + 4 * old(self).cur_offsets@.len()
                        + 17) as u32,
                },
            ),
            final(self).cur_data@.len() == 0,
            final(self).cur_offsets@.len() == 0,
            final(self).base_key@.len() == 0,
            forall|i: int|
                #![trigger old(self).cur_keys@[i]]
                0 <= i < old(self).cur_offsets@.len() ==> {
                    let bb = spec_block_assemble(old(self).cur_data@, old(self).cur_offsets@);
                    let cov = spec_block_covered(bb);
                    let offs = spec_block_offsets(bb);
                    let eis = spec_block_entries_index_start(bb);
                    &&& spec_entry_ok(cov, offs, eis, i)
                    &&& spec_entry_key(cov, offs, eis, i) == old(self).cur_keys@[i]
                    &&& spec_entry_value_bytes(cov, offs, eis, i) == old(self).cur_vals@[i]
                },
            final(self).keys == old(self).keys,
            final(self).vals == old(self).vals,
            final(self).key_count == old(self).key_count,
            final(self).max_version == old(self).max_version,
            final(self).last_key == old(self).last_key,
            final(self).options == old(self).options,
            final(self).done_keys@ == old(self).done_keys@.push(old(self).cur_keys@),
            final(self).done_vals@ == old(self).done_vals@.push(old(self).cur_vals@),
    {
        let n = self.cur_offsets.len();
        let mut covered: Vec<u8> = Vec::new();
        extend_bytes(&mut covered, self.cur_data.as_slice());
        let mut j: usize = 0;
        while j < n
            invariant
                j <= n,
                n == self.cur_offsets@.len(),
                4 * n <= u32::MAX,
                covered@ == self.cur_data@ + spec_offsets_le(self.cur_offsets@.take(j as int)),
                self == old(self),
            decreases n - j,
        {
            put_u32_le(&mut covered, self.cur_offsets[j]);
            proof {
                lemma_offsets_le_snoc(self.cur_offsets@.take(j + 1));
                assert(self.cur_offsets@.take(j + 1).drop_last() =~= self.cur_offsets@.take(
                    j as int,
                ));
                assert(covered@ =~= self.cur_data@ + spec_offsets_le(
                    self.cur_offsets@.take(j + 1),
                ));
            }
            j = j + 1;
        }
        put_u32_be(&mut covered, n as u32);
        proof {
            assert(self.cur_offsets@.take(n as int) =~= self.cur_offsets@);
            lemma_offsets_le_len(self.cur_offsets@);
            lemma_u32_be_bytes();
        }
        let cs = calculate_checksum(covered.as_slice());
        let csb = encode_checksum(&cs);
        let offset = self.buf.len();
        extend_bytes(&mut self.buf, covered.as_slice());
        extend_bytes(&mut self.buf, csb.as_slice());
        put_u32_be(&mut self.buf, CHECKSUM_ENCODED_LEN as u32);
        let block_len = self.cur_data.len() + 4 * n + 17;
        let mut key: Vec<u8> = Vec::new();
        extend_bytes(&mut key, self.base_key.as_slice());
        self.block_list.push(BlockOffset { key, offset: offset as u32, len: block_len as u32 });
        self.cur_data.clear();
        self.cur_offsets.clear();
        self.base_key.clear();
        self.cur_keys = Ghost(Seq::empty());
        self.cur_vals = Ghost(Seq::empty());
        self.done_keys = Ghost(self.done_keys@.push(old(self).cur_keys@));
        self.done_vals = Ghost(self.done_vals@.push(old(self).cur_vals@));
        proof {
            let d = old(self).cur_data@;
            let offs = old(self).cur_offsets@;
            let bb = spec_block_assemble(d, offs);
            lemma_built_block_parses(d, offs);
            let cov = spec_block_covered(bb);
            assert(cov.subrange(0, d.len() as int) =~= d);
            assert forall|i: int| 0 <= i < offs.len() implies #[trigger] spec_entry_ok(
                cov,
                offs,
                d.len() as int,
                i,
            ) by {
                assert(spec_entry_ok(d, offs, d.len() as int, i));
                assert(spec_entry_end(offs, d.len() as int, i) <= d.len());
                assert(spec_entry_end(offs, d.len() as int, 0) <= d.len());
                lemma_entry_decode_prefix_stable(d, cov, offs, offs, d.len() as int, i);
            }
            assert forall|i: int| 0 <= i < offs.len() implies #[trigger] spec_entry_key(
                cov,
                offs,
                d.len() as int,
                i,
            ) == old(self).cur_keys@[i] by {
                assert(spec_entry_ok(d, offs, d.len() as int, i));
                assert(spec_entry_end(offs, d.len() as int, i) <= d.len());
                assert(spec_entry_end(offs, d.len() as int, 0) <= d.len());
                lemma_entry_decode_prefix_stable(d, cov, offs, offs, d.len() as int, i);
            }
            assert forall|i: int| 0 <= i < offs.len() implies #[trigger] spec_entry_value_bytes(
                cov,
                offs,
                d.len() as int,
                i,
            ) == old(self).cur_vals@[i] by {
                assert(spec_entry_ok(d, offs, d.len() as int, i));
                assert(spec_entry_end(offs, d.len() as int, i) <= d.len());
                assert(spec_entry_end(offs, d.len() as int, 0) <= d.len());
                lemma_entry_decode_prefix_stable(d, cov, offs, offs, d.len() as int, i);
            }
            assert(self.buf@ =~= old(self).buf@ + spec_block_assemble(
                old(self).cur_data@,
                old(self).cur_offsets@,
            ));
            assert(self.spec_blocks() =~= old(self).spec_blocks().push(self.block_list@.last()@));
            lemma_index_weight_snoc(self.spec_blocks());
            assert(self.spec_blocks().drop_last() =~= old(self).spec_blocks());
            assert forall|i: int| 0 <= i < self.spec_blocks().len() implies (
            #[trigger] self.spec_blocks()[i]).key.len() <= MAX_KEY_LEN by {
                if i < old(self).spec_blocks().len() {
                    assert(self.spec_blocks()[i] == old(self).spec_blocks()[i]);
                }
            }
            // The key stream splits as before: the finished block takes the
            // current entries with it.
            old(self).done_keys@.lemma_flatten_push(old(self).cur_keys@);
            old(self).done_vals@.lemma_flatten_push(old(self).cur_vals@);
            assert(self.keys@ =~= self.done_keys@.flatten() + self.cur_keys@);
            assert(self.vals@ =~= self.done_vals@.flatten() + self.cur_vals@);
            // The directory stays contiguous: the new block starts where
            // the stream ended and ends where it now ends.
            assert forall|j: int| 0 <= j && j + 1 < self.spec_blocks().len() implies (
            #[trigger] self.spec_blocks()[j]).offset + self.spec_blocks()[j].len
                == self.spec_blocks()[j + 1].offset by {
                if j + 1 < old(self).spec_blocks().len() {
                    assert(self.spec_blocks()[j] == old(self).spec_blocks()[j]);
                    assert(self.spec_blocks()[j + 1] == old(self).spec_blocks()[j + 1]);
                } else {
                    assert(self.spec_blocks()[j] == old(self).spec_blocks().last());
                }
            }
            // The blocks already finished keep their promise in the longer
            // stream.
            assert(self.buf@.subrange(0, old(self).buf@.len() as int) =~= old(self).buf@);
            assert forall|j: int| 0 <= j < old(self).spec_blocks().len()
                implies #[trigger] spec_block_slice_inv(
                self.buf@,
                self.spec_blocks()[j],
                self.done_keys@[j],
                self.done_vals@[j],
            ) by {
                assert(self.spec_blocks()[j] == old(self).spec_blocks()[j]);
                lemma_block_slice_inv_extend(
                    old(self).buf@,
                    self.buf@,
                    old(self).spec_blocks()[j],
                    old(self).done_keys@[j],
                    old(self).done_vals@[j],
                );
            }
            // The block just finished keeps it too.
            let bo = self.spec_blocks().last();
            let slice = self.buf@.subrange(bo.offset as int, bo.offset + bo.len);
            assert(slice =~= bb);
            assert(spec_entry_key(cov, offs, d.len() as int, 0) == old(self).cur_keys@[0]);
            assert(spec_entry_overlap(d, offs, 0) == 0) by {
                assert(spec_entry_ok(d, offs, d.len() as int, 0));
            }
            assert(spec_entry_key(d, offs, d.len() as int, 0) =~= spec_base_key(d, offs));
            assert(bo.key == spec_entry_key(cov, offs, d.len() as int, 0)) by {
                assert(spec_entry_key(d, offs, d.len() as int, 0) == old(self).cur_keys@[0]);
                assert(spec_base_key(d, offs) == old(self).base_key@);
            }
            assert(spec_block_slice_inv(
                self.buf@,
                bo,
                old(self).cur_keys@,
                old(self).cur_vals@,
            ));
            // Last entry offsets stay within the block size, for the old
            // blocks (their slices are unchanged) and for the new one.
            reveal(blocks_within_budget);
            assert forall|j: int| 0 <= j < self.spec_blocks().len() implies (
            #[trigger] spec_block_offsets(
                self.buf@.subrange(
                    self.spec_blocks()[j].offset as int,
                    self.spec_blocks()[j].offset + self.spec_blocks()[j].len,
                ),
            )).last() as int <= self.options.block_size by {
                if j < old(self).spec_blocks().len() {
                    assert(self.spec_blocks()[j] == old(self).spec_blocks()[j]);
                    let bj = old(self).spec_blocks()[j];
                    assert(spec_block_slice_inv(
                        old(self).buf@,
                        bj,
                        old(self).done_keys@[j],
                        old(self).done_vals@[j],
                    ));
                    assert(self.buf@.subrange(bj.offset as int, bj.offset + bj.len)
                        =~= old(self).buf@.subrange(bj.offset as int, bj.offset + bj.len));
                } else {
                    assert(self.buf@.subrange(
                        self.spec_blocks()[j].offset as int,
                        self.spec_blocks()[j].offset + self.spec_blocks()[j].len,
                    ) =~= bb);
                }
            }
            assert(blocks_within_budget(self.buf@, self.spec_blocks(), self.options.block_size));
            // Every finished block, the new one included, stays within the
            // block size plus its last entry and the framing.
            assert forall|j: int| 0 <= j < self.spec_blocks().len() implies (
            #[trigger] self.spec_blocks()[j]).len as int <= self.options.block_size
                + self.done_keys@[j].last().len() + self.done_vals@[j].last().len() + 25 by {
                if j < old(self).spec_blocks().len() {
                    assert(self.spec_blocks()[j] == old(self).spec_blocks()[j]);
                    assert(self.done_keys@[j] == old(self).done_keys@[j]);
                    assert(self.done_vals@[j] == old(self).done_vals@[j]);
                }
            }
        }
    }

    /// Adds one entry. The key must be a whole internal key no smaller than
    /// every key added before it; a smaller key is rejected with
    /// `OutOfOrderKey` and the builder is left unchanged. When the block
    /// under construction outgrows the block size, it is finalized, and the
    /// finished block's length stays within the block size plus the size of
    /// the entry just added and the block framing.
    #[verifier::rlimit(100)]
    #[verifier::spinoff_prover]
    pub fn add(&mut self, key: &[u8], value: Value, _vptr_len: u32) -> (r: Result<(), Error>)
        requires
            old(self).wf(),
            key@.len() <= MAX_KEY_LEN,
            old(self).spec_used() + key@.len() + value.value@.len() + 100 <= u32::MAX,
            old(self).key_count < u32::MAX,
        ensures
            final(self).wf(),
            final(self).options == old(self).options,
            r is Err <==> old(self).keys@.len() > 0 && lex_lt(key@, old(self).last_key@),
            r is Err ==> r->Err_0 is OutOfOrderKey,
            r is Err ==> final(self).keys == old(self).keys && final(self).key_count == old(
                self,
            ).key_count && final(self).max_version == old(self).max_version && final(self).buf@
                == old(self).buf@ && final(self).spec_blocks() == old(self).spec_blocks(),
            r is Ok ==> final(self).keys@ == old(self).keys@.push(key@),
            r is Ok ==> final(self).vals@ == old(self).vals@.push(value.spec_encode()),
            r is Err ==> final(self).vals == old(self).vals,
            r is Ok ==> final(self).key_count == old(self).key_count + 1,
            r is Ok ==> final(self).last_key@ == key@,
            r is Ok ==> final(self).max_version == if spec_get_ts(key@) > old(self).max_version {
                spec_get_ts(key@)
            } else {
                old(self).max_version
            },
            r is Ok ==> (final(self).spec_blocks() == old(self).spec_blocks() && final(self).buf@
                == old(self).buf@) || (final(self).spec_blocks().len() == old(
                self,
            ).spec_blocks().len() + 1 && final(self).spec_blocks().last().len as int <= old(
                self,
            ).options.block_size + key@.len() + value.value@.len() + 64),
    {
        if self.key_count > 0 && key_lt(key, self.last_key.as_slice()) {
            return Err(Error::OutOfOrderKey);
        }
        proof {
            lemma_lex_total(old(self).last_key@, key@);
            vstd::bytes::lemma_auto_spec_u16_to_from_le_bytes();
            lemma_u64_be_bytes();
        }
        let overlap: usize = if self.cur_offsets.len() == 0 {
            let mut bk: Vec<u8> = Vec::new();
            extend_bytes(&mut bk, key);
            self.base_key = bk;
            0
        } else {
            lcp_len(self.base_key.as_slice(), key)
        };
        let diff_len = key.len() - overlap;
        self.cur_offsets.push(self.cur_data.len() as u32);
        put_u16_le(&mut self.cur_data, overlap as u16);
        put_u16_le(&mut self.cur_data, diff_len as u16);
        extend_from_range(&mut self.cur_data, key, overlap, key.len());
        value.encode_into(&mut self.cur_data);
        let mut lk: Vec<u8> = Vec::new();
        extend_bytes(&mut lk, key);
        self.last_key = lk;
        self.key_count = self.key_count + 1;
        let ts = get_ts(key);
        if ts > self.max_version {
            self.max_version = ts;
        }
        self.keys = Ghost(self.keys@.push(key@));
        self.vals = Ghost(self.vals@.push(value.spec_encode()));
        self.cur_keys = Ghost(self.cur_keys@.push(key@));
        self.cur_vals = Ghost(self.cur_vals@.push(value.spec_encode()));
        proof {
            let d = old(self).cur_data@;
            let d2 = self.cur_data@;
            let offs = old(self).cur_offsets@;
            let offs2 = self.cur_offsets@;
            let n = offs.len() as int;
            let eis2 = d2.len() as int;
            let entry = vstd::bytes::spec_u16_to_le_bytes(overlap as u16)
                + vstd::bytes::spec_u16_to_le_bytes(diff_len as u16) + key@.subrange(
                overlap as int,
                key@.len() as int,
            ) + value.spec_encode();
            assert(d2 =~= d + entry);
            assert(d2.subrange(0, d.len() as int) =~= d);
            assert(offs2[n] as int == d.len());
            assert(self.keys@ =~= self.done_keys@.flatten() + self.cur_keys@);
            assert(self.vals@ =~= self.done_vals@.flatten() + self.cur_vals@);
            // The entries already in the block decode as before.
            lemma_cur_entries_stable_after_append(d, d2, offs, offs2);
            // The new entry decodes to the key and value just added.
            let o = d.len() as int;
            assert(d2.subrange(o, o + 2) =~= vstd::bytes::spec_u16_to_le_bytes(overlap as u16));
            assert(d2.subrange(o + 2, o + 4) =~= vstd::bytes::spec_u16_to_le_bytes(
                diff_len as u16,
            ));
            assert(spec_entry_overlap(d2, offs2, n) == overlap);
            assert(crate::block::spec_entry_diff_len(d2, offs2, n) == diff_len);
            assert(crate::block::spec_entry_diff(d2, offs2, n) =~= key@.subrange(
                overlap as int,
                key@.len() as int,
            ));
            assert(spec_entry_end(offs2, eis2, n) == eis2);
            assert(spec_entry_value_bytes(d2, offs2, eis2, n) =~= value.spec_encode());
            if n == 0 {
                assert(spec_base_key(d2, offs2) =~= key@);
                assert(spec_entry_key(d2, offs2, eis2, n) =~= key@);
            } else {
                assert(spec_entry_ok(d2, offs2, eis2, 0));
                assert(spec_entry_ok(d, offs, d.len() as int, 0));
                assert(spec_base_key(d2, offs2) == old(self).base_key@);
                assert(spec_base_key(d2, offs2).take(overlap as int) =~= key@.take(
                    overlap as int,
                ));
                assert(spec_entry_key(d2, offs2, eis2, n) =~= key@);
            }
            assert(spec_entry_ok(d2, offs2, eis2, n));
        }
        proof {
            assert forall|i: int, j: int| 0 <= i < j < self.keys@.len() implies lex_le(
                #[trigger] self.keys@[i],
                #[trigger] self.keys@[j],
            ) by {
                if j == self.keys@.len() - 1 {
                    if old(self).keys@.len() > 0 && i < old(self).keys@.len() - 1 {
                        lemma_lex_le_transitive(self.keys@[i], old(self).keys@.last(), key@);
                    }
                } else {
                    assert(self.keys@[i] == old(self).keys@[i]);
                    assert(self.keys@[j] == old(self).keys@[j]);
                }
            }
        }
        proof {
            assert(self.cur_data@.len() + 4 * self.cur_offsets@.len() as int + 17 <= u32::MAX);
        }
        let estimate = self.cur_data.len() + 4 * self.cur_offsets.len() + 17;
        if estimate > self.options.block_size as usize {
            self.finish_block();
        }
        Ok(())
    }

    /// Finishes the table: finalizes the block under construction, appends
    /// the serialized index, the index length, the index checksum message
    /// and its length, and returns the whole byte stream.
    pub fn finish(self) -> (r: Vec<u8>)
        requires
            self.wf(),
        ensures
            ({
                let pre = self;
                let blocks = if pre.cur_offsets@.len() > 0 {
                    pre.spec_blocks().push(
                        BlockOffsetView {
                            key: pre.base_key@,
                            offset: pre.buf@.len() as u32,
                            len: (pre.cur_data@.len() + 4 * pre.cur_offsets@.len() + 17) as u32,
                        },
                    )
                } else {
                    pre.spec_blocks()
                };
                let body = if pre.cur_offsets@.len() > 0 {
                    pre.buf@ + spec_block_assemble(pre.cur_data@, pre.cur_offsets@)
                } else {
                    pre.buf@
                };
                let iv = TableIndexView {
                    offsets: blocks,
                    bloom_filter: Seq::empty(),
                    key_count: pre.key_count,
                    max_version: pre.max_version,
                };
                let ib = spec_index_encode(iv);
                let cs = Checksum { algo: ChecksumAlgorithm::Crc32c, sum: crc32c_of(ib) as u64 };
                r@ == body + ib + spec_u32_to_be_bytes(ib.len() as u32) + spec_checksum_encode(cs)
                    + spec_u32_to_be_bytes(CHECKSUM_ENCODED_LEN as u32)
            }),
            ({
                let pre = self;
                let blocks = if pre.cur_offsets@.len() > 0 {
                    pre.spec_blocks().push(
                        BlockOffsetView {
                            key: pre.base_key@,
                            offset: pre.buf@.len() as u32,
                            len: (pre.cur_data@.len() + 4 * pre.cur_offsets@.len() + 17) as u32,
                        },
                    )
                } else {
                    pre.spec_blocks()
                };
                let all_keys = if pre.cur_offsets@.len() > 0 {
                    pre.done_keys@.push(pre.cur_keys@)
                } else {
                    pre.done_keys@
                };
                let all_vals = if pre.cur_offsets@.len() > 0 {
                    pre.done_vals@.push(pre.cur_vals@)
                } else {
                    pre.done_vals@
                };
                &&& spec_stream_blocks_inv(r@, blocks, all_keys, all_vals)
                &&& pre.keys@ == all_keys.flatten()
                &&& pre.vals@ == all_vals.flatten()
                &&& forall|j: int|
                    0 <= j && j + 1 < blocks.len() ==> (#[trigger] blocks[j]).offset
                        + blocks[j].len == blocks[j + 1].offset
                &&& blocks.len() > 0 ==> blocks[0].offset == 0
                &&& forall|j: int|
                    0 <= j < blocks.len() ==> (#[trigger] spec_block_offsets(
                        r@.subrange(blocks[j].offset as int, blocks[j].offset + blocks[j].len),
                    )).last() as int <= pre.options.block_size
                &&& forall|j: int|
                    0 <= j < blocks.len() ==> (#[trigger] blocks[j]).len as int
                        <= pre.options.block_size + all_keys[j].last().len()
                        + all_vals[j].last().len() + 25
            }),
    {
        let mut this = self;
        if this.cur_offsets.len() > 0 {
            this.finish_block();
        }
        let ghost blocks = this.spec_blocks();
        let ghost body = this.buf@;
        let ghost dk = this.done_keys@;
        let ghost dv = this.done_vals@;
        let ghost options_block_size = this.options.block_size;
        proof {
            if self.cur_offsets@.len() > 0 {
                self.done_keys@.lemma_flatten_push(self.cur_keys@);
                self.done_vals@.lemma_flatten_push(self.cur_vals@);
            } else {
                assert(self.cur_keys@.len() == 0);
                assert(self.cur_vals@.len() == 0);
                assert(self.keys@ =~= self.done_keys@.flatten());
                assert(self.vals@ =~= self.done_vals@.flatten());
            }
            assert(self.keys@ =~= dk.flatten());
            assert(self.vals@ =~= dv.flatten());
        }
        let index = TableIndex {
            offsets: this.block_list,
            bloom_filter: Vec::new(),
            key_count: this.key_count,
            max_version: this.max_version,
        };
        proof {
            assert(index@.offsets =~= blocks);
            assert(index@.bloom_filter =~= Seq::<u8>::empty());
            lemma_index_weight_is_encode_len(blocks);
            lemma_u32_be_bytes();
            lemma_u64_be_bytes();
        }
        let ib = encode_index(&index);
        let cs = calculate_checksum(ib.as_slice());
        let csb = encode_checksum(&cs);
        let mut out = this.buf;
        extend_bytes(&mut out, ib.as_slice());
        put_u32_be(&mut out, ib.len() as u32);
        extend_bytes(&mut out, csb.as_slice());
        put_u32_be(&mut out, CHECKSUM_ENCODED_LEN as u32);
        proof {
            assert(out@.subrange(0, body.len() as int) =~= body);
            assert forall|j: int| 0 <= j < blocks.len() implies #[trigger] spec_block_slice_inv(
                out@,
                blocks[j],
                dk[j],
                dv[j],
            ) by {
                lemma_block_slice_inv_extend(body, out@, blocks[j], dk[j], dv[j]);
            }
            reveal(blocks_within_budget);
            assert forall|j: int| 0 <= j < blocks.len() implies (#[trigger] spec_block_offsets(
                out@.subrange(blocks[j].offset as int, blocks[j].offset + blocks[j].len),
            )).last() as int <= options_block_size by {
                assert(spec_block_slice_inv(body, blocks[j], dk[j], dv[j]));
                assert(out@.subrange(blocks[j].offset as int, blocks[j].offset + blocks[j].len)
                    =~= body.subrange(blocks[j].offset as int, blocks[j].offset + blocks[j].len));
            }
        }
        out
    }

    /// A lower bound on the finished table's size: the bytes laid out so
    /// far plus the index and framing they will cost.
    pub fn estimated_size(&self) -> (r: u64)
        requires
            self.wf(),
        ensures
            r == self.spec_used() + 37 + spec_index_weight(self.spec_blocks()),
    {
        let mut weight: u64 = 0;
        let n = self.block_list.len();
        let mut i: usize = 0;
        while i < n
            invariant
                i <= n,
                n == self.block_list@.len(),
                self.wf(),
                weight == spec_index_weight(self.spec_blocks().take(i as int)),
                weight <= i * 65547,
            decreases n - i,
        {
            proof {
                lemma_index_weight_snoc(self.spec_blocks().take(i + 1));
                assert(self.spec_blocks().take(i + 1).drop_last() =~= self.spec_blocks().take(
                    i as int,
                ));
                assert(self.spec_blocks().take(i + 1).last() == self.spec_blocks()[i as int]);
            }
            weight = weight + 12 + self.block_list[i].key.len() as u64;
            i = i + 1;
        }
        proof {
            assert(self.spec_blocks().take(n as int) =~= self.spec_blocks());
        }
        self.buf.len() as u64 + self.cur_data.len() as u64 + 4 * (self.cur_offsets.len() as u64)
            + 37 + weight
    }

    /// How many entries were added.
    pub fn key_count(&self) -> (r: u32)
        ensures
            r == self.key_count,
    {
        self.key_count
    }
}

/// The length of the longest common prefix of `a` and `b`.
#[verifier::loop_isolation(false)]
pub fn lcp_len(a: &[u8], b: &[u8]) -> (r: usize)
    ensures
        r == spec_lcp(a@, b@),
        r <= a@.len(),
        r <= b@.len(),
        a@.take(r as int) == b@.take(r as int),
        r < a@.len() && r < b@.len() ==> a@[r as int] != b@[r as int],
{
    let a_len = a.len();
    let b_len = b.len();
    let n: usize = if a_len < b_len {
        a_len
    } else {
        b_len
    };
    proof {
        assert(a@.skip(0) =~= a@);
        assert(b@.skip(0) =~= b@);
    }
    let mut i: usize = 0;
    while i < n
        invariant
            i <= n,
            a@.take(i as int) == b@.take(i as int),
            spec_lcp(a@, b@) == i + spec_lcp(a@.skip(i as int), b@.skip(i as int)),
        decreases n - i,
    {
        if a[i] != b[i] {
            proof {
                assert(a@.skip(i as int)[0] == a@[i as int]);
                assert(b@.skip(i as int)[0] == b@[i as int]);
                assert(spec_lcp(a@.skip(i as int), b@.skip(i as int)) == 0);
            }
            return i;
        }
        proof {
            assert(a@.take(i + 1) =~= a@.take(i as int).push(a@[i as int]));
            assert(b@.take(i + 1) =~= b@.take(i as int).push(b@[i as int]));
            assert(a@.skip(i as int)[0] == a@[i as int]);
            assert(b@.skip(i as int)[0] == b@[i as int]);
            assert(a@.skip(i as int).skip(1) =~= a@.skip(i + 1));
            assert(b@.skip(i as int).skip(1) =~= b@.skip(i + 1));
        }
        i = i + 1;
    }
    proof {
        if a_len <= b_len {
            assert(a@.skip(n as int).len() == 0);
        } else {
            assert(b@.skip(n as int).len() == 0);
        }
        assert(spec_lcp(a@.skip(n as int), b@.skip(n as int)) == 0);
    }
    n
}

} // verus!
