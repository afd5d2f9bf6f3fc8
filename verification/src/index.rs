//! The table index: the directory of block offsets plus aggregate metadata,
//! and its serialization.
//!
//! Layout, front to back: `key_count (BE u32) ‖ max_version (BE u64) ‖
//! bloom_len (BE u32) ‖ bloom ‖ n (BE u32) ‖ n block-offset records`, where a
//! record is `key_len (BE u32) ‖ base_key ‖ offset (BE u32) ‖ len (BE u32)`.
//! The record list runs to the end of the index bytes.

use vstd::prelude::*;
use crate::error::Error;
use crate::format::{
    extend_bytes, extend_from_range, get_u32_be, get_u64_be, put_u32_be, put_u64_be,
    spec_u32_from_be_bytes, spec_u32_to_be_bytes, spec_u64_from_be_bytes, spec_u64_to_be_bytes,
    lemma_u32_be_bytes, lemma_u64_be_bytes,
};

verus! {

/// One finished block: its position, length, and base key.
pub struct BlockOffset {
    pub key: Vec<u8>,
    pub offset: u32,
    pub len: u32,
}

/// The mathematical view of a block-offset record.
pub ghost struct BlockOffsetView {
    pub key: Seq<u8>,
    pub offset: u32,
    pub len: u32,
}

impl View for BlockOffset {
    type V = BlockOffsetView;

    open spec fn view(&self) -> BlockOffsetView {
        BlockOffsetView { key: self.key@, offset: self.offset, len: self.len }
    }
}

/// The index of a table: the ordered directory of its blocks plus
/// aggregate metadata.
pub struct TableIndex {
    pub offsets: Vec<BlockOffset>,
    pub bloom_filter: Vec<u8>,
    pub key_count: u32,
    pub max_version: u64,
}

/// The mathematical view of a table index.
pub ghost struct TableIndexView {
    pub offsets: Seq<BlockOffsetView>,
    pub bloom_filter: Seq<u8>,
    pub key_count: u32,
    pub max_version: u64,
}

impl View for TableIndex {
    type V = TableIndexView;

    open spec fn view(&self) -> TableIndexView {
        TableIndexView {
            offsets: self.offsets@.map_values(|b: BlockOffset| b@),
            bloom_filter: self.bloom_filter@,
            key_count: self.key_count,
            max_version: self.max_version,
        }
    }
}

impl TableIndex {
    /// An index with no blocks and no keys.
    pub fn new() -> (r: TableIndex)
        ensures
            r@.offsets.len() == 0,
            r@.bloom_filter.len() == 0,
            r@.key_count == 0,
            r@.max_version == 0,
    {
        TableIndex { offsets: Vec::new(), bloom_filter: Vec::new(), key_count: 0, max_version: 0 }
    }
}

/// Whether an index view fits the serialized framing: every length that is
/// written as a u32 must fit one.
pub open spec fn index_wf(v: TableIndexView) -> bool {
    &&& v.offsets.len() <= u32::MAX
    &&& v.bloom_filter.len() <= u32::MAX
    &&& forall|i: int| 0 <= i < v.offsets.len() ==> (#[trigger] v.offsets[i]).key.len() <= u32::MAX
}

/// The serialized form of one block-offset record.
pub open spec fn spec_block_offset_encode(b: BlockOffsetView) -> Seq<u8> {
    spec_u32_to_be_bytes(b.key.len() as u32) + b.key + spec_u32_to_be_bytes(b.offset)
        + spec_u32_to_be_bytes(b.len)
}

/// The serialized form of a list of block-offset records.
pub open spec fn spec_offsets_encode(offs: Seq<BlockOffsetView>) -> Seq<u8>
    decreases offs.len(),
{
    if offs.len() == 0 {
        Seq::empty()
    } else {
        spec_block_offset_encode(offs[0]) + spec_offsets_encode(offs.skip(1))
    }
}

/// The serialized form of a table index.
pub open spec fn spec_index_encode(v: TableIndexView) -> Seq<u8> {
    spec_u32_to_be_bytes(v.key_count) + spec_u64_to_be_bytes(v.max_version) + spec_u32_to_be_bytes(
        v.bloom_filter.len() as u32,
    ) + v.bloom_filter + spec_u32_to_be_bytes(v.offsets.len() as u32) + spec_offsets_encode(
        v.offsets,
    )
}

/// Decodes `n` block-offset records that must use `s` exactly.
pub open spec fn spec_offsets_decode(s: Seq<u8>, n: int) -> Option<Seq<BlockOffsetView>>
    decreases n,
{
    if n <= 0 {
        if s.len() == 0 && n == 0 {
            Some(Seq::empty())
        } else {
            None
        }
    } else if s.len() < 4 {
        None
    } else {
        let kl = spec_u32_from_be_bytes(s.subrange(0, 4)) as int;
        if s.len() < 4 + kl + 8 {
            None
        } else {
            let head = BlockOffsetView {
                key: s.subrange(4, 4 + kl),
                offset: spec_u32_from_be_bytes(s.subrange(4 + kl, 4 + kl + 4)),
                len: spec_u32_from_be_bytes(s.subrange(4 + kl + 4, 4 + kl + 8)),
            };
            match spec_offsets_decode(s.skip(4 + kl + 8), n - 1) {
                Some(rest) => Some(seq![head] + rest),
                None => None,
            }
        }
    }
}

/// Decodes a serialized table index.
pub open spec fn spec_index_decode(s: Seq<u8>) -> Option<TableIndexView> {
    if s.len() < 16 {
        None
    } else {
        let key_count = spec_u32_from_be_bytes(s.subrange(0, 4));
        let max_version = spec_u64_from_be_bytes(s.subrange(4, 12));
        let bl = spec_u32_from_be_bytes(s.subrange(12, 16)) as int;
        if s.len() < 16 + bl + 4 {
            None
        } else {
            let bloom_filter = s.subrange(16, 16 + bl);
            let n = spec_u32_from_be_bytes(s.subrange(16 + bl, 16 + bl + 4)) as int;
            match spec_offsets_decode(s.skip(16 + bl + 4), n) {
                Some(offsets) => Some(
                    TableIndexView { offsets, bloom_filter, key_count, max_version },
                ),
                None => None,
            }
        }
    }
}

/// A serialized index reads back as the index it encodes.
pub proof fn lemma_index_round_trip(v: TableIndexView)
    requires
        index_wf(v),
    ensures
        spec_index_decode(spec_index_encode(v)) == Some(v),
{
    lemma_u32_be_bytes();
    lemma_u64_be_bytes();
    let s = spec_index_encode(v);
    let bl = v.bloom_filter.len() as int;
    assert(s.subrange(0, 4) =~= spec_u32_to_be_bytes(v.key_count));
    assert(s.subrange(4, 12) =~= spec_u64_to_be_bytes(v.max_version));
    assert(s.subrange(12, 16) =~= spec_u32_to_be_bytes(v.bloom_filter.len() as u32));
    assert(s.len() == 20 + bl + spec_offsets_encode(v.offsets).len()) by {
        lemma_offsets_encode_len(v.offsets);
    }
    assert(s.subrange(16, 16 + bl) =~= v.bloom_filter);
    assert(s.subrange(16 + bl, 16 + bl + 4) =~= spec_u32_to_be_bytes(v.offsets.len() as u32));
    assert(s.skip(16 + bl + 4) =~= spec_offsets_encode(v.offsets));
    lemma_offsets_round_trip(v.offsets);
}

/// The length of a serialized record list is nonnegative.
pub proof fn lemma_offsets_encode_len(offs: Seq<BlockOffsetView>)
    ensures
        spec_offsets_encode(offs).len() >= 0,
        offs.len() > 0 ==> spec_offsets_encode(offs).len() >= 12,
    decreases offs.len(),
{
    lemma_u32_be_bytes();
    if offs.len() > 0 {
        lemma_offsets_encode_len(offs.skip(1));
    }
}

/// A serialized record list reads back as the records it encodes.
pub proof fn lemma_offsets_round_trip(offs: Seq<BlockOffsetView>)
    requires
        forall|i: int| 0 <= i < offs.len() ==> (#[trigger] offs[i]).key.len() <= u32::MAX,
    ensures
        spec_offsets_decode(spec_offsets_encode(offs), offs.len() as int) == Some(offs),
    decreases offs.len(),
{
    lemma_u32_be_bytes();
    let s = spec_offsets_encode(offs);
    if offs.len() == 0 {
        assert(s =~= Seq::<u8>::empty());
        assert(spec_offsets_decode(s, 0) =~= Some(Seq::<BlockOffsetView>::empty()));
        assert(Some(Seq::<BlockOffsetView>::empty()) == Some(offs)) by {
            assert(offs =~= Seq::<BlockOffsetView>::empty());
        }
    } else {
        let b = offs[0];
        let kl = b.key.len() as int;
        let rest = spec_offsets_encode(offs.skip(1));
        assert(s =~= spec_block_offset_encode(b) + rest);
        assert(spec_block_offset_encode(b).len() == 12 + kl);
        assert(s.subrange(0, 4) =~= spec_u32_to_be_bytes(b.key.len() as u32));
        assert(s.len() >= 4 + kl + 8);
        assert(s.subrange(4, 4 + kl) =~= b.key);
        assert(s.subrange(4 + kl, 4 + kl + 4) =~= spec_u32_to_be_bytes(b.offset));
        assert(s.subrange(4 + kl + 4, 4 + kl + 8) =~= spec_u32_to_be_bytes(b.len));
        assert(s.skip(4 + kl + 8) =~= rest);
        lemma_offsets_round_trip(offs.skip(1));
        let head = BlockOffsetView {
            key: s.subrange(4, 4 + kl),
            offset: spec_u32_from_be_bytes(s.subrange(4 + kl, 4 + kl + 4)),
            len: spec_u32_from_be_bytes(s.subrange(4 + kl + 4, 4 + kl + 8)),
        };
        assert(head == b);
        assert(seq![head] + offs.skip(1) =~= offs);
    }
}

/// Serializes a table index.
pub fn encode_index(idx: &TableIndex) -> (r: Vec<u8>)
    requires
        index_wf(idx@),
    ensures
        r@ == spec_index_encode(idx@),
{
    let mut r: Vec<u8> = Vec::new();
    put_u32_be(&mut r, idx.key_count);
    put_u64_be(&mut r, idx.max_version);
    put_u32_be(&mut r, idx.bloom_filter.len() as u32);
    extend_bytes(&mut r, idx.bloom_filter.as_slice());
    put_u32_be(&mut r, idx.offsets.len() as u32);
    let n = idx.offsets.len();
    let ghost prefix = r@;
    let mut i: usize = 0;
    while i < n
        invariant
            i <= n,
            n == idx.offsets@.len(),
            index_wf(idx@),
            r@ == prefix + spec_offsets_encode(idx@.offsets.take(i as int)),
        decreases n - i,
    {
        let b = &idx.offsets[i];
        put_u32_be(&mut r, b.key.len() as u32);
        extend_bytes(&mut r, b.key.as_slice());
        put_u32_be(&mut r, b.offset);
        put_u32_be(&mut r, b.len);
        proof {
            lemma_offsets_encode_snoc(idx@.offsets.take(i + 1));
            assert(idx@.offsets.take(i + 1).drop_last() =~= idx@.offsets.take(i as int));
            assert(idx@.offsets.take(i + 1).last() == idx@.offsets[i as int]);
            assert(r@ =~= prefix + spec_offsets_encode(idx@.offsets.take(i + 1)));
        }
        i = i + 1;
    }
    proof {
        assert(idx@.offsets.take(n as int) =~= idx@.offsets);
        assert(r@ =~= spec_index_encode(idx@));
    }
    r
}

/// Appending one record to a list appends its encoding.
pub proof fn lemma_offsets_encode_snoc(offs: Seq<BlockOffsetView>)
    requires
        offs.len() > 0,
    ensures
        spec_offsets_encode(offs) == spec_offsets_encode(offs.drop_last())
            + spec_block_offset_encode(offs.last()),
    decreases offs.len(),
{
    if offs.len() == 1 {
        assert(offs.skip(1) =~= Seq::<BlockOffsetView>::empty());
        assert(offs.drop_last() =~= Seq::<BlockOffsetView>::empty());
        assert(spec_offsets_encode(offs) =~= spec_block_offset_encode(offs[0])
            + spec_offsets_encode(offs.skip(1)));
        assert(spec_offsets_encode(offs) =~= spec_offsets_encode(offs.drop_last())
            + spec_block_offset_encode(offs.last()));
    } else {
        lemma_offsets_encode_snoc(offs.skip(1));
        assert(offs.skip(1).drop_last() =~= offs.drop_last().skip(1));
        assert(offs.skip(1).last() == offs.last());
        assert(spec_offsets_encode(offs) =~= spec_block_offset_encode(offs[0])
            + spec_offsets_encode(offs.skip(1)));
        assert(offs.drop_last()[0] == offs[0]);
        assert(spec_offsets_encode(offs.drop_last()) =~= spec_block_offset_encode(offs[0])
            + spec_offsets_encode(offs.drop_last().skip(1)));
        assert(spec_offsets_encode(offs) =~= spec_offsets_encode(offs.drop_last())
            + spec_block_offset_encode(offs.last()));
    }
}

/// Deserializes a table index.
#[verifier::loop_isolation(false)]
pub fn decode_index(s: &[u8]) -> (r: Result<TableIndex, Error>)
    ensures
        r is Ok <==> spec_index_decode(s@) is Some,
        r is Ok ==> Some(r->Ok_0@) == spec_index_decode(s@),
        r is Err ==> r->Err_0 is DecodeError,
{
    let len: usize = s.len();
    if len < 16 {
        return Err(Error::DecodeError);
    }
    let key_count = get_u32_be(s, 0);
    let max_version = get_u64_be(s, 4);
    let bl = get_u32_be(s, 12) as usize;
    if bl > len - 16 || len - 16 - bl < 4 {
        return Err(Error::DecodeError);
    }
    let mut bloom_filter: Vec<u8> = Vec::new();
    extend_from_range(&mut bloom_filter, s, 16, 16 + bl);
    let n = get_u32_be(s, 16 + bl) as usize;
    let mut pos: usize = 16 + bl + 4;
    let mut offsets: Vec<BlockOffset> = Vec::new();
    let ghost tail0 = s@.skip(pos as int);
    let mut i: usize = 0;
    while i < n
        invariant
            i <= n,
            pos <= len,
            len == s@.len(),
            offsets@.len() == i,
            spec_offsets_decode(tail0, n as int) == match spec_offsets_decode(
                s@.skip(pos as int),
                n - i,
            ) {
                Some(rest) => Some(offsets@.map_values(|b: BlockOffset| b@) + rest),
                None => None::<Seq<BlockOffsetView>>,
            },
        decreases n - i,
    {
        let ghost tail = s@.skip(pos as int);
        if len - pos < 4 {
            proof {
                assert(tail.len() < 4);
                assert(spec_offsets_decode(tail, n - i) is None);
                assert(spec_offsets_decode(tail0, n as int) is None);
            }
            return Err(Error::DecodeError);
        }
        let kl = get_u32_be(s, pos) as usize;
        proof {
            assert(tail.subrange(0, 4) =~= s@.subrange(pos as int, pos + 4));
        }
        if kl > len - pos - 4 || len - pos - 4 - kl < 8 {
            proof {
                assert(tail.len() < 4 + kl + 8);
                assert(spec_offsets_decode(tail, n - i) is None);
                assert(spec_offsets_decode(tail0, n as int) is None);
            }
            return Err(Error::DecodeError);
        }
        let mut key: Vec<u8> = Vec::new();
        extend_from_range(&mut key, s, pos + 4, pos + 4 + kl);
        let offset = get_u32_be(s, pos + 4 + kl);
        let blen = get_u32_be(s, pos + 4 + kl + 4);
        proof {
            assert(tail.subrange(0, 4) =~= s@.subrange(pos as int, pos + 4));
            assert(tail.len() >= 4 + kl + 8);
            assert(tail.subrange(4, 4 + kl) =~= s@.subrange(pos + 4, pos + 4 + kl));
            assert(tail.subrange(4 + kl, 4 + kl + 4) =~= s@.subrange(pos + 4 + kl, pos + 4 + kl + 4));
            assert(tail.subrange(4 + kl + 4, 4 + kl + 8) =~= s@.subrange(
                pos + 4 + kl + 4,
                pos + 4 + kl + 8,
            ));
            assert(tail.skip(4 + kl + 8) =~= s@.skip(pos + 4 + kl + 8));
        }
        offsets.push(BlockOffset { key, offset, len: blen });
        proof {
            let mapped = offsets@.map_values(|b: BlockOffset| b@);
            assert(mapped =~= mapped.drop_last().push(offsets@.last()@));
            assert(mapped.drop_last() =~= offsets@.drop_last().map_values(|b: BlockOffset| b@));
            if spec_offsets_decode(s@.skip(pos + 4 + kl + 8), n - i - 1) is Some {
                let rest = spec_offsets_decode(s@.skip(pos + 4 + kl + 8), n - i - 1)->Some_0;
                assert(mapped.drop_last() + (seq![offsets@.last()@] + rest) =~= mapped + rest);
            }
        }
        pos = pos + 4 + kl + 8;
        i = i + 1;
    }
    proof {
        if pos < len {
            assert(s@.skip(pos as int).len() > 0);
        }
    }
    if pos != len {
        return Err(Error::DecodeError);
    }
    proof {
        assert(s@.skip(pos as int).len() == 0);
        assert(spec_offsets_decode(s@.skip(pos as int), 0) == Some(Seq::<BlockOffsetView>::empty()));
        let mapped = offsets@.map_values(|b: BlockOffset| b@);
        assert(mapped + Seq::<BlockOffsetView>::empty() =~= mapped);
        assert(s@.subrange(0, 4) =~= s@.take(4));
    }
    let r = TableIndex { offsets, bloom_filter, key_count, max_version };
    proof {
        assert(s@.subrange(16, 16 + bl as int) =~= r.bloom_filter@);
        assert(Some(r@) =~= spec_index_decode(s@));
    }
    Ok(r)
}

} // verus!
