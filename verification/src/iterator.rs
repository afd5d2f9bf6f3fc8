//! The table iterator: a bidirectional two-level cursor of a block index
//! and an entry index within the loaded block.
//!
//! The iterator does not raise for "not found": it becomes invalid. A
//! corrupt block met during navigation moves it to a failed state with the
//! cause recorded; further navigation keeps it failed.

use vstd::prelude::*;
use crate::block::{
    spec_block_covered, spec_block_entries_index_start,
    spec_block_offsets, spec_entry_key, spec_entry_ok, spec_entry_value_bytes, Block,
};
use crate::cmp::{
    compare_bytes, lemma_lex_le_lt_transitive, lemma_lex_lt_le_transitive, lemma_lex_lt_transitive,
    lex_le, lex_lt,
};
use crate::error::Error;
use crate::table::{spec_table_block_loads, spec_table_block_slice, Table};
use crate::value::{spec_value_matches, Value};

verus! {

/// Iterator flag: do not keep loaded blocks in a cache.
pub const ITERATOR_NOCACHE: usize = 1;

/// Iterator flag: `rewind`, `next` and `prev` run in the opposite direction.
pub const ITERATOR_REVERSED: usize = 2;

/// Where a cursor stands.
#[derive(Clone, Copy, PartialEq, Eq, Structural, Debug)]
pub enum IterState {
    /// Freshly created or reset; no position yet.
    Uninit,
    /// On an entry.
    At,
    /// Stepped past the front of the table.
    BeforeFirst,
    /// Stepped past the back of the table.
    AfterLast,
    /// A structural fault or checksum mismatch was met; see the error.
    Failed,
}

// ---------------------------------------------------------------------------
// Spec-level views of table positions.
// ---------------------------------------------------------------------------

/// The number of entries block `b` of the table declares.
pub open spec fn spec_num_entries_at(t: Table, b: int) -> int {
    spec_block_offsets(spec_table_block_slice(t.data@, t.index@, b)).len() as int
}

/// Whether entry `i` of block `b` can be decoded.
pub open spec fn spec_entry_ok_at(t: Table, b: int, i: int) -> bool {
    let slice = spec_table_block_slice(t.data@, t.index@, b);
    spec_entry_ok(
        spec_block_covered(slice),
        spec_block_offsets(slice),
        spec_block_entries_index_start(slice),
        i,
    )
}

/// The key of entry `i` of block `b`.
pub open spec fn spec_key_at(t: Table, b: int, i: int) -> Seq<u8> {
    let slice = spec_table_block_slice(t.data@, t.index@, b);
    spec_entry_key(
        spec_block_covered(slice),
        spec_block_offsets(slice),
        spec_block_entries_index_start(slice),
        i,
    )
}

/// The value bytes of entry `i` of block `b`.
pub open spec fn spec_value_bytes_at(t: Table, b: int, i: int) -> Seq<u8> {
    let slice = spec_table_block_slice(t.data@, t.index@, b);
    spec_entry_value_bytes(
        spec_block_covered(slice),
        spec_block_offsets(slice),
        spec_block_entries_index_start(slice),
        i,
    )
}

/// Whether the cursor can come to rest on entry `i` of block `b`: the block
/// loads with a matching checksum and the entry decodes.
pub open spec fn spec_entry_loads(t: Table, b: int, i: int) -> bool {
    &&& spec_table_block_loads(t.data@, t.index@, b)
    &&& 0 <= i < spec_num_entries_at(t, b)
    &&& spec_entry_ok_at(t, b, i)
}

/// Whether the table's entries are sorted: between any two positions in
/// block-then-entry order, the keys are in non-decreasing lexicographic
/// order. Every table the builder emits has this shape; an opened table of
/// unknown origin need not.
pub open spec fn spec_table_entries_sorted(t: Table) -> bool {
    forall|b1: int, i1: int, b2: int, i2: int|
        #![trigger spec_key_at(t, b1, i1), spec_key_at(t, b2, i2)]
        (0 <= b1 && 0 <= i1 && 0 <= i2 && b2 < t.index@.offsets.len() && i1 < spec_num_entries_at(
            t,
            b1,
        ) && i2 < spec_num_entries_at(t, b2) && (b1 < b2 || (b1 == b2 && i1 <= i2)))
            ==> lex_le(spec_key_at(t, b1, i1), spec_key_at(t, b2, i2))
}

/// Whether the table's entries are strictly sorted: between two distinct
/// positions in block-then-entry order, the keys strictly increase.
pub open spec fn spec_table_entries_strictly_sorted(t: Table) -> bool {
    forall|b1: int, i1: int, b2: int, i2: int|
        #![trigger spec_key_at(t, b1, i1), spec_key_at(t, b2, i2)]
        (0 <= b1 && 0 <= i1 && 0 <= i2 && b2 < t.index@.offsets.len() && i1 < spec_num_entries_at(
            t,
            b1,
        ) && i2 < spec_num_entries_at(t, b2) && (b1 < b2 || (b1 == b2 && i1 < i2)))
            ==> lex_lt(spec_key_at(t, b1, i1), spec_key_at(t, b2, i2))
}

/// A fully well-formed table: every block loads and has entries, every
/// entry decodes, the index carries each block's first key as its base key,
/// and the keys strictly increase in block-then-entry order. Tables the
/// builder emits from strictly increasing keys have this shape; an opened
/// table of unknown origin need not.
pub open spec fn spec_table_well_formed(t: Table) -> bool {
    &&& forall|b: int|
        0 <= b < t.index@.offsets.len() ==> #[trigger] spec_table_block_loads(t.data@, t.index@, b)
    &&& forall|b: int|
        0 <= b < t.index@.offsets.len() ==> (#[trigger] spec_num_entries_at(t, b)) > 0
    &&& forall|b: int, i: int|
        0 <= b < t.index@.offsets.len() && 0 <= i < spec_num_entries_at(t, b)
            ==> #[trigger] spec_entry_ok_at(t, b, i)
    &&& forall|b: int|
        0 <= b < t.index@.offsets.len() ==> (#[trigger] t.index@.offsets[b]).key == spec_key_at(
            t,
            b,
            0,
        )
    &&& spec_table_entries_strictly_sorted(t)
}

/// How many entries the recorded blocks before block `b` hold: the
/// flattened stream position where block `b` begins.
pub open spec fn spec_entries_before(all_keys: Seq<Seq<Seq<u8>>>, b: int) -> int
    decreases b,
{
    if b <= 0 {
        0
    } else {
        spec_entries_before(all_keys, b - 1) + all_keys[b - 1].len()
    }
}

/// The block boundary positions shift by the first block's entry count
/// when that block is dropped from the front.
proof fn lemma_entries_before_drop_first(all_keys: Seq<Seq<Seq<u8>>>, b: int)
    requires
        1 <= b <= all_keys.len(),
    ensures
        spec_entries_before(all_keys, b) == all_keys[0].len() + spec_entries_before(
            all_keys.drop_first(),
            b - 1,
        ),
    decreases b,
{
    if b == 1 {
        assert(spec_entries_before(all_keys, 1) == spec_entries_before(all_keys, 0)
            + all_keys[0].len());
        assert(spec_entries_before(all_keys.drop_first(), 0) == 0);
    } else {
        lemma_entries_before_drop_first(all_keys, b - 1);
        assert(all_keys.drop_first()[b - 2] == all_keys[b - 1]);
        assert(spec_entries_before(all_keys, b) == spec_entries_before(all_keys, b - 1)
            + all_keys[b - 1].len());
        assert(spec_entries_before(all_keys.drop_first(), b - 1) == spec_entries_before(
            all_keys.drop_first(),
            b - 2,
        ) + all_keys.drop_first()[b - 2].len());
    }
}

/// Block boundary positions never decrease.
proof fn lemma_entries_before_monotone(all_keys: Seq<Seq<Seq<u8>>>, b1: int, b2: int)
    requires
        0 <= b1 <= b2,
    ensures
        spec_entries_before(all_keys, b1) <= spec_entries_before(all_keys, b2),
    decreases b2 - b1,
{
    if b1 < b2 {
        lemma_entries_before_monotone(all_keys, b1, b2 - 1);
    }
}

/// The flattened stream is as long as all its blocks together.
pub proof fn lemma_flatten_total_len(all_keys: Seq<Seq<Seq<u8>>>)
    ensures
        all_keys.flatten().len() == spec_entries_before(all_keys, all_keys.len() as int),
    decreases all_keys.len(),
{
    if all_keys.len() > 0 {
        lemma_flatten_total_len(all_keys.drop_first());
        lemma_entries_before_drop_first(all_keys, all_keys.len() as int);
    }
}

/// Entry `i` of block `b` stands at flattened position
/// `entries_before(b) + i` of the recorded stream.
pub proof fn lemma_flatten_index(all_keys: Seq<Seq<Seq<u8>>>, b: int, i: int)
    requires
        0 <= b < all_keys.len(),
        0 <= i < all_keys[b].len(),
    ensures
        0 <= spec_entries_before(all_keys, b) + i < all_keys.flatten().len(),
        all_keys.flatten()[spec_entries_before(all_keys, b) + i] == all_keys[b][i],
    decreases b,
{
    lemma_entries_before_monotone(all_keys, 0, b);
    if b == 0 {
        lemma_flatten_total_len(all_keys.drop_first());
        lemma_entries_before_monotone(all_keys.drop_first(), 0, all_keys.drop_first().len() as int);
        assert(all_keys.flatten() == all_keys[0] + all_keys.drop_first().flatten());
        assert(all_keys.flatten()[i] == all_keys[0][i]);
    } else {
        lemma_flatten_index(all_keys.drop_first(), b - 1, i);
        lemma_entries_before_drop_first(all_keys, b);
        assert(all_keys.drop_first()[b - 1] == all_keys[b]);
        assert(all_keys.flatten() == all_keys[0] + all_keys.drop_first().flatten());
        let q = spec_entries_before(all_keys.drop_first(), b - 1) + i;
        assert(all_keys.flatten()[all_keys[0].len() + q] == all_keys.drop_first().flatten()[q]);
    }
}

/// Over a table whose stream keeps the builder's directory promise, every
/// position reads back the recorded entry: each block loads, its entry
/// count is the recorded one, and the key and value bytes at each position
/// are exactly those that were added while the block was built.
pub proof fn lemma_recorded_entries_read_back(
    t: Table,
    all_keys: Seq<Seq<Seq<u8>>>,
    all_vals: Seq<Seq<Seq<u8>>>,
)
    requires
        crate::builder::spec_stream_blocks_inv(t.data@, t.index@.offsets, all_keys, all_vals),
    ensures
        forall|b: int|
            0 <= b < t.index@.offsets.len() ==> #[trigger] spec_table_block_loads(
                t.data@,
                t.index@,
                b,
            ),
        forall|b: int|
            0 <= b < t.index@.offsets.len() ==> #[trigger] spec_num_entries_at(t, b)
                == all_keys[b].len(),
        forall|b: int, i: int|
            0 <= b < t.index@.offsets.len() && 0 <= i < all_keys[b].len()
                ==> #[trigger] spec_entry_ok_at(t, b, i),
        forall|b: int, i: int|
            0 <= b < t.index@.offsets.len() && 0 <= i < all_keys[b].len()
                ==> #[trigger] spec_key_at(t, b, i) == all_keys[b][i],
        forall|b: int, i: int|
            0 <= b < t.index@.offsets.len() && 0 <= i < all_keys[b].len()
                ==> #[trigger] spec_value_bytes_at(t, b, i) == all_vals[b][i],
{
    assert forall|b: int| 0 <= b < t.index@.offsets.len() implies #[trigger] spec_table_block_loads(
        t.data@,
        t.index@,
        b,
    ) by {
        assert(crate::builder::spec_block_slice_inv(
            t.data@,
            t.index@.offsets[b],
            all_keys[b],
            all_vals[b],
        ));
    }
    assert forall|b: int| 0 <= b < t.index@.offsets.len() implies #[trigger] spec_num_entries_at(
        t,
        b,
    ) == all_keys[b].len() by {
        assert(crate::builder::spec_block_slice_inv(
            t.data@,
            t.index@.offsets[b],
            all_keys[b],
            all_vals[b],
        ));
    }
    assert forall|b: int, i: int|
        0 <= b < t.index@.offsets.len() && 0 <= i < all_keys[b].len() implies (
    #[trigger] spec_entry_ok_at(t, b, i)) && spec_key_at(t, b, i) == all_keys[b][i]
        && spec_value_bytes_at(t, b, i) == all_vals[b][i] by {
        assert(crate::builder::spec_block_slice_inv(
            t.data@,
            t.index@.offsets[b],
            all_keys[b],
            all_vals[b],
        ));
    }
    assert forall|b: int, i: int|
        0 <= b < t.index@.offsets.len() && 0 <= i < all_keys[b].len() implies #[trigger] spec_key_at(
        t,
        b,
        i,
    ) == all_keys[b][i] by {
        assert(crate::builder::spec_block_slice_inv(
            t.data@,
            t.index@.offsets[b],
            all_keys[b],
            all_vals[b],
        ));
    }
    assert forall|b: int, i: int|
        0 <= b < t.index@.offsets.len() && 0 <= i < all_keys[b].len()
            implies #[trigger] spec_value_bytes_at(t, b, i) == all_vals[b][i] by {
        assert(crate::builder::spec_block_slice_inv(
            t.data@,
            t.index@.offsets[b],
            all_keys[b],
            all_vals[b],
        ));
    }
}

/// Order preservation and reverse symmetry, one step at a time: over a
/// table whose stream keeps the builder's directory promise, a cursor
/// resting on an entry reads the p-th key of the recorded stream; a forward
/// step lands on the (p+1)-th and passes the back exactly from the last
/// entry; a backward step lands on the (p-1)-th and passes the front
/// exactly from the first. Stepping forward from the first entry until the
/// cursor leaves the table therefore yields exactly the recorded stream --
/// the keys handed to the builder, in order -- and stepping backward from
/// the last yields its reverse.
pub proof fn lemma_iteration_follows_stream<'a>(
    pre: TableIterator<'a>,
    post: TableIterator<'a>,
    all_keys: Seq<Seq<Seq<u8>>>,
    all_vals: Seq<Seq<Seq<u8>>>,
    forward: bool,
)
    requires
        pre.wf(),
        post.wf(),
        pre.state is At,
        post.table == pre.table,
        crate::builder::spec_stream_blocks_inv(
            pre.table.data@,
            pre.table.index@.offsets,
            all_keys,
            all_vals,
        ),
        if forward {
            pre.next_transition(post)
        } else {
            pre.prev_transition(post)
        },
    ensures
        ({
            let p = spec_entries_before(all_keys, pre.bpos as int) + pre.idx;
            let total = all_keys.flatten().len();
            &&& 0 <= p < total
            &&& pre.cur_key@ == all_keys.flatten()[p]
            &&& forward ==> ((post.state is At <==> p + 1 < total) && (p + 1 == total
                ==> post.state is AfterLast) && (post.state is At ==> spec_entries_before(
                all_keys,
                post.bpos as int,
            ) + post.idx == p + 1 && post.cur_key@ == all_keys.flatten()[p + 1]))
            &&& !forward ==> ((post.state is At <==> p > 0) && (p == 0 ==> post.state
                is BeforeFirst) && (post.state is At ==> spec_entries_before(
                all_keys,
                post.bpos as int,
            ) + post.idx == p - 1 && post.cur_key@ == all_keys.flatten()[p - 1]))
        }),
{
    let t = *pre.table;
    lemma_recorded_entries_read_back(t, all_keys, all_vals);
    lemma_flatten_total_len(all_keys);
    let nb = t.index@.offsets.len() as int;
    let b = pre.bpos as int;
    let i = pre.idx as int;
    lemma_flatten_index(all_keys, b, i);
    assert(spec_entries_before(all_keys, b + 1) == spec_entries_before(all_keys, b)
        + all_keys[b].len());
    lemma_entries_before_monotone(all_keys, b + 1, nb);
    if forward {
        if i + 1 < all_keys[b].len() {
            lemma_flatten_index(all_keys, b, i + 1);
        } else if b + 1 < nb {
            assert(crate::builder::spec_block_slice_inv(
                t.data@,
                t.index@.offsets[b + 1],
                all_keys[b + 1],
                all_vals[b + 1],
            ));
            lemma_flatten_index(all_keys, b + 1, 0);
        } else {
            assert(spec_entries_before(all_keys, nb) == spec_entries_before(all_keys, nb - 1)
                + all_keys[nb - 1].len());
        }
    } else {
        if i > 0 {
            lemma_flatten_index(all_keys, b, i - 1);
        } else if b > 0 {
            assert(crate::builder::spec_block_slice_inv(
                t.data@,
                t.index@.offsets[b - 1],
                all_keys[b - 1],
                all_vals[b - 1],
            ));
            lemma_flatten_index(all_keys, b - 1, all_keys[b - 1].len() - 1);
            assert(spec_entries_before(all_keys, b) == spec_entries_before(all_keys, b - 1)
                + all_keys[b - 1].len());
            lemma_entries_before_monotone(all_keys, 0, b - 1);
        } else {
            assert(spec_entries_before(all_keys, 0) == 0);
        }
    }
}

/// The round trip, at the cursor: over a well-formed table whose stream
/// keeps the builder's directory promise, a seek that satisfies the seek
/// closure for the key recorded at any position rests exactly on that
/// position, so the key reads back unchanged and the value bytes are the
/// ones recorded beside it.
pub proof fn lemma_seek_round_trip<'a>(
    it: TableIterator<'a>,
    all_keys: Seq<Seq<Seq<u8>>>,
    all_vals: Seq<Seq<Seq<u8>>>,
    b: int,
    i: int,
)
    requires
        it.wf(),
        spec_table_well_formed(*it.table),
        crate::builder::spec_stream_blocks_inv(
            it.table.data@,
            it.table.index@.offsets,
            all_keys,
            all_vals,
        ),
        0 <= b < it.table.index@.offsets.len(),
        0 <= i < all_keys[b].len(),
        it.seek_closure(all_keys[b][i]),
        it.state is At || it.state is AfterLast || it.state is Failed,
    ensures
        it.state is At,
        it.bpos == b,
        it.idx == i,
        it.cur_key@ == all_keys[b][i],
        spec_value_matches(it.cur_val, all_vals[b][i]),
{
    let t = *it.table;
    lemma_recorded_entries_read_back(t, all_keys, all_vals);
    let target = all_keys[b][i];
    assert(spec_key_at(t, b, i) == target);
    if it.state is AfterLast {
        assert(lex_lt(spec_key_at(t, b, i), target));
        crate::cmp::lemma_lex_lt_asymmetric(target, target);
    }
    assert(it.state is At);
    let pb = it.bpos as int;
    let pi = it.idx as int;
    if pb < b || (pb == b && pi < i) {
        assert(lex_lt(spec_key_at(t, pb, pi), spec_key_at(t, b, i)));
        crate::cmp::lemma_lex_lt_le_transitive(
            spec_key_at(t, pb, pi),
            target,
            spec_key_at(t, pb, pi),
        );
        crate::cmp::lemma_lex_lt_asymmetric(spec_key_at(t, pb, pi), spec_key_at(t, pb, pi));
    }
    if b < pb || (b == pb && i < pi) {
        assert(lex_lt(spec_key_at(t, b, i), target));
        crate::cmp::lemma_lex_lt_asymmetric(target, target);
    }
    assert(pb == b && pi == i);
}

/// An iterator over a table.
pub struct TableIterator<'a> {
    /// The table read.
    pub table: &'a Table,
    /// The option flags the iterator was created with.
    pub opt: usize,
    /// Where the cursor stands.
    pub state: IterState,
    /// The block of the current entry.
    pub bpos: usize,
    /// The index of the current entry within its block.
    pub idx: usize,
    /// The loaded block.
    pub block: Option<Block>,
    /// The reconstructed key of the current entry.
    pub cur_key: Vec<u8>,
    /// The decoded value of the current entry.
    pub cur_val: Value,
    /// The cause of the failed state.
    pub err: Option<Error>,
}

impl<'a> TableIterator<'a> {
    /// What holds whenever the cursor rests on an entry.
    pub open spec fn at_ok(self) -> bool {
        let t = *self.table;
        &&& 0 <= self.bpos < t.index@.offsets.len()
        &&& spec_entry_loads(t, self.bpos as int, self.idx as int)
        &&& self.block is Some
        &&& ({
            let slice = spec_table_block_slice(t.data@, t.index@, self.bpos as int);
            let b = self.block->Some_0;
            &&& b.wf()
            &&& b.data@ == spec_block_covered(slice)
            &&& b.entry_offsets@ == spec_block_offsets(slice)
            &&& b.entries_index_start == spec_block_entries_index_start(slice)
        })
        &&& self.cur_key@ == spec_key_at(t, self.bpos as int, self.idx as int)
        &&& spec_value_matches(
            self.cur_val,
            spec_value_bytes_at(t, self.bpos as int, self.idx as int),
        )
    }

    /// The iterator invariant.
    pub open spec fn wf(self) -> bool {
        &&& self.table.wf()
        &&& self.state is At ==> self.at_ok()
    }

    /// Whether the iterator runs in reverse.
    pub open spec fn spec_reversed(self) -> bool {
        self.opt & ITERATOR_REVERSED != 0
    }

    /// Seek closure: the cursor either passed the back of the table because
    /// every key lies below the target, or rests on the least entry whose
    /// key is at or above it.
    pub open spec fn seek_closure(self, target: Seq<u8>) -> bool {
        let t = *self.table;
        &&& !(self.state is Failed)
        &&& (self.state is AfterLast ==> forall|b: int, i: int|
            0 <= b < t.index@.offsets.len() && 0 <= i < spec_num_entries_at(t, b) ==> lex_lt(
                #[trigger] spec_key_at(t, b, i),
                target,
            ))
        &&& (self.state is At ==> lex_le(
            target,
            spec_key_at(t, self.bpos as int, self.idx as int),
        ) && (forall|b: int, i: int|
            0 <= b < t.index@.offsets.len() && 0 <= i < spec_num_entries_at(t, b) && (b
                < self.bpos as int || (b == self.bpos as int && i < self.idx as int)) ==> lex_lt(
                #[trigger] spec_key_at(t, b, i),
                target,
            )))
    }

    /// Seek-for-prev closure: the cursor either passed the front of the
    /// table because every key lies above the target, or rests on the
    /// greatest entry whose key is at or below it.
    pub open spec fn seek_for_prev_closure(self, target: Seq<u8>) -> bool {
        let t = *self.table;
        &&& !(self.state is Failed)
        &&& (self.state is BeforeFirst ==> forall|b: int, i: int|
            0 <= b < t.index@.offsets.len() && 0 <= i < spec_num_entries_at(t, b) ==> lex_lt(
                target,
                #[trigger] spec_key_at(t, b, i),
            ))
        &&& (self.state is At ==> lex_le(
            spec_key_at(t, self.bpos as int, self.idx as int),
            target,
        ) && (forall|b: int, i: int|
            0 <= b < t.index@.offsets.len() && 0 <= i < spec_num_entries_at(t, b) && (b
                > self.bpos as int || (b == self.bpos as int && i > self.idx as int)) ==> lex_lt(
                target,
                #[trigger] spec_key_at(t, b, i),
            )))
    }

    /// The step relation of one forward move of the cursor: from an entry
    /// it reaches the next entry of its block, the first entry of the next
    /// block, or the past-the-back state; from no position it reaches the
    /// first entry; success is exactly the decodability of the target
    /// position, and the only other outcome is the failed state.
    pub open spec fn next_transition(self, post: Self) -> bool {
        let t = *self.table;
        &&& (self.state is Failed ==> post.state is Failed)
        &&& (self.state is AfterLast ==> post.state is AfterLast)
        &&& ((self.state is Uninit || self.state is BeforeFirst) ==> (post.state is At
            || post.state is Failed) && (post.state is At <==> spec_entry_loads(t, 0, 0)) && (
        post.state is At ==> post.bpos == 0 && post.idx == 0))
        &&& (self.state is At ==> {
            let b = self.bpos as int;
            let i = self.idx as int;
            if i + 1 < spec_num_entries_at(t, b) {
                (post.state is At || post.state is Failed) && (post.state is At
                    <==> spec_entry_ok_at(t, b, i + 1)) && (post.state is At ==> post.bpos == b
                    && post.idx == i + 1)
            } else if b + 1 < t.index@.offsets.len() {
                (post.state is At || post.state is Failed) && (post.state is At
                    <==> spec_entry_loads(t, b + 1, 0)) && (post.state is At ==> post.bpos == b + 1
                    && post.idx == 0)
            } else {
                post.state is AfterLast
            }
        })
    }

    /// The step relation of one backward move of the cursor: the mirror of
    /// `next_transition`, with the past-the-back state stepping to the last
    /// entry of the last block.
    pub open spec fn prev_transition(self, post: Self) -> bool {
        let t = *self.table;
        let last = t.index@.offsets.len() - 1;
        &&& (self.state is Failed ==> post.state is Failed)
        &&& ((self.state is Uninit || self.state is BeforeFirst) ==> post.state is BeforeFirst)
        &&& (self.state is AfterLast ==> (post.state is At || post.state is Failed) && (post.state
            is At <==> (spec_table_block_loads(t.data@, t.index@, last) && spec_num_entries_at(
            t,
            last,
        ) > 0 && spec_entry_ok_at(t, last, spec_num_entries_at(t, last) - 1))) && (post.state is At
            ==> post.bpos == last && post.idx == spec_num_entries_at(t, last) - 1))
        &&& (self.state is At ==> {
            let b = self.bpos as int;
            let i = self.idx as int;
            if i > 0 {
                (post.state is At || post.state is Failed) && (post.state is At
                    <==> spec_entry_ok_at(t, b, i - 1)) && (post.state is At ==> post.bpos == b
                    && post.idx == i - 1)
            } else if b > 0 {
                (post.state is At || post.state is Failed) && (post.state is At <==> (
                spec_table_block_loads(t.data@, t.index@, b - 1) && spec_num_entries_at(t, b - 1)
                    > 0 && spec_entry_ok_at(t, b - 1, spec_num_entries_at(t, b - 1) - 1))) && (
                post.state is At ==> post.bpos == b - 1 && post.idx == spec_num_entries_at(
                    t,
                    b - 1,
                ) - 1)
            } else {
                post.state is BeforeFirst
            }
        })
    }

    /// A fresh iterator over `table` with the given option flags.
    pub fn new(table: &'a Table, opt: usize) -> (r: TableIterator<'a>)
        requires
            table.wf(),
        ensures
            r.wf(),
            r.state is Uninit,
            r.table == table,
            r.opt == opt,
    {
        TableIterator {
            table,
            opt,
            state: IterState::Uninit,
            bpos: 0,
            idx: 0,
            block: None,
            cur_key: Vec::new(),
            cur_val: Value::new(Vec::new()),
            err: None,
        }
    }

    /// Whether `rewind`, `next` and `prev` run in reverse.
    fn reversed(&self) -> (r: bool)
        ensures
            r == self.spec_reversed(),
    {
        self.opt & ITERATOR_REVERSED != 0
    }

    /// Whether the cursor has not failed and has not stepped past either
    /// end. A fresh or reset cursor holds no position yet but still counts
    /// as valid; only `At` permits reading the entry.
    pub fn valid(&self) -> (r: bool)
        ensures
            r == (self.state is At || self.state is Uninit),
    {
        match self.state {
            IterState::At => true,
            IterState::Uninit => true,
            _ => false,
        }
    }

    /// The cause of the failed state, if any.
    pub fn error(&self) -> (r: &Option<Error>)
        ensures
            r == &self.err,
    {
        &self.err
    }

    /// The internal key of the current entry, freshly reconstructed from
    /// the base-key prefix and the stored diff.
    pub fn key(&self) -> (r: &Vec<u8>)
        requires
            self.wf(),
            self.state is At,
        ensures
            r@ == spec_key_at(*self.table, self.bpos as int, self.idx as int),
    {
        &self.cur_key
    }

    /// The value of the current entry.
    pub fn value(&self) -> (r: &Value)
        requires
            self.wf(),
            self.state is At,
        ensures
            spec_value_matches(*r, spec_value_bytes_at(*self.table, self.bpos as int, self.idx as int)),
    {
        &self.cur_val
    }

    /// Forgets any position and failure.
    pub fn reset(&mut self)
        requires
            old(self).wf(),
        ensures
            final(self).wf(),
            final(self).state is Uninit,
            final(self).table == old(self).table,
            final(self).opt == old(self).opt,
    {
        self.state = IterState::Uninit;
        self.bpos = 0;
        self.idx = 0;
        self.block = None;
        self.err = None;
    }

    /// Loads block `b` and rests on its entry `i`; fails when the block
    /// does not load or the entry does not decode.
    fn move_to(&mut self, b: usize, i: usize)
        requires
            old(self).wf(),
            b < old(self).table.index@.offsets.len(),
        ensures
            final(self).wf(),
            final(self).table == old(self).table,
            final(self).opt == old(self).opt,
            final(self).state is At <==> spec_entry_loads(*old(self).table, b as int, i as int),
            final(self).state is At || final(self).state is Failed,
            final(self).state is At ==> final(self).bpos == b && final(self).idx == i,
    {
        let blk = match self.table.block(b, self.opt & ITERATOR_NOCACHE == 0) {
            Ok(blk) => blk,
            Err(e) => {
                self.state = IterState::Failed;
                self.err = Some(e);
                return;
            },
        };
        if i >= blk.num_entries() {
            self.state = IterState::Failed;
            self.err = Some(Error::TableRead("entry index out of block".to_owned()));
            return;
        }
        match blk.read_entry(i) {
            Ok((k, v)) => {
                self.state = IterState::At;
                self.bpos = b;
                self.idx = i;
                self.block = Some(blk);
                self.cur_key = k;
                self.cur_val = v;
                self.err = None;
            },
            Err(e) => {
                self.state = IterState::Failed;
                self.err = Some(e);
            },
        }
    }

    /// Loads block `b` and rests on its last entry.
    fn move_to_last_of(&mut self, b: usize)
        requires
            old(self).wf(),
            b < old(self).table.index@.offsets.len(),
        ensures
            final(self).wf(),
            final(self).table == old(self).table,
            final(self).opt == old(self).opt,
            final(self).state is At <==> (spec_table_block_loads(
                old(self).table.data@,
                old(self).table.index@,
                b as int,
            ) && spec_num_entries_at(*old(self).table, b as int) > 0 && spec_entry_ok_at(
                *old(self).table,
                b as int,
                spec_num_entries_at(*old(self).table, b as int) - 1,
            )),
            final(self).state is At || final(self).state is Failed,
            final(self).state is At ==> final(self).bpos == b && final(self).idx
                == spec_num_entries_at(*old(self).table, b as int) - 1,
    {
        let ne = match self.table.block(b, self.opt & ITERATOR_NOCACHE == 0) {
            Ok(blk) => blk.num_entries(),
            Err(e) => {
                self.state = IterState::Failed;
                self.err = Some(e);
                return;
            },
        };
        if ne == 0 {
            self.state = IterState::Failed;
            self.err = Some(Error::TableRead("block has no entries".to_owned()));
            return;
        }
        self.move_to(b, ne - 1);
    }

    /// Moves to the first entry of the table.
    pub fn seek_to_first(&mut self)
        requires
            old(self).wf(),
        ensures
            final(self).wf(),
            final(self).table == old(self).table,
            final(self).opt == old(self).opt,
            final(self).state is At || final(self).state is Failed,
            final(self).state is At <==> spec_entry_loads(*old(self).table, 0, 0),
            final(self).state is At ==> final(self).bpos == 0 && final(self).idx == 0,
    {
        self.move_to(0, 0);
    }

    /// Moves to the last entry of the table.
    pub fn seek_to_last(&mut self)
        requires
            old(self).wf(),
        ensures
            final(self).wf(),
            final(self).table == old(self).table,
            final(self).opt == old(self).opt,
            final(self).state is At || final(self).state is Failed,
            final(self).state is At <==> ({
                let t = *old(self).table;
                let last = t.index@.offsets.len() - 1;
                spec_table_block_loads(t.data@, t.index@, last) && spec_num_entries_at(t, last) > 0
                    && spec_entry_ok_at(t, last, spec_num_entries_at(t, last) - 1)
            }),
            final(self).state is At ==> final(self).bpos == old(self).table.index@.offsets.len() - 1 && final(self).idx == spec_num_entries_at(
                *old(self).table,
                old(self).table.index@.offsets.len() - 1,
            ) - 1,
    {
        let n = self.table.offsets_length();
        self.move_to_last_of(n - 1);
    }

    /// Moves one entry forward in key order: the next entry of the block,
    /// or the first entry of the next block, or past the back of the table.
    fn next_inner(&mut self)
        requires
            old(self).wf(),
        ensures
            final(self).wf(),
            final(self).table == old(self).table,
            final(self).opt == old(self).opt,
            old(self).next_transition(*final(self)),
            (old(self).state is At && final(self).state is At && spec_table_entries_sorted(
                *old(self).table,
            )) ==> lex_le(old(self).cur_key@, final(self).cur_key@),
    {
        match self.state {
            IterState::Failed => {},
            IterState::AfterLast => {},
            IterState::Uninit | IterState::BeforeFirst => {
                self.move_to(0, 0);
            },
            IterState::At => {
                let blk = self.block.as_ref().unwrap();
                let ne = blk.num_entries();
                if self.idx + 1 < ne {
                    match blk.read_entry(self.idx + 1) {
                        Ok((k, v)) => {
                            self.idx = self.idx + 1;
                            self.cur_key = k;
                            self.cur_val = v;
                        },
                        Err(e) => {
                            self.state = IterState::Failed;
                            self.err = Some(e);
                        },
                    }
                } else {
                    let n = self.table.offsets_length();
                    if self.bpos + 1 < n {
                        self.move_to(self.bpos + 1, 0);
                    } else {
                        self.state = IterState::AfterLast;
                        self.block = None;
                    }
                }
            },
        }
        proof {
            if old(self).state is At && self.state is At {
                let t = *old(self).table;
                assert(old(self).cur_key@ == spec_key_at(
                    t,
                    old(self).bpos as int,
                    old(self).idx as int,
                ));
                assert(self.cur_key@ == spec_key_at(t, self.bpos as int, self.idx as int));
            }
        }
    }

    /// Moves one entry backward in key order: the previous entry of the
    /// block, or the last entry of the previous block, or past the front of
    /// the table. From past the back it returns to the last entry.
    fn prev_inner(&mut self)
        requires
            old(self).wf(),
        ensures
            final(self).wf(),
            final(self).table == old(self).table,
            final(self).opt == old(self).opt,
            old(self).prev_transition(*final(self)),
            (old(self).state is At && final(self).state is At && spec_table_entries_sorted(
                *old(self).table,
            )) ==> lex_le(final(self).cur_key@, old(self).cur_key@),
    {
        match self.state {
            IterState::Failed => {},
            IterState::Uninit | IterState::BeforeFirst => {
                self.state = IterState::BeforeFirst;
                self.block = None;
            },
            IterState::AfterLast => {
                let n = self.table.offsets_length();
                self.move_to_last_of(n - 1);
            },
            IterState::At => {
                if self.idx > 0 {
                    let blk = self.block.as_ref().unwrap();
                    match blk.read_entry(self.idx - 1) {
                        Ok((k, v)) => {
                            self.idx = self.idx - 1;
                            self.cur_key = k;
                            self.cur_val = v;
                        },
                        Err(e) => {
                            self.state = IterState::Failed;
                            self.err = Some(e);
                        },
                    }
                } else {
                    if self.bpos > 0 {
                        let b = self.bpos - 1;
                        self.move_to_last_of(b);
                    } else {
                        self.state = IterState::BeforeFirst;
                        self.block = None;
                    }
                }
            },
        }
        proof {
            if old(self).state is At && self.state is At {
                let t = *old(self).table;
                assert(old(self).cur_key@ == spec_key_at(
                    t,
                    old(self).bpos as int,
                    old(self).idx as int,
                ));
                assert(self.cur_key@ == spec_key_at(t, self.bpos as int, self.idx as int));
            }
        }
    }

    /// Moves to the least entry whose key is at or above `target`, in
    /// forward key order; past the back when every key is below it.
    #[verifier::loop_isolation(false)]
    fn seek_inner(&mut self, target: &[u8])
        requires
            old(self).wf(),
        ensures
            final(self).wf(),
            final(self).table == old(self).table,
            final(self).opt == old(self).opt,
            final(self).state is At || final(self).state is AfterLast || final(self).state
                is Failed,
            spec_table_well_formed(*old(self).table) ==> final(self).seek_closure(target@),
    {
        let ghost t = *self.table;
        let ghost wf = spec_table_well_formed(t);
        let nb = self.table.offsets_length();
        // The first block whose base key is above the target.
        let mut lo: usize = 0;
        let mut hi: usize = nb;
        while lo < hi
            invariant
                lo <= hi <= nb,
                *self == *old(self),
                wf ==> forall|bb: int|
                    0 <= bb < lo ==> lex_le((#[trigger] t.index@.offsets[bb]).key, target@),
                wf ==> forall|bb: int|
                    hi <= bb < nb ==> lex_lt(target@, (#[trigger] t.index@.offsets[bb]).key),
            decreases hi - lo,
        {
            let mid = lo + (hi - lo) / 2;
            let bo = self.table.offsets(mid).unwrap();
            if compare_bytes(bo.key.as_slice(), target) > 0 {
                proof {
                    if wf {
                        assert forall|bb: int| mid <= bb < nb implies lex_lt(
                            target@,
                            (#[trigger] t.index@.offsets[bb]).key,
                        ) by {
                            if bb > mid {
                                assert(lex_lt(spec_key_at(t, mid as int, 0), spec_key_at(t, bb, 0)));
                                lemma_lex_lt_transitive(
                                    target@,
                                    spec_key_at(t, mid as int, 0),
                                    spec_key_at(t, bb, 0),
                                );
                            }
                        }
                    }
                }
                hi = mid;
            } else {
                proof {
                    if wf {
                        assert forall|bb: int| 0 <= bb < mid + 1 implies lex_le(
                            (#[trigger] t.index@.offsets[bb]).key,
                            target@,
                        ) by {
                            if bb < mid {
                                assert(lex_lt(spec_key_at(t, bb, 0), spec_key_at(t, mid as int, 0)));
                                lemma_lex_lt_le_transitive(
                                    spec_key_at(t, bb, 0),
                                    spec_key_at(t, mid as int, 0),
                                    target@,
                                );
                            }
                        }
                    }
                }
                lo = mid + 1;
            }
        }
        let b: usize = if lo == 0 {
            0
        } else {
            lo - 1
        };
        let blk = match self.table.block(b, self.opt & ITERATOR_NOCACHE == 0) {
            Ok(blk) => blk,
            Err(e) => {
                proof {
                    if wf {
                        assert(spec_table_block_loads(t.data@, t.index@, b as int));
                    }
                }
                self.state = IterState::Failed;
                self.err = Some(e);
                return;
            },
        };
        // The least entry of the block at or above the target.
        let ne = blk.num_entries();
        let mut lo2: usize = 0;
        let mut hi2: usize = ne;
        while lo2 < hi2
            invariant
                lo2 <= hi2 <= ne,
                *self == *old(self),
                wf ==> forall|j: int|
                    0 <= j < lo2 ==> lex_lt(#[trigger] spec_key_at(t, b as int, j), target@),
                wf ==> forall|j: int|
                    hi2 <= j < ne ==> lex_le(target@, #[trigger] spec_key_at(t, b as int, j)),
            decreases hi2 - lo2,
        {
            let mid = lo2 + (hi2 - lo2) / 2;
            let (k, _v) = match blk.read_entry(mid) {
                Ok(kv) => kv,
                Err(e) => {
                    proof {
                        if wf {
                            assert(spec_entry_ok_at(t, b as int, mid as int));
                            assert(blk.entry_ok(mid as int));
                        }
                    }
                    self.state = IterState::Failed;
                    self.err = Some(e);
                    return;
                },
            };
            if compare_bytes(k.as_slice(), target) >= 0 {
                proof {
                    if wf {
                        assert forall|j: int| mid <= j < ne implies lex_le(
                            target@,
                            #[trigger] spec_key_at(t, b as int, j),
                        ) by {
                            if j > mid {
                                assert(lex_lt(
                                    spec_key_at(t, b as int, mid as int),
                                    spec_key_at(t, b as int, j),
                                ));
                                lemma_lex_le_lt_transitive(
                                    target@,
                                    spec_key_at(t, b as int, mid as int),
                                    spec_key_at(t, b as int, j),
                                );
                            }
                        }
                    }
                }
                hi2 = mid;
            } else {
                proof {
                    if wf {
                        assert forall|j: int| 0 <= j < mid + 1 implies lex_lt(
                            #[trigger] spec_key_at(t, b as int, j),
                            target@,
                        ) by {
                            if j < mid {
                                assert(lex_lt(
                                    spec_key_at(t, b as int, j),
                                    spec_key_at(t, b as int, mid as int),
                                ));
                                lemma_lex_lt_transitive(
                                    spec_key_at(t, b as int, j),
                                    spec_key_at(t, b as int, mid as int),
                                    target@,
                                );
                            }
                        }
                    }
                }
                lo2 = mid + 1;
            }
        }
        proof {
            // Entries of blocks before the searched one all lie below the
            // target: they are below the searched block's base key, which is
            // at or below the target.
            if wf && b > 0 {
                assert forall|bb: int, i: int|
                    0 <= bb < b && 0 <= i < spec_num_entries_at(t, bb) implies lex_lt(
                    #[trigger] spec_key_at(t, bb, i),
                    target@,
                ) by {
                    assert(lex_lt(spec_key_at(t, bb, i), spec_key_at(t, b as int, 0)));
                    assert(lex_le(t.index@.offsets[b as int].key, target@));
                    lemma_lex_lt_le_transitive(
                        spec_key_at(t, bb, i),
                        spec_key_at(t, b as int, 0),
                        target@,
                    );
                }
            }
            // Over a well-formed table the first block cannot be exhausted:
            // its base key would then be both below and above the target.
            if wf && lo == 0 && hi2 == ne {
                assert(b == 0);
                assert(ne == spec_num_entries_at(t, 0));
                assert(spec_num_entries_at(t, 0) > 0);
                assert(lo2 == ne);
                assert(lex_lt(spec_key_at(t, 0, 0), target@));
                assert(lex_lt(target@, t.index@.offsets[0].key));
                crate::cmp::lemma_lex_lt_asymmetric(spec_key_at(t, 0, 0), target@);
            }
        }
        if hi2 < ne {
            self.move_to(b, hi2);
        } else if b + 1 < nb {
            self.move_to(b + 1, 0);
            proof {
                if wf {
                    assert(lex_lt(target@, t.index@.offsets[b + 1].key));
                }
            }
        } else {
            self.state = IterState::AfterLast;
            self.block = None;
        }
    }

    /// Moves to the greatest entry whose key is at or below `target`, in
    /// forward key order; past the front when every key is above it.
    fn seek_for_prev_inner(&mut self, target: &[u8])
        requires
            old(self).wf(),
        ensures
            final(self).wf(),
            final(self).table == old(self).table,
            final(self).opt == old(self).opt,
            final(self).state is At || final(self).state is BeforeFirst || final(self).state
                is Failed,
            spec_table_well_formed(*old(self).table) ==> final(self).seek_for_prev_closure(
                target@,
            ),
    {
        let ghost t = *self.table;
        let ghost wf = spec_table_well_formed(t);
        self.seek_inner(target);
        let ghost s1 = *self;
        match self.state {
            IterState::At => {
                if compare_bytes(self.cur_key.as_slice(), target) != 0 {
                    proof {
                        if wf {
                            assert(lex_lt(
                                target@,
                                spec_key_at(t, s1.bpos as int, s1.idx as int),
                            ));
                        }
                    }
                    self.prev_inner();
                    proof {
                        if wf {
                            let sb = s1.bpos as int;
                            let si = s1.idx as int;
                            if self.state is At {
                                let fb = self.bpos as int;
                                let fi = self.idx as int;
                                assert(lex_lt(spec_key_at(t, fb, fi), target@));
                                assert forall|b2: int, i2: int|
                                    0 <= b2 < t.index@.offsets.len() && 0 <= i2
                                        < spec_num_entries_at(t, b2) && (b2 > fb || (b2 == fb && i2
                                        > fi)) implies lex_lt(
                                    target@,
                                    #[trigger] spec_key_at(t, b2, i2),
                                ) by {
                                    if b2 == sb && i2 == si {
                                    } else {
                                        assert(b2 > sb || (b2 == sb && i2 > si));
                                        assert(lex_lt(
                                            spec_key_at(t, sb, si),
                                            spec_key_at(t, b2, i2),
                                        ));
                                        lemma_lex_lt_transitive(
                                            target@,
                                            spec_key_at(t, sb, si),
                                            spec_key_at(t, b2, i2),
                                        );
                                    }
                                }
                            } else {
                                assert(self.state is BeforeFirst);
                                assert(sb == 0 && si == 0);
                                assert forall|b2: int, i2: int|
                                    0 <= b2 < t.index@.offsets.len() && 0 <= i2
                                        < spec_num_entries_at(t, b2) implies lex_lt(
                                    target@,
                                    #[trigger] spec_key_at(t, b2, i2),
                                ) by {
                                    if b2 == 0 && i2 == 0 {
                                    } else {
                                        assert(lex_lt(
                                            spec_key_at(t, 0, 0),
                                            spec_key_at(t, b2, i2),
                                        ));
                                        lemma_lex_lt_transitive(
                                            target@,
                                            spec_key_at(t, 0, 0),
                                            spec_key_at(t, b2, i2),
                                        );
                                    }
                                }
                            }
                        }
                    }
                }
            },
            IterState::AfterLast => {
                self.prev_inner();
            },
            _ => {},
        }
    }

    /// Moves to the first entry in iteration order: the least key, or the
    /// greatest when the iterator is reversed.
    pub fn rewind(&mut self)
        requires
            old(self).wf(),
        ensures
            final(self).wf(),
            final(self).table == old(self).table,
            final(self).opt == old(self).opt,
            final(self).state is At || final(self).state is Failed,
            !old(self).spec_reversed() ==> (final(self).state is At <==> spec_entry_loads(
                *old(self).table,
                0,
                0,
            )),
            old(self).spec_reversed() ==> (final(self).state is At <==> ({
                let t = *old(self).table;
                let last = t.index@.offsets.len() - 1;
                spec_table_block_loads(t.data@, t.index@, last) && spec_num_entries_at(t, last) > 0
                    && spec_entry_ok_at(t, last, spec_num_entries_at(t, last) - 1)
            })),
            (!old(self).spec_reversed() && final(self).state is At) ==> final(self).bpos == 0
                && final(self).idx == 0,
            (old(self).spec_reversed() && final(self).state is At) ==> final(self).bpos == old(
                self,
            ).table.index@.offsets.len() - 1 && final(self).idx == spec_num_entries_at(
                *old(self).table,
                old(self).table.index@.offsets.len() - 1,
            ) - 1,
    {
        self.reset();
        if !self.reversed() {
            self.seek_to_first();
        } else {
            self.seek_to_last();
        }
    }

    /// Seeks `target` in iteration order: the least entry at or above it,
    /// or, reversed, the greatest entry at or below it. Over a well-formed
    /// table the outcome is exactly the seek closure of its direction.
    pub fn seek(&mut self, target: &[u8])
        requires
            old(self).wf(),
        ensures
            final(self).wf(),
            final(self).table == old(self).table,
            final(self).opt == old(self).opt,
            if !old(self).spec_reversed() {
                final(self).state is At || final(self).state is AfterLast || final(self).state
                    is Failed
            } else {
                final(self).state is At || final(self).state is BeforeFirst || final(self).state
                    is Failed
            },
            spec_table_well_formed(*old(self).table) ==> if !old(self).spec_reversed() {
                final(self).seek_closure(target@)
            } else {
                final(self).seek_for_prev_closure(target@)
            },
    {
        self.reset();
        if !self.reversed() {
            self.seek_inner(target);
        } else {
            self.seek_for_prev_inner(target);
        }
    }

    /// Seeks the other way round from `seek`: the greatest entry at or
    /// below `target`, or, reversed, the least entry at or above it. Over a
    /// well-formed table the outcome is exactly the closure of its
    /// direction.
    pub fn seek_for_prev(&mut self, target: &[u8])
        requires
            old(self).wf(),
        ensures
            final(self).wf(),
            final(self).table == old(self).table,
            final(self).opt == old(self).opt,
            if !old(self).spec_reversed() {
                final(self).state is At || final(self).state is BeforeFirst || final(self).state
                    is Failed
            } else {
                final(self).state is At || final(self).state is AfterLast || final(self).state
                    is Failed
            },
            spec_table_well_formed(*old(self).table) ==> if !old(self).spec_reversed() {
                final(self).seek_for_prev_closure(target@)
            } else {
                final(self).seek_closure(target@)
            },
    {
        self.reset();
        if !self.reversed() {
            self.seek_for_prev_inner(target);
        } else {
            self.seek_inner(target);
        }
    }

    /// Moves one entry on in iteration order. Over a sorted table,
    /// successive keys never decrease — nor increase, reversed.
    pub fn next(&mut self)
        requires
            old(self).wf(),
        ensures
            final(self).wf(),
            final(self).table == old(self).table,
            final(self).opt == old(self).opt,
            if !old(self).spec_reversed() {
                old(self).next_transition(*final(self))
            } else {
                old(self).prev_transition(*final(self))
            },
            (old(self).state is At && final(self).state is At && spec_table_entries_sorted(
                *old(self).table,
            )) ==> if !old(self).spec_reversed() {
                lex_le(old(self).cur_key@, final(self).cur_key@)
            } else {
                lex_le(final(self).cur_key@, old(self).cur_key@)
            },
    {
        if !self.reversed() {
            self.next_inner();
        } else {
            self.prev_inner();
        }
    }

    /// Moves one entry back in iteration order. Over a sorted table,
    /// stepping back never increases the key — nor decreases it, reversed.
    pub fn prev(&mut self)
        requires
            old(self).wf(),
        ensures
            final(self).wf(),
            final(self).table == old(self).table,
            final(self).opt == old(self).opt,
            if !old(self).spec_reversed() {
                old(self).prev_transition(*final(self))
            } else {
                old(self).next_transition(*final(self))
            },
            (old(self).state is At && final(self).state is At && spec_table_entries_sorted(
                *old(self).table,
            )) ==> if !old(self).spec_reversed() {
                lex_le(final(self).cur_key@, old(self).cur_key@)
            } else {
                lex_le(old(self).cur_key@, final(self).cur_key@)
            },
    {
        if !self.reversed() {
            self.prev_inner();
        } else {
            self.next_inner();
        }
    }
}

impl Table {
    /// An iterator over this table with the given option flags.
    pub fn new_iterator(&self, opt: usize) -> (r: TableIterator<'_>)
        requires
            self.wf(),
        ensures
            r.wf(),
            r.state is Uninit,
            r.table == self,
            r.opt == opt,
    {
        TableIterator::new(self, opt)
    }
}

} // verus!
