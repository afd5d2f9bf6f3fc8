//! Table options.

use vstd::prelude::*;

verus! {

/// The default block size, used when a table is configured with 0.
pub const DEFAULT_BLOCK_SIZE: u32 = 4096;

/// Options governing a table build. `table_size` is advisory: the builder
/// does not split tables itself.
#[derive(Clone, Copy, PartialEq, Eq, Structural, Debug)]
pub struct Options {
    /// The size a block may grow to before it is finalized, in bytes.
    pub block_size: u32,
    /// The intended size of a whole table, in bytes; advisory.
    pub table_size: u64,
}

impl Options {
    /// The options with a zero block size replaced by the default.
    pub fn effective(&self) -> (r: Options)
        ensures
            r.block_size == if self.block_size == 0 {
                DEFAULT_BLOCK_SIZE
            } else {
                self.block_size
            },
            r.table_size == self.table_size,
            r.block_size > 0,
    {
        Options {
            block_size: if self.block_size == 0 {
                DEFAULT_BLOCK_SIZE
            } else {
                self.block_size
            },
            table_size: self.table_size,
        }
    }
}

} // verus!
