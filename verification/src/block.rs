//! Blocks and their place in the chain.

use crate::hash::{FrHash, Uint256};
use crate::transaction::Transaction;
use vstd::prelude::*;

verus! {

/// A block: its transactions, in block order.
pub struct Block {
    pub vtx: Vec<Transaction>,
}

/// The place of a block in the chain.
#[derive(Clone, Copy, Debug)]
pub struct BlockIndex {
    /// The height of the block.
    pub n_height: i32,
    /// The hash of the block.
    pub block_hash: Uint256,
    /// The root of the note commitment tree after this block.
    pub hash_final_sapling_root: FrHash,
    /// The hash of the block below, unless this is the first block.
    pub prev_block_hash: Option<Uint256>,
    /// The root of the note commitment tree before this block, unless this is
    /// the first block.
    pub prev_final_sapling_root: Option<FrHash>,
}

impl BlockIndex {
    /// The hash of the block.
    pub fn get_block_hash(&self) -> (out: Uint256)
        ensures
            out == self.block_hash,
    {
        self.block_hash
    }
}

/// What validation found out about a block or a transaction.
pub struct ValidationState {}

} // verus!
