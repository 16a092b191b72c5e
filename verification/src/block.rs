//! Headers, blocks and the small records that name them.

use crate::hash::H256;
use vstd::prelude::*;

verus! {

/// A block header together with its digest.
///
/// The digest is computed by whoever builds the header; the chain never
/// recomputes it and identifies the header by it.
#[derive(Clone, Copy, Debug, PartialEq, Eq, Structural)]
pub struct BlockHeader {
    /// Digest of this header.
    pub hash: H256,
    /// Digest of the parent header.
    pub previous_header_hash: H256,
    pub version: u32,
    pub merkle_root_hash: H256,
    pub time: u32,
    pub nbits: u32,
    pub nonce: u32,
}

impl BlockHeader {
    /// Digest of this header.
    pub fn hash(&self) -> (r: H256)
        ensures
            r == self.hash,
    {
        self.hash
    }
}

/// A full block: its header and its serialized transactions, which the chain
/// carries but never looks into.
#[derive(Debug)]
pub struct Block {
    pub block_header: BlockHeader,
    pub transactions: Vec<u8>,
}

/// What a [`Block`] holds, as plain values.
pub struct BlockView {
    pub block_header: BlockHeader,
    pub transactions: Seq<u8>,
}

impl View for Block {
    type V = BlockView;

    open spec fn view(&self) -> BlockView {
        BlockView { block_header: self.block_header, transactions: self.transactions@ }
    }
}

impl Clone for Block {
    fn clone(&self) -> (r: Self)
        ensures
            r@ == self@,
    {
        let transactions = self.transactions.clone();
        assert(transactions@ =~= self.transactions@);
        Block { block_header: self.block_header, transactions }
    }
}

impl Block {
    /// Digest of the block, which is that of its header.
    pub fn hash(&self) -> (r: H256)
        ensures
            r == self.block_header.hash,
    {
        self.block_header.hash
    }
}

/// Height and digest of the block at the tip of a chain.
#[derive(Clone, Copy, Debug, PartialEq, Eq, Structural)]
pub struct BestBlock {
    pub number: u32,
    pub hash: H256,
}

/// Names a block either by its digest or by its height.
#[derive(Clone, Copy, Debug, PartialEq, Eq, Structural)]
pub enum BlockRef {
    Number(u32),
    Hash(H256),
}

} // verus!
