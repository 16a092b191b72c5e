//! The durable block store, as the chain sees it.

use crate::block::{BestBlock, Block, BlockRef, BlockView};
use crate::hash::H256;
use vstd::prelude::*;

verus! {

/// Why a store refused a block.
#[derive(Clone, Copy, Debug, PartialEq, Eq, Structural)]
pub enum StoreError {
    /// The block's parent is not the block the store could attach it to.
    UnknownParent,
    /// The store cannot number another block.
    NoSpace,
    /// The store failed for a reason of its own.
    Database,
}

/// What a store holds: the main chain by height, and every block it knows.
pub struct StoreView {
    /// Digest of the main-chain block at each height, genesis first.
    pub chain: Seq<H256>,
    /// Every known block, by digest.
    pub blocks: Map<H256, BlockView>,
    /// The length that the main chain may reach.
    pub capacity: nat,
}

impl StoreView {
    /// The main chain is within the capacity, which leaves heights and their
    /// count within 32 bits; no block sits twice on the main chain; every
    /// main-chain block is known; and every block is filed under its own
    /// digest.
    pub open spec fn wf(self) -> bool {
        &&& self.chain.len() <= self.capacity <= u32::MAX
        &&& self.chain.no_duplicates()
        &&& forall|i: int|
            0 <= i < self.chain.len() ==> self.blocks.contains_key(#[trigger] self.chain[i])
        &&& forall|h: H256|
            self.blocks.contains_key(h) ==> (#[trigger] self.blocks[h]).block_header.hash == h
    }

    /// The tip of the main chain, if there is one.
    pub open spec fn best_block(self) -> Option<BestBlock> {
        if self.chain.len() == 0 {
            None
        } else {
            Some(BestBlock { number: (self.chain.len() - 1) as u32, hash: self.chain.last() })
        }
    }

    /// Digest of the main-chain block at `number`.
    pub open spec fn block_hash(self, number: u32) -> Option<H256> {
        if number < self.chain.len() {
            Some(self.chain[number as int])
        } else {
            None
        }
    }

    /// Height of `hash` on the main chain.
    pub open spec fn block_number(self, hash: H256) -> Option<u32> {
        if self.chain.contains(hash) {
            Some(self.chain.index_of(hash) as u32)
        } else {
            None
        }
    }

    /// The block that `block_ref` names.
    pub open spec fn block(self, block_ref: BlockRef) -> Option<BlockView> {
        match block_ref {
            BlockRef::Number(number) => if number < self.chain.len() {
                Some(self.blocks[self.chain[number as int]])
            } else {
                None
            },
            BlockRef::Hash(hash) => if self.blocks.contains_key(hash) {
                Some(self.blocks[hash])
            } else {
                None
            },
        }
    }

    /// Whether the store knows the block that `block_ref` names.
    pub open spec fn contains_block(self, block_ref: BlockRef) -> bool {
        self.block(block_ref) is Some
    }

    /// What a successful insertion of `block` may turn `self` into: the block
    /// is now known, every block known before is kept as it was, the main
    /// chain is not empty, has grown by one block at most, and still starts
    /// at the same genesis; the capacity is the same.
    pub open spec fn accepted(self, next: StoreView, block: BlockView) -> bool {
        &&& next.capacity == self.capacity
        &&& next.blocks.dom() == self.blocks.dom().insert(block.block_header.hash)
        &&& forall|h: H256| self.blocks.contains_key(h) ==> #[trigger] next.blocks[h] == self.blocks[h]
        &&& 0 < next.chain.len() <= self.chain.len() + 1
        &&& self.chain.len() > 0 ==> next.chain[0] == self.chain[0]
    }
}

/// A durable block store: blocks by digest, and a main chain by height.
///
/// The chain reads it through the queries and writes it through
/// `insert_block` alone.
pub trait Store: Sized {
    /// What the store holds.
    spec fn model(&self) -> StoreView;

    /// The store's own consistency condition.
    spec fn inv(&self) -> bool;

    /// Whether a store of this kind that holds `store` may give `answer`
    /// when it is asked to insert `block`, and hold `next` afterwards. A
    /// store whose answer depends on nothing but what it holds names one
    /// answer and one outcome alone.
    spec fn may_insert(
        store: StoreView,
        block: BlockView,
        answer: Result<(), StoreError>,
        next: StoreView,
    ) -> bool;

    /// A consistent store holds a well-formed model.
    proof fn inv_implies_wf(&self)
        requires
            self.inv(),
        ensures
            self.model().wf(),
    ;

    /// The tip of the main chain.
    fn best_block(&self) -> (r: Option<BestBlock>)
        requires
            self.inv(),
        ensures
            r == self.model().best_block(),
    ;

    /// Digest of the main-chain block at `number`.
    fn block_hash(&self, number: u32) -> (r: Option<H256>)
        requires
            self.inv(),
        ensures
            r == self.model().block_hash(number),
    ;

    /// Height of `hash` on the main chain.
    fn block_number(&self, hash: &H256) -> (r: Option<u32>)
        requires
            self.inv(),
        ensures
            r == self.model().block_number(*hash),
    ;

    /// The block that `block_ref` names.
    fn block(&self, block_ref: BlockRef) -> (r: Option<Block>)
        requires
            self.inv(),
        ensures
            r is Some == self.model().block(block_ref) is Some,
            r is Some ==> r->0@ == self.model().block(block_ref)->0,
    ;

    /// Whether the store knows the block that `block_ref` names.
    fn contains_block(&self, block_ref: BlockRef) -> (r: bool)
        requires
            self.inv(),
        ensures
            r == self.model().contains_block(block_ref),
    ;

    /// Stores `block`. On failure nothing has changed.
    fn insert_block(&mut self, block: &Block) -> (r: Result<(), StoreError>)
        requires
            old(self).inv(),
        ensures
            final(self).inv(),
            Self::may_insert(old(self).model(), block@, r, final(self).model()),
            r is Ok ==> old(self).model().accepted(final(self).model(), block@),
            r is Err ==> final(self).model() == old(self).model(),
    ;
}

} // verus!
