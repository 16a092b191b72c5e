//! What a synchronization chain holds, as plain values, and what each of its
//! operations makes of it.

use crate::best_headers_chain::{HeadersView, Information as HeadersInformation};
use crate::block::{BestBlock, BlockHeader, BlockRef};
use crate::descendants::discovery_order;
use crate::hash::H256;
use crate::hash_queue::{concat, position_in, queues_wf, without, HashPosition};
use crate::locator::{lemma_locator_heights_from, locator_heights};
use crate::store::StoreView;
use vstd::prelude::*;

verus! {

/// Index of the queue of blocks that are being verified.
pub const VERIFYING_QUEUE: usize = 0;

/// Index of the queue of blocks that were requested from peers.
pub const REQUESTED_QUEUE: usize = 1;

/// Index of the queue of blocks that are scheduled for requesting.
pub const SCHEDULED_QUEUE: usize = 2;

/// Number of queues.
pub const NUMBER_OF_QUEUES: usize = 3;

/// Where a block is on its way into the store.
#[derive(Clone, Copy, Debug, PartialEq, Eq, Structural)]
pub enum BlockState {
    /// The block is neither queued nor stored.
    Unknown,
    /// The block is scheduled for requesting.
    Scheduled,
    /// The block was requested from peers.
    Requested,
    /// The block is being verified.
    Verifying,
    /// The block is in the store.
    Stored,
}

impl BlockState {
    /// Whether blocks in this state stand in a queue.
    pub open spec fn is_queued(self) -> bool {
        self is Scheduled || self is Requested || self is Verifying
    }

    /// Index of the queue that holds the blocks in this state.
    pub open spec fn queue_index(self) -> usize
        recommends
            self.is_queued(),
    {
        match self {
            BlockState::Scheduled => SCHEDULED_QUEUE,
            BlockState::Requested => REQUESTED_QUEUE,
            _ => VERIFYING_QUEUE,
        }
    }

    /// The state of the blocks in queue `queue_index`.
    pub open spec fn of_queue(queue_index: usize) -> BlockState
        recommends
            queue_index < NUMBER_OF_QUEUES,
    {
        if queue_index == SCHEDULED_QUEUE {
            BlockState::Scheduled
        } else if queue_index == REQUESTED_QUEUE {
            BlockState::Requested
        } else {
            BlockState::Verifying
        }
    }

    /// The state of the blocks in queue `queue_index`.
    pub fn from_queue_index(queue_index: usize) -> (r: BlockState)
        requires
            queue_index < NUMBER_OF_QUEUES,
        ensures
            r == BlockState::of_queue(queue_index),
            r.is_queued(),
            r.queue_index() == queue_index,
    {
        if queue_index == SCHEDULED_QUEUE {
            BlockState::Scheduled
        } else if queue_index == REQUESTED_QUEUE {
            BlockState::Requested
        } else {
            BlockState::Verifying
        }
    }

    /// Index of the queue that holds the blocks in this state.
    pub fn to_queue_index(&self) -> (r: usize)
        requires
            self.is_queued(),
        ensures
            r == self.queue_index(),
            r < NUMBER_OF_QUEUES,
            BlockState::of_queue(r) == *self,
    {
        match *self {
            BlockState::Scheduled => SCHEDULED_QUEUE,
            BlockState::Requested => REQUESTED_QUEUE,
            _ => VERIFYING_QUEUE,
        }
    }
}

/// Counters of a synchronization chain.
#[derive(Clone, Copy, Debug, PartialEq, Eq, Structural)]
pub struct Information {
    /// Number of blocks scheduled for requesting.
    pub scheduled: u32,
    /// Number of blocks requested from peers.
    pub requested: u32,
    /// Number of blocks being verified.
    pub verifying: u32,
    /// Number of blocks on the store's main chain.
    pub stored: u32,
    /// Counters of the headers chain.
    pub headers: HeadersInformation,
}

/// How a list of announced headers relates to what the chain knows.
#[derive(Clone, Copy, Debug, PartialEq, Eq, Structural)]
pub enum HeadersIntersection {
    /// Neither the first header nor its parent is known.
    NoKnownBlocks(usize),
    /// Every header is known, and some of them are queued.
    InMemoryNoNewBlocks,
    /// The headers from this index on are new, and they follow the best
    /// block.
    InMemoryMainNewBlocks(usize),
    /// The headers from this index on are new, and they follow a queued
    /// block that is not the best block.
    InMemoryForkNewBlocks(usize),
    /// Every header is of a stored block.
    DbAllBlocksKnown,
    /// The headers from this index on are new, and they follow a stored
    /// block.
    DbForkNewBlocks(usize),
}

/// Which end of a stage a landmark marks.
#[derive(Clone, Copy, Debug, PartialEq, Eq, Structural)]
pub enum Edge {
    /// The oldest block of the stage.
    Worst,
    /// The block before the newest one of the stage.
    PreBest,
    /// The newest block of the stage.
    Best,
}

/// A block at an end of a stage, with its height.
#[derive(Clone, Copy, Debug, PartialEq, Eq, Structural)]
pub struct Landmark {
    pub edge: Edge,
    pub state: BlockState,
    pub number: u32,
    pub hash: H256,
}

/// The landmarks of a queue of blocks in `state` that stands on a block at
/// height `below`: none for an empty queue; else its oldest block, the block
/// before its newest one if it holds two blocks at least, and its newest
/// block.
pub open spec fn queue_landmarks(state: BlockState, below: nat, queue: Seq<H256>) -> Seq<Landmark> {
    let worst = Landmark { edge: Edge::Worst, state, number: (below + 1) as u32, hash: queue.first() };
    let pre_best = Landmark {
        edge: Edge::PreBest,
        state,
        number: (below + queue.len() - 1) as u32,
        hash: queue[queue.len() - 2],
    };
    let best = Landmark {
        edge: Edge::Best,
        state,
        number: (below + queue.len()) as u32,
        hash: queue.last(),
    };
    if queue.len() == 0 {
        Seq::empty()
    } else if queue.len() == 1 {
        seq![worst, best]
    } else {
        seq![worst, pre_best, best]
    }
}

/// What a synchronization chain holds.
pub struct ChainView {
    /// Digest of the block at height zero.
    pub genesis_block_hash: H256,
    /// The store's tip, as the chain remembers it.
    pub best_storage_block: BestBlock,
    /// The store.
    pub store: StoreView,
    /// The queues: verifying, requested, scheduled.
    pub queues: Seq<Seq<H256>>,
    /// The headers chain.
    pub headers: HeadersView,
}

impl ChainView {
    /// Digests of the blocks being verified, the oldest first.
    pub open spec fn verifying(self) -> Seq<H256> {
        self.queues[VERIFYING_QUEUE as int]
    }

    /// Digests of the blocks requested from peers, the oldest first.
    pub open spec fn requested(self) -> Seq<H256> {
        self.queues[REQUESTED_QUEUE as int]
    }

    /// Digests of the blocks scheduled for requesting, the oldest first.
    pub open spec fn scheduled(self) -> Seq<H256> {
        self.queues[SCHEDULED_QUEUE as int]
    }

    /// Digests of all the queued blocks: verifying, then requested, then
    /// scheduled.
    pub open spec fn in_memory(self) -> Seq<H256> {
        concat(self.queues)
    }

    /// The store is well-formed and holds a genesis block; the remembered
    /// tip and genesis are the store's; there are three queues without
    /// repetitions; the headers chain is well-formed; and the heights of all
    /// the blocks, stored, queued or known by header, fit in 32 bits.
    pub open spec fn wf(self) -> bool {
        &&& self.store.wf()
        &&& self.store.chain.len() > 0
        &&& self.store.best_block() == Some(self.best_storage_block)
        &&& self.genesis_block_hash == self.store.chain[0]
        &&& self.queues.len() == NUMBER_OF_QUEUES
        &&& queues_wf(self.queues)
        &&& self.headers.wf()
        &&& self.store.chain.len() + self.in_memory().len() <= u32::MAX
        &&& self.store.chain.len() + self.headers.headers.len() <= u32::MAX
    }

    /// The chain over `store`, with empty queues and no header.
    pub open spec fn initial(store: StoreView) -> ChainView {
        ChainView {
            genesis_block_hash: store.chain[0],
            best_storage_block: store.best_block()->0,
            store,
            queues: Seq::new(NUMBER_OF_QUEUES as nat, |q: int| Seq::<H256>::empty()),
            headers: HeadersView::empty(store.chain[0]),
        }
    }

    /// Whether `blocks` more queued blocks and `headers` more headers leave
    /// every height within 32 bits.
    pub open spec fn has_room_for(self, blocks: nat, headers: nat) -> bool {
        &&& self.store.chain.len() + self.in_memory().len() + blocks <= u32::MAX
        &&& self.store.chain.len() + self.headers.headers.len() + headers <= u32::MAX
    }

    /// The counters.
    pub open spec fn information(self) -> Information {
        Information {
            scheduled: self.scheduled().len() as u32,
            requested: self.requested().len() as u32,
            verifying: self.verifying().len() as u32,
            stored: (self.best_storage_block.number + 1) as u32,
            headers: self.headers.information(),
        }
    }

    /// Number of blocks in `state`.
    pub open spec fn length_of_state(self, state: BlockState) -> u32
        recommends
            !(state is Unknown),
    {
        if state is Stored {
            (self.best_storage_block.number + 1) as u32
        } else {
            self.queues[state.queue_index() as int].len() as u32
        }
    }

    /// The newest block: the last queued one, at the height that the queued
    /// blocks reach above the store's tip, or the store's tip if no block is
    /// queued.
    pub open spec fn best_block(self) -> BestBlock {
        if self.in_memory().len() > 0 {
            BestBlock {
                number: (self.best_storage_block.number + self.in_memory().len()) as u32,
                hash: self.in_memory().last(),
            }
        } else {
            self.best_storage_block
        }
    }

    /// Digest of the block at height `number`: the store's up to its tip,
    /// and above it that of the queued block that many places above the tip.
    pub open spec fn block_hash(self, number: u32) -> Option<H256> {
        if number <= self.best_storage_block.number {
            self.store.block_hash(number)
        } else if number - self.best_storage_block.number - 1 < self.in_memory().len() {
            Some(self.in_memory()[number - self.best_storage_block.number - 1])
        } else {
            None
        }
    }

    /// Height of the block `hash`: the store's if it is on the main chain,
    /// else the one that its place on the best headers chain gives it above
    /// the store's tip.
    pub open spec fn block_number(self, hash: H256) -> Option<u32> {
        match self.store.block_number(hash) {
            Some(number) => Some(number),
            None => match self.headers.height(hash) {
                Some(height) => Some((self.best_storage_block.number + height + 1) as u32),
                None => None,
            },
        }
    }

    /// Header of the block at height `number`: the store's up to its tip,
    /// and above it that of the best headers chain.
    pub open spec fn block_header_by_number(self, number: u32) -> Option<BlockHeader> {
        if number <= self.best_storage_block.number {
            match self.store.block(BlockRef::Number(number)) {
                Some(block) => Some(block.block_header),
                None => None,
            }
        } else {
            self.headers.at((number - self.best_storage_block.number - 1) as u32)
        }
    }

    /// Header of the block `hash`: the store's if it knows the block, else
    /// the headers chain's.
    pub open spec fn block_header_by_hash(self, hash: H256) -> Option<BlockHeader> {
        match self.store.block(BlockRef::Hash(hash)) {
            Some(block) => Some(block.block_header),
            None => self.headers.by_hash(hash),
        }
    }

    /// State of the block `hash`: that of the first queue that holds it,
    /// verifying before requested before scheduled; stored if no queue holds
    /// it and the store knows it; unknown otherwise.
    pub open spec fn block_state(self, hash: H256) -> BlockState {
        if self.verifying().contains(hash) {
            BlockState::Verifying
        } else if self.requested().contains(hash) {
            BlockState::Requested
        } else if self.scheduled().contains(hash) {
            BlockState::Scheduled
        } else if self.store.contains_block(BlockRef::Hash(hash)) {
            BlockState::Stored
        } else {
            BlockState::Unknown
        }
    }

    /// Digest of the block at `height`, stored or queued.
    pub open spec fn hash_at(self, height: nat) -> H256 {
        if height <= self.best_storage_block.number {
            self.store.chain[height as int]
        } else {
            self.in_memory()[height - self.best_storage_block.number - 1]
        }
    }

    /// Digests of the blocks at `heights`, in order.
    pub open spec fn hashes_at(self, heights: Seq<nat>) -> Seq<H256> {
        Seq::new(heights.len(), |k: int| self.hash_at(heights[k]))
    }

    /// The block locator: digests of the blocks at the heights that a
    /// locator samples below the best block.
    pub open spec fn block_locator_hashes(self) -> Seq<H256> {
        self.hashes_at(locator_heights(self.best_block().number as nat))
    }

    /// The landmarks of the chain: the genesis block and the tip of the
    /// store, then those of the verifying, the requested and the scheduled
    /// queue, each queue standing on the one before.
    pub open spec fn landmarks(self) -> Seq<Landmark> {
        let number = self.best_storage_block.number as nat;
        seq![
            Landmark {
                edge: Edge::Worst,
                state: BlockState::Stored,
                number: 0,
                hash: self.store.chain[0],
            },
            Landmark {
                edge: Edge::Best,
                state: BlockState::Stored,
                number: self.best_storage_block.number,
                hash: self.store.chain[number as int],
            },
        ] + queue_landmarks(BlockState::Verifying, number, self.verifying()) + queue_landmarks(
            BlockState::Requested,
            number + self.verifying().len(),
            self.requested(),
        ) + queue_landmarks(
            BlockState::Scheduled,
            number + self.verifying().len() + self.requested().len(),
            self.scheduled(),
        )
    }

    /// The chain with `queue` in place of queue `queue_index`.
    pub open spec fn with_queue(self, queue_index: usize, queue: Seq<H256>) -> ChainView {
        ChainView { queues: self.queues.update(queue_index as int, queue), ..self }
    }

    /// The chain with `headers` in place of its headers chain.
    pub open spec fn with_headers(self, headers: HeadersView) -> ChainView {
        ChainView { headers, ..self }
    }

    /// The chain after `hashes` were scheduled and `headers` taken in.
    pub open spec fn schedule_blocks_headers(
        self,
        hashes: Seq<H256>,
        headers: Seq<BlockHeader>,
    ) -> ChainView {
        self.with_queue(SCHEDULED_QUEUE, self.scheduled() + hashes).with_headers(
            self.headers.insert_n(headers),
        )
    }

    /// The chain after the first `n` digests of queue `from`, or all of them
    /// if there are fewer, went to the end of queue `to`.
    pub open spec fn move_blocks(self, from: usize, to: usize, n: u32) -> ChainView {
        let moved = vstd::math::min(n as int, self.queues[from as int].len() as int);
        self.with_queue(from, self.queues[from as int].skip(moved)).with_queue(
            to,
            self.queues[to as int] + self.queues[from as int].take(moved),
        )
    }

    /// The digests that `move_blocks` moves.
    pub open spec fn moved_blocks(self, from: usize, n: u32) -> Seq<H256> {
        self.queues[from as int].take(
            vstd::math::min(n as int, self.queues[from as int].len() as int),
        )
    }

    /// The chain after `n` scheduled blocks were requested.
    pub open spec fn request_blocks_hashes(self, n: u32) -> ChainView {
        self.move_blocks(SCHEDULED_QUEUE, REQUESTED_QUEUE, n)
    }

    /// The chain after `n` requested blocks went to verification.
    pub open spec fn verify_blocks_hashes(self, n: u32) -> ChainView {
        self.move_blocks(REQUESTED_QUEUE, VERIFYING_QUEUE, n)
    }

    /// The chain after the block `hash` with header `header` went to
    /// verification.
    pub open spec fn verify_block(self, hash: H256, header: BlockHeader) -> ChainView {
        self.with_headers(self.headers.insert(header)).with_queue(
            VERIFYING_QUEUE,
            self.verifying().push(hash),
        )
    }

    /// The chain after the store, which now holds `store`, took in the block
    /// that the caller names `hash`.
    pub open spec fn block_inserted(self, store: StoreView, hash: H256) -> ChainView {
        ChainView {
            genesis_block_hash: self.genesis_block_hash,
            best_storage_block: store.best_block()->0,
            store,
            queues: self.queues,
            headers: self.headers.block_inserted_to_storage(hash, store.best_block()->0.hash),
        }
    }

    /// Index of the queue that `forget` takes `hash` from: the first one
    /// that holds it, and the scheduled queue if none does.
    pub open spec fn forget_queue(self, hash: H256) -> usize {
        if self.verifying().contains(hash) {
            VERIFYING_QUEUE
        } else if self.requested().contains(hash) {
            REQUESTED_QUEUE
        } else {
            SCHEDULED_QUEUE
        }
    }

    /// Where `hash` stands in the first queue that holds it.
    pub open spec fn forget_position(self, hash: H256) -> HashPosition {
        position_in(self.queues[self.forget_queue(hash) as int], hash)
    }

    /// The chain after `hash` left the first queue that holds it.
    pub open spec fn forget_leave_header(self, hash: H256) -> ChainView {
        self.forget_with_state_leave_header(hash, BlockState::of_queue(self.forget_queue(hash)))
    }

    /// The chain after `hash` left the first queue that holds it, and its
    /// header the headers chain if a queue held it.
    pub open spec fn forget(self, hash: H256) -> ChainView {
        if self.forget_position(hash) is Missing {
            self
        } else {
            self.forget_leave_header(hash).with_headers(self.headers.remove(hash))
        }
    }

    /// The chain after `hash` left the queue of `state`.
    pub open spec fn forget_with_state_leave_header(
        self,
        hash: H256,
        state: BlockState,
    ) -> ChainView
        recommends
            state.is_queued(),
    {
        self.with_queue(
            state.queue_index(),
            without(self.queues[state.queue_index() as int], hash),
        )
    }

    /// The chain after `hash` left the queue of `state`, and its header the
    /// headers chain if that queue held it.
    pub open spec fn forget_with_state(self, hash: H256, state: BlockState) -> ChainView
        recommends
            state.is_queued(),
    {
        if self.queues[state.queue_index() as int].contains(hash) {
            self.forget_with_state_leave_header(hash, state).with_headers(
                self.headers.remove(hash),
            )
        } else {
            self
        }
    }

    /// The chain after each of `hashes` was forgotten, the last one first.
    pub open spec fn forget_back_to_front(self, hashes: Seq<H256>) -> ChainView
        decreases hashes.len(),
    {
        if hashes.len() == 0 {
            self
        } else {
            self.forget(hashes.last()).forget_back_to_front(hashes.drop_last())
        }
    }

    /// The chain after `hash` and all its descendants by the known headers
    /// were forgotten, the ones found last first.
    pub open spec fn forget_with_children(self, hash: H256) -> ChainView {
        self.forget_back_to_front(discovery_order(self.headers.headers, hash))
    }

    /// The chain after each of `hashes` was forgotten with `state`, in order.
    pub open spec fn forget_each_with_state(self, hashes: Seq<H256>, state: BlockState) -> ChainView
        recommends
            state.is_queued(),
        decreases hashes.len(),
    {
        if hashes.len() == 0 {
            self
        } else {
            self.forget_each_with_state(hashes.drop_last(), state).forget_with_state(
                hashes.last(),
                state,
            )
        }
    }

    /// The chain after the queue of `state` was emptied and the headers of
    /// its blocks forgotten, in the queue's order.
    pub open spec fn forget_all_with_state(self, state: BlockState) -> ChainView
        recommends
            state.is_queued(),
    {
        self.with_queue(state.queue_index(), Seq::empty()).with_headers(
            self.headers.remove_n(self.queues[state.queue_index() as int]),
        )
    }

    /// Index of the first of `hashes`, from `from` on, whose block is
    /// unknown; the length of `hashes` if there is none.
    pub open spec fn first_unknown_from(self, hashes: Seq<H256>, from: int) -> int
        decreases hashes.len() - from,
    {
        if from < 0 || from >= hashes.len() {
            hashes.len() as int
        } else if self.block_state(hashes[from]) is Unknown {
            from
        } else {
            self.first_unknown_from(hashes, from + 1)
        }
    }

    /// The verdict on headers that are new from `index` on and follow the
    /// known block `hash`, which is in state `state`.
    pub open spec fn new_blocks_after(
        self,
        state: BlockState,
        hash: H256,
        index: usize,
    ) -> HeadersIntersection {
        if state is Stored {
            HeadersIntersection::DbForkNewBlocks(index)
        } else if self.best_block().hash == hash {
            HeadersIntersection::InMemoryMainNewBlocks(index)
        } else {
            HeadersIntersection::InMemoryForkNewBlocks(index)
        }
    }

    /// How the announced headers `headers`, whose digests are `hashes`,
    /// relate to what the chain knows.
    ///
    /// If neither the first block nor its parent is known, nothing is. Else,
    /// if the last block is stored, all are; if the last block is queued,
    /// none is new; and if the last block is unknown, the verdict names the
    /// first unknown block and tells what the block before it is: stored,
    /// the best block, or another queued block.
    pub open spec fn intersect_with_headers(
        self,
        hashes: Seq<H256>,
        headers: Seq<BlockHeader>,
    ) -> HeadersIntersection
        recommends
            hashes.len() > 0,
            hashes.len() == headers.len(),
    {
        let parent = headers[0].previous_header_hash;
        let first_known = !(self.block_state(hashes[0]) is Unknown);
        let last_state = self.block_state(hashes.last());
        if !first_known && self.block_state(parent) is Unknown {
            HeadersIntersection::NoKnownBlocks(0)
        } else if last_state is Stored {
            HeadersIntersection::DbAllBlocksKnown
        } else if !(last_state is Unknown) {
            HeadersIntersection::InMemoryNoNewBlocks
        } else if !first_known {
            self.new_blocks_after(self.block_state(parent), parent, 0)
        } else {
            let index = self.first_unknown_from(hashes, 0);
            self.new_blocks_after(
                self.block_state(hashes[index - 1]),
                hashes[index - 1],
                index as usize,
            )
        }
    }

    /// The locator is not empty, starts with the best block and ends with
    /// the genesis block.
    pub proof fn lemma_locator_ends(self)
        requires
            self.wf(),
        ensures
            self.block_locator_hashes().len() >= 1,
            self.block_locator_hashes().first() == self.best_block().hash,
            self.block_locator_hashes().last() == self.genesis_block_hash,
    {
        let top = self.best_block().number as nat;
        lemma_locator_heights_from(top, 0, 1);
        let heights = locator_heights(top);
        assert(self.block_locator_hashes().first() == self.hash_at(heights.first()));
        assert(self.block_locator_hashes().last() == self.hash_at(heights.last()));
    }
}

} // verus!
