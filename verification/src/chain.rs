//! The synchronization chain: the blocks of the store, then the blocks being
//! verified, then the blocks requested from peers, then the blocks scheduled
//! for requesting.

use crate::best_headers_chain::{lemma_children_of, BestHeadersChain};
use crate::block::{BestBlock, Block, BlockHeader, BlockRef};
use crate::descendants::{
    discovered_after, discovery_order, fresh, lemma_discovered, lemma_discovered_stable,
    lemma_fresh,
};
use crate::digest_set::DigestSet;
use crate::hash::H256;
use crate::hash_queue::{
    lemma_concat_three, lemma_concat_update, lemma_push_to_set, lemma_without, HashPosition,
    HashQueueChain,
};
use crate::locator::{locator_heights, locator_heights_from, next_step, DENSE_SAMPLES};
use crate::model::{
    queue_landmarks, BlockState, ChainView, Edge, HeadersIntersection, Information, Landmark,
    NUMBER_OF_QUEUES, REQUESTED_QUEUE, SCHEDULED_QUEUE, VERIFYING_QUEUE,
};
use crate::store::{Store, StoreError};
use vstd::prelude::*;

verus! {

/// The blocks a peer knows, from the store's genesis block to the newest
/// block that was announced to it.
///
/// `S` is the block store. `P` is the pool of transactions that travels with
/// the chain; the chain hands it out and never looks into it.
pub struct Chain<S: Store, P> {
    genesis_block_hash: H256,
    best_storage_block: BestBlock,
    storage: S,
    hash_chain: HashQueueChain,
    headers_chain: BestHeadersChain,
    memory_pool: P,
}

impl<S: Store, P> View for Chain<S, P> {
    type V = ChainView;

    closed spec fn view(&self) -> ChainView {
        ChainView {
            genesis_block_hash: self.genesis_block_hash,
            best_storage_block: self.best_storage_block,
            store: self.storage.model(),
            queues: self.hash_chain@,
            headers: self.headers_chain@,
        }
    }
}

impl<S: Store, P> Chain<S, P> {
    /// The parts are consistent, each by itself.
    pub closed spec fn inv(&self) -> bool {
        &&& self.storage.inv()
        &&& self.hash_chain.wf()
        &&& self.headers_chain.wf()
    }

    /// The chain is consistent. See [`ChainView::wf`].
    pub open spec fn wf(&self) -> bool {
        &&& self.inv()
        &&& self@.wf()
    }

    /// The pool of transactions.
    pub closed spec fn pool(&self) -> P {
        self.memory_pool
    }

    /// A chain over `storage`, which holds a genesis block at least, with
    /// empty queues and no header.
    pub fn new(storage: S, memory_pool: P) -> (r: Self)
        requires
            storage.inv(),
            storage.model().chain.len() > 0,
        ensures
            r.wf(),
            r@ == ChainView::initial(storage.model()),
            r.pool() == memory_pool,
    {
        proof {
            storage.inv_implies_wf();
        }
        let genesis_block_hash = storage.block_hash(0).unwrap();
        let best_storage_block = storage.best_block().unwrap();
        let hash_chain = HashQueueChain::with_number_of_queues(NUMBER_OF_QUEUES);
        proof {
            lemma_concat_three(hash_chain@);
        }
        Chain {
            genesis_block_hash,
            best_storage_block,
            storage,
            hash_chain,
            headers_chain: BestHeadersChain::new(genesis_block_hash),
            memory_pool,
        }
    }

    /// The counters.
    pub fn information(&self) -> (r: Information)
        requires
            self.wf(),
        ensures
            r == self@.information(),
            r.stored == self@.best_storage_block.number + 1,
            r.stored == self@.store.chain.len(),
    {
        Information {
            scheduled: self.hash_chain.len_of(SCHEDULED_QUEUE),
            requested: self.hash_chain.len_of(REQUESTED_QUEUE),
            verifying: self.hash_chain.len_of(VERIFYING_QUEUE),
            stored: self.best_storage_block.number + 1,
            headers: self.headers_chain.information(),
        }
    }

    /// The block store.
    pub fn storage(&self) -> (r: &S)
        requires
            self.wf(),
        ensures
            r.inv(),
            r.model() == self@.store,
    {
        &self.storage
    }

    /// The pool of transactions.
    pub fn memory_pool(&self) -> (r: &P)
        ensures
            *r == self.pool(),
    {
        &self.memory_pool
    }

    /// Number of blocks in `state`.
    pub fn length_of_state(&self, state: BlockState) -> (r: u32)
        requires
            self.wf(),
            !(state is Unknown),
        ensures
            r == self@.length_of_state(state),
    {
        match state {
            BlockState::Stored => self.best_storage_block.number + 1,
            _ => self.hash_chain.len_of(state.to_queue_index()),
        }
    }

    /// The newest block. See [`ChainView::best_block`].
    pub fn best_block(&self) -> (r: BestBlock)
        requires
            self.wf(),
        ensures
            r == self@.best_block(),
            r.number == self@.best_storage_block.number + self@.scheduled().len()
                + self@.requested().len() + self@.verifying().len(),
    {
        proof {
            lemma_concat_three(self@.queues);
        }
        match self.hash_chain.back() {
            Some(hash) => BestBlock {
                number: self.best_storage_block.number + self.hash_chain.len(),
                hash,
            },
            None => self.best_storage_block,
        }
    }

    /// The store's tip.
    pub fn best_storage_block(&self) -> (r: BestBlock)
        requires
            self.wf(),
        ensures
            r == self@.best_storage_block,
            Some(r) == self@.store.best_block(),
    {
        self.best_storage_block
    }

    /// Digest of the block at height `number`. See [`ChainView::block_hash`].
    pub fn block_hash(&self, number: u32) -> (r: Option<H256>)
        requires
            self.wf(),
        ensures
            r == self@.block_hash(number),
    {
        if number <= self.best_storage_block.number {
            self.storage.block_hash(number)
        } else {
            self.hash_chain.at(number - self.best_storage_block.number - 1)
        }
    }

    /// Height of the block `hash`. See [`ChainView::block_number`].
    pub fn block_number(&self, hash: &H256) -> (r: Option<u32>)
        requires
            self.wf(),
        ensures
            r == self@.block_number(*hash),
    {
        match self.storage.block_number(hash) {
            Some(number) => Some(number),
            None => match self.headers_chain.height(hash) {
                Some(height) => {
                    proof {
                        self@.headers.lemma_best_len();
                    }
                    Some(self.best_storage_block.number + height + 1)
                },
                None => None,
            },
        }
    }

    /// Header of the block at height `number`. See
    /// [`ChainView::block_header_by_number`].
    pub fn block_header_by_number(&self, number: u32) -> (r: Option<BlockHeader>)
        requires
            self.wf(),
        ensures
            r == self@.block_header_by_number(number),
    {
        if number <= self.best_storage_block.number {
            match self.storage.block(BlockRef::Number(number)) {
                Some(block) => Some(block.block_header),
                None => None,
            }
        } else {
            self.headers_chain.at(number - self.best_storage_block.number - 1)
        }
    }

    /// Header of the block `hash`. See [`ChainView::block_header_by_hash`].
    pub fn block_header_by_hash(&self, hash: &H256) -> (r: Option<BlockHeader>)
        requires
            self.wf(),
        ensures
            r == self@.block_header_by_hash(*hash),
    {
        match self.storage.block(BlockRef::Hash(*hash)) {
            Some(block) => Some(block.block_header),
            None => self.headers_chain.by_hash(hash),
        }
    }

    /// State of the block `hash`. See [`ChainView::block_state`].
    pub fn block_state(&self, hash: &H256) -> (r: BlockState)
        requires
            self.wf(),
        ensures
            r == self@.block_state(*hash),
    {
        match self.hash_chain.contains_in(hash) {
            Some(queue_index) => BlockState::from_queue_index(queue_index),
            None => if self.storage.contains_block(BlockRef::Hash(*hash)) {
                BlockState::Stored
            } else {
                BlockState::Unknown
            },
        }
    }

    /// Schedules the blocks `hashes` for requesting, in order, and takes
    /// their headers `headers` in.
    pub fn schedule_blocks_headers(&mut self, hashes: Vec<H256>, headers: Vec<BlockHeader>)
        requires
            old(self).wf(),
            hashes@.no_duplicates(),
            forall|i: int|
                0 <= i < hashes@.len() ==> !old(self)@.scheduled().contains(#[trigger] hashes@[i]),
            old(self)@.has_room_for(hashes@.len(), headers@.len()),
        ensures
            final(self).wf(),
            final(self)@ == old(self)@.schedule_blocks_headers(hashes@, headers@),
            final(self).pool() == old(self).pool(),
    {
        proof {
            lemma_concat_update(
                self@.queues,
                SCHEDULED_QUEUE as int,
                self@.scheduled() + hashes@,
            );
            self@.headers.lemma_insert_n_wf(headers@);
        }
        self.hash_chain.push_back_n_at(SCHEDULED_QUEUE, hashes);
        self.headers_chain.insert_n(headers);
    }

    fn move_blocks(&mut self, from: usize, to: usize, n: u32) -> (r: Vec<H256>)
        requires
            old(self).wf(),
            from < NUMBER_OF_QUEUES,
            to < NUMBER_OF_QUEUES,
            from != to,
            forall|i: int|
                0 <= i < old(self)@.moved_blocks(from, n).len() ==> !old(self)@.queues[to as int].contains(
                    #[trigger] old(self)@.queues[from as int][i],
                ),
        ensures
            final(self).wf(),
            final(self)@ == old(self)@.move_blocks(from, to, n),
            r@ == old(self)@.moved_blocks(from, n),
            final(self).pool() == old(self).pool(),
    {
        let ghost before = self@.queues;
        let ghost source = before[from as int];
        let ghost target = before[to as int];
        let ghost k = vstd::math::min(n as int, source.len() as int);
        proof {
            lemma_concat_update(before, from as int, source.skip(k));
            lemma_concat_update(
                before.update(from as int, source.skip(k)),
                to as int,
                target + source.take(k),
            );
        }
        let moved = self.hash_chain.pop_front_n_at(from, n);
        let copy = moved.clone();
        assert(copy@ =~= moved@);
        self.hash_chain.push_back_n_at(to, copy);
        moved
    }

    /// Moves the first `n` scheduled blocks, or all of them if there are
    /// fewer, to the end of the requested queue, and returns their digests.
    pub fn request_blocks_hashes(&mut self, n: u32) -> (r: Vec<H256>)
        requires
            old(self).wf(),
            forall|i: int|
                0 <= i < old(self)@.moved_blocks(SCHEDULED_QUEUE, n).len()
                    ==> !old(self)@.requested().contains(#[trigger] old(self)@.scheduled()[i]),
        ensures
            final(self).wf(),
            final(self)@ == old(self)@.request_blocks_hashes(n),
            r@ == old(self)@.moved_blocks(SCHEDULED_QUEUE, n),
            final(self).pool() == old(self).pool(),
    {
        assert(self@.scheduled() == self@.queues[SCHEDULED_QUEUE as int]);
        self.move_blocks(SCHEDULED_QUEUE, REQUESTED_QUEUE, n)
    }

    /// Puts the block `hash` at the end of the verifying queue and takes its
    /// header `header` in.
    pub fn verify_block(&mut self, hash: H256, header: BlockHeader)
        requires
            old(self).wf(),
            !old(self)@.verifying().contains(hash),
            old(self)@.has_room_for(1, 1),
        ensures
            final(self).wf(),
            final(self)@ == old(self)@.verify_block(hash, header),
            final(self).pool() == old(self).pool(),
    {
        proof {
            lemma_concat_update(
                self@.queues,
                VERIFYING_QUEUE as int,
                self@.verifying().push(hash),
            );
            self@.headers.lemma_insert_wf(header);
        }
        self.headers_chain.insert(header);
        self.hash_chain.push_back_at(VERIFYING_QUEUE, hash);
    }

    /// Moves the first `n` requested blocks, or all of them if there are
    /// fewer, to the end of the verifying queue, and returns their digests.
    pub fn verify_blocks_hashes(&mut self, n: u32) -> (r: Vec<H256>)
        requires
            old(self).wf(),
            forall|i: int|
                0 <= i < old(self)@.moved_blocks(REQUESTED_QUEUE, n).len()
                    ==> !old(self)@.verifying().contains(#[trigger] old(self)@.requested()[i]),
        ensures
            final(self).wf(),
            final(self)@ == old(self)@.verify_blocks_hashes(n),
            r@ == old(self)@.moved_blocks(REQUESTED_QUEUE, n),
            final(self).pool() == old(self).pool(),
    {
        assert(self@.requested() == self@.queues[REQUESTED_QUEUE as int]);
        self.move_blocks(REQUESTED_QUEUE, VERIFYING_QUEUE, n)
    }

    /// Hands `block` to the store and returns the store's answer. If the
    /// store takes the block, the chain remembers the store's new tip and
    /// tells the headers chain that the block `hash` is stored. If the store
    /// refuses it, nothing changes.
    pub fn insert_best_block(&mut self, hash: H256, block: Block) -> (r: Result<(), StoreError>)
        requires
            old(self).wf(),
            old(self)@.has_room_for(1, 1),
        ensures
            final(self).wf(),
            final(self).pool() == old(self).pool(),
            S::may_insert(old(self)@.store, block@, r, final(self)@.store),
            r is Ok ==> old(self)@.store.accepted(final(self)@.store, block@),
            r is Ok ==> final(self)@ == old(self)@.block_inserted(final(self)@.store, hash),
            r is Err ==> final(self)@ == old(self)@,
    {
        let answer = self.storage.insert_block(&block);
        if answer.is_err() {
            return answer;
        }
        proof {
            self.storage.inv_implies_wf();
            old(self)@.headers.lemma_block_inserted_wf(
                hash,
                self.storage.model().best_block()->0.hash,
            );
        }
        self.best_storage_block = self.storage.best_block().unwrap();
        let best_hash = self.best_storage_block.hash;
        self.headers_chain.block_inserted_to_storage(&hash, &best_hash);
        answer
    }

    /// Takes `hash` out of the first queue that holds it, verifying before
    /// requested before scheduled, and forgets its header if a queue held
    /// it. Says where it stood in that queue.
    pub fn forget(&mut self, hash: &H256) -> (r: HashPosition)
        requires
            old(self).wf(),
        ensures
            final(self).wf(),
            r == old(self)@.forget_position(*hash),
            final(self)@ == old(self)@.forget(*hash),
            final(self).pool() == old(self).pool(),
    {
        let position = self.forget_leave_header(hash);
        if position != HashPosition::Missing {
            proof {
                self@.headers.lemma_remove_wf(*hash);
            }
            self.headers_chain.remove(hash);
        } else {
            proof {
                let queue = old(self)@.queues[old(self)@.forget_queue(*hash) as int];
                assert(old(self)@.queues =~= old(self)@.queues.update(
                    old(self)@.forget_queue(*hash) as int,
                    queue,
                ));
            }
        }
        position
    }

    /// Takes `hash` out of the first queue that holds it, verifying before
    /// requested before scheduled, and keeps its header. Says where it stood
    /// in that queue.
    pub fn forget_leave_header(&mut self, hash: &H256) -> (r: HashPosition)
        requires
            old(self).wf(),
        ensures
            final(self).wf(),
            r == old(self)@.forget_position(*hash),
            final(self)@ == old(self)@.forget_leave_header(*hash),
            final(self).pool() == old(self).pool(),
    {
        let ghost before = self@.queues;
        proof {
            lemma_concat_update(
                before,
                VERIFYING_QUEUE as int,
                crate::hash_queue::without(before[VERIFYING_QUEUE as int], *hash),
            );
            lemma_concat_update(
                before,
                REQUESTED_QUEUE as int,
                crate::hash_queue::without(before[REQUESTED_QUEUE as int], *hash),
            );
            lemma_concat_update(
                before,
                SCHEDULED_QUEUE as int,
                crate::hash_queue::without(before[SCHEDULED_QUEUE as int], *hash),
            );
            lemma_without(before[VERIFYING_QUEUE as int], *hash);
            lemma_without(before[REQUESTED_QUEUE as int], *hash);
            lemma_without(before[SCHEDULED_QUEUE as int], *hash);
        }
        match self.hash_chain.remove_at(VERIFYING_QUEUE, hash) {
            HashPosition::Missing => {
                assert(self.hash_chain@ =~= before);
                match self.hash_chain.remove_at(REQUESTED_QUEUE, hash) {
                    HashPosition::Missing => {
                        assert(self.hash_chain@ =~= before);
                        self.hash_chain.remove_at(SCHEDULED_QUEUE, hash)
                    },
                    position => position,
                }
            },
            position => position,
        }
    }

    /// Takes `hash` out of the queue of `state`, and forgets its header if
    /// that queue held it. Says where it stood in that queue.
    pub fn forget_with_state(&mut self, hash: &H256, state: BlockState) -> (r: HashPosition)
        requires
            old(self).wf(),
            state.is_queued(),
        ensures
            final(self).wf(),
            r == crate::hash_queue::position_in(
                old(self)@.queues[state.queue_index() as int],
                *hash,
            ),
            final(self)@ == old(self)@.forget_with_state(*hash, state),
            final(self).pool() == old(self).pool(),
    {
        let position = self.forget_with_state_leave_header(hash, state);
        if position != HashPosition::Missing {
            proof {
                self@.headers.lemma_remove_wf(*hash);
            }
            self.headers_chain.remove(hash);
        } else {
            proof {
                assert(old(self)@.queues =~= old(self)@.queues.update(
                    state.queue_index() as int,
                    old(self)@.queues[state.queue_index() as int],
                ));
            }
        }
        position
    }

    /// Takes `hash` out of the queue of `state` and keeps its header. Says
    /// where it stood in that queue.
    pub fn forget_with_state_leave_header(&mut self, hash: &H256, state: BlockState) -> (r:
        HashPosition)
        requires
            old(self).wf(),
            state.is_queued(),
        ensures
            final(self).wf(),
            r == crate::hash_queue::position_in(
                old(self)@.queues[state.queue_index() as int],
                *hash,
            ),
            final(self)@ == old(self)@.forget_with_state_leave_header(*hash, state),
            final(self).pool() == old(self).pool(),
    {
        proof {
            let queue = self@.queues[state.queue_index() as int];
            lemma_concat_update(
                self@.queues,
                state.queue_index() as int,
                crate::hash_queue::without(queue, *hash),
            );
            lemma_without(queue, *hash);
        }
        self.hash_chain.remove_at(state.to_queue_index(), hash)
    }

    /// Empties the queue of `state` and forgets the headers of its blocks.
    pub fn forget_all_with_state(&mut self, state: BlockState)
        requires
            old(self).wf(),
            state.is_queued(),
        ensures
            final(self).wf(),
            final(self)@ == old(self)@.forget_all_with_state(state),
            final(self).pool() == old(self).pool(),
    {
        proof {
            lemma_concat_update(self@.queues, state.queue_index() as int, Seq::empty());
            self@.headers.lemma_remove_n_wf(self@.queues[state.queue_index() as int]);
        }
        let hashes = self.hash_chain.remove_all_at(state.to_queue_index());
        self.headers_chain.remove_n(hashes);
    }
}

impl<S: Store, P> Chain<S, P> {
    /// The pool of transactions, to change it.
    pub fn memory_pool_mut(&mut self) -> (r: &mut P)
        ensures
            *r == old(self).pool(),
            final(self).pool() == *final(r),
            final(self)@ == old(self)@,
            final(self).wf() == old(self).wf(),
    {
        &mut self.memory_pool
    }

    /// The block `hash` and every block that descends from it by the known
    /// headers, breadth first: `hash`, then its children in the order in
    /// which their headers came, then their children, each block once.
    pub fn descendants(&self, hash: &H256) -> (r: Vec<H256>)
        requires
            self.wf(),
        ensures
            r@ == discovery_order(self@.headers.headers, *hash),
    {
        let ghost headers = self@.headers.headers;
        let mut order: Vec<H256> = Vec::new();
        let mut found = DigestSet::new();
        order.push(*hash);
        found.insert(*hash);
        let mut done: usize = 0;
        proof {
            assert(order@ =~= discovered_after(headers, *hash, 0));
            lemma_push_to_set(Seq::<H256>::empty(), *hash);
            assert(Seq::<H256>::empty().to_set() =~= Set::<H256>::empty());
        }
        while done < order.len()
            invariant
                self.wf(),
                headers == self@.headers.headers,
                done <= order@.len(),
                order@ == discovered_after(headers, *hash, done as nat),
                found.wf(),
                found@ == order@.to_set(),
            decreases headers.len() + 1 - done,
        {
            proof {
                lemma_discovered(headers, *hash, done as nat);
                lemma_children_of(headers, order@[done as int]);
            }
            let children = self.headers_chain.children(&order[done]);
            let ghost seen = order@;
            let mut i: usize = 0;
            assert(children@.take(0) =~= Seq::<H256>::empty());
            while i < children.len()
                invariant
                    i <= children@.len(),
                    children@.no_duplicates(),
                    order@ == seen + fresh(children@.take(i as int), seen),
                    found.wf(),
                    found@ == order@.to_set(),
                decreases children@.len() - i,
            {
                let child = children[i];
                proof {
                    assert(children@.take(i + 1).drop_last() =~= children@.take(i as int));
                    lemma_fresh(children@.take(i as int), seen);
                    let new = fresh(children@.take(i as int), seen);
                    if new.contains(child) {
                        let k = children@.take(i as int).index_of(child);
                        assert(children@[k] == children@[i as int]);
                    }
                    if order@.contains(child) && !seen.contains(child) {
                        let k = order@.index_of(child);
                        assert(new[k - seen.len()] == child);
                    }
                    if seen.contains(child) {
                        let k = seen.index_of(child);
                        assert(order@[k] == child);
                    }
                    lemma_push_to_set(order@, child);
                }
                if found.insert(child) {
                    order.push(child);
                }
                i += 1;
                assert(order@ =~= seen + fresh(children@.take(i as int), seen));
            }
            assert(children@.take(children@.len() as int) =~= children@);
            done += 1;
        }
        proof {
            lemma_discovered(headers, *hash, done as nat);
            lemma_discovered_stable(headers, *hash, done as nat, headers.len() + 1);
        }
        order
    }

    /// Forgets the block `hash` and every block that descends from it by
    /// the known headers: the descendants are found breadth first, then
    /// forgotten as [`Chain::forget`] does, the ones found last first.
    pub fn forget_with_children(&mut self, hash: &H256)
        requires
            old(self).wf(),
        ensures
            final(self).wf(),
            final(self)@ == old(self)@.forget_with_children(*hash),
            final(self).pool() == old(self).pool(),
    {
        let mut order = self.descendants(hash);
        while order.len() > 0
            invariant
                self.wf(),
                self.pool() == old(self).pool(),
                self@.forget_back_to_front(order@) == old(self)@.forget_with_children(*hash),
            decreases order@.len(),
        {
            let ghost rest = order@;
            let last = order.pop().unwrap();
            assert(order@ =~= rest.drop_last());
            self.forget(&last);
        }
    }

    /// How the announced headers `headers`, whose digests are `hashes`,
    /// relate to what the chain knows. See
    /// [`ChainView::intersect_with_headers`].
    pub fn intersect_with_headers(&self, hashes: &Vec<H256>, headers: &Vec<BlockHeader>) -> (r:
        HeadersIntersection)
        requires
            self.wf(),
            hashes@.len() != 0,
            hashes@.len() == headers@.len(),
        ensures
            r == self@.intersect_with_headers(hashes@, headers@),
    {
        let hashes_len = hashes.len();
        let parent = headers[0].previous_header_hash;
        let (is_first_known, first_state) = match self.block_state(&hashes[0]) {
            BlockState::Unknown => (false, self.block_state(&parent)),
            state => (true, state),
        };
        if first_state == BlockState::Unknown {
            return HeadersIntersection::NoKnownBlocks(0);
        }
        match self.block_state(&hashes[hashes_len - 1]) {
            BlockState::Stored => HeadersIntersection::DbAllBlocksKnown,
            BlockState::Unknown => {
                if !is_first_known {
                    return self.new_blocks_after(first_state, &parent, 0);
                }
                let mut previous_state = first_state;
                let mut index: usize = 1;
                loop
                    invariant
                        self.wf(),
                        hashes_len == hashes@.len(),
                        1 <= index < hashes_len,
                        self@.block_state(hashes@.last()) is Unknown,
                        previous_state == self@.block_state(hashes@[index - 1]),
                        self@.first_unknown_from(hashes@, 0) == self@.first_unknown_from(
                            hashes@,
                            index as int,
                        ),
                    decreases hashes_len - index,
                {
                    let state = self.block_state(&hashes[index]);
                    if state == BlockState::Unknown {
                        return self.new_blocks_after(previous_state, &hashes[index - 1], index);
                    }
                    previous_state = state;
                    index += 1;
                }
            },
            _ => HeadersIntersection::InMemoryNoNewBlocks,
        }
    }

    /// The blocks at the ends of the store and of each queue that is not
    /// empty, with their heights. See [`ChainView::landmarks`].
    pub fn landmarks(&self) -> (r: Vec<Landmark>)
        requires
            self.wf(),
        ensures
            r@ == self@.landmarks(),
    {
        proof {
            lemma_concat_three(self@.queues);
        }
        let mut landmarks: Vec<Landmark> = Vec::new();
        let num = self.best_storage_block.number;
        landmarks.push(
            Landmark {
                edge: Edge::Worst,
                state: BlockState::Stored,
                number: 0,
                hash: self.storage.block_hash(0).unwrap(),
            },
        );
        landmarks.push(
            Landmark {
                edge: Edge::Best,
                state: BlockState::Stored,
                number: num,
                hash: self.storage.block_hash(num).unwrap(),
            },
        );
        let num = self.queue_landmarks(VERIFYING_QUEUE, num, &mut landmarks);
        let num = self.queue_landmarks(REQUESTED_QUEUE, num, &mut landmarks);
        self.queue_landmarks(SCHEDULED_QUEUE, num, &mut landmarks);
        assert(landmarks@ =~= self@.landmarks());
        landmarks
    }

    fn queue_landmarks(&self, queue: usize, below: u32, landmarks: &mut Vec<Landmark>) -> (r: u32)
        requires
            self.wf(),
            queue < NUMBER_OF_QUEUES,
            below + self@.queues[queue as int].len() <= u32::MAX,
        ensures
            r == below + self@.queues[queue as int].len(),
            final(landmarks)@ == old(landmarks)@ + queue_landmarks(
                BlockState::of_queue(queue),
                below as nat,
                self@.queues[queue as int],
            ),
    {
        let queue_len = self.hash_chain.len_of(queue);
        let state = BlockState::from_queue_index(queue);
        let num = below + queue_len;
        if queue_len != 0 {
            landmarks.push(
                Landmark {
                    edge: Edge::Worst,
                    state,
                    number: below + 1,
                    hash: self.hash_chain.front_at(queue).unwrap(),
                },
            );
            match self.hash_chain.pre_back_at(queue) {
                Some(pre_best) => {
                    landmarks.push(
                        Landmark { edge: Edge::PreBest, state, number: num - 1, hash: pre_best },
                    );
                },
                None => {},
            }
            landmarks.push(
                Landmark {
                    edge: Edge::Best,
                    state,
                    number: num,
                    hash: self.hash_chain.back_at(queue).unwrap(),
                },
            );
        }
        assert(landmarks@ =~= old(landmarks)@ + queue_landmarks(
            BlockState::of_queue(queue),
            below as nat,
            self@.queues[queue as int],
        ));
        num
    }

    fn new_blocks_after(&self, state: BlockState, hash: &H256, index: usize) -> (r:
        HeadersIntersection)
        requires
            self.wf(),
        ensures
            r == self@.new_blocks_after(state, *hash, index),
    {
        if state == BlockState::Stored {
            HeadersIntersection::DbForkNewBlocks(index)
        } else if self.best_block().hash == *hash {
            HeadersIntersection::InMemoryMainNewBlocks(index)
        } else {
            HeadersIntersection::InMemoryForkNewBlocks(index)
        }
    }

    /// The block locator: the digest of the best block, of the nine blocks
    /// below it, then of blocks at distances that double, and of the genesis
    /// block at the end. See [`ChainView::block_locator_hashes`].
    pub fn block_locator_hashes(&self) -> (r: Vec<H256>)
        requires
            self.wf(),
        ensures
            r@ == self@.block_locator_hashes(),
            r@.len() >= 1,
            r@.first() == self@.best_block().hash,
            r@.last() == self@.genesis_block_hash,
    {
        let mut block_locator_hashes: Vec<H256> = Vec::new();
        let (local_index, step) = self.block_locator_hashes_for_queue(&mut block_locator_hashes);
        let number = self.best_storage_block.number;
        let storage_index = if (number as u64) < local_index {
            0
        } else {
            number - local_index as u32
        };
        self.block_locator_hashes_for_storage(storage_index, step, &mut block_locator_hashes);
        proof {
            self@.lemma_locator_ends();
        }
        block_locator_hashes
    }

    fn block_locator_hashes_for_queue(&self, hashes: &mut Vec<H256>) -> (r: (u64, u64))
        requires
            self.wf(),
            old(hashes)@.len() == 0,
        ensures
            1 <= r.1 <= 2 * u32::MAX,
            final(hashes)@ + self@.hashes_at(
                locator_heights_from(
                    if self@.best_storage_block.number < r.0 {
                        0nat
                    } else {
                        (self@.best_storage_block.number - r.0) as nat
                    },
                    final(hashes)@.len(),
                    r.1 as nat,
                ),
            ) == self@.block_locator_hashes(),
    {
        let queue_len = self.hash_chain.len();
        let ghost number = self@.best_storage_block.number as nat;
        if queue_len == 0 {
            assert(hashes@ + self@.block_locator_hashes() =~= self@.block_locator_hashes());
            return (0, 1);
        }
        let mut index: u32 = queue_len - 1;
        let mut step: u64 = 1;
        assert(hashes@ + self@.block_locator_hashes() =~= self@.block_locator_hashes());
        loop
            invariant
                self.wf(),
                queue_len == self@.in_memory().len(),
                number == self@.best_storage_block.number,
                index < queue_len,
                1 <= step <= u32::MAX,
                hashes@ + self@.hashes_at(
                    locator_heights_from((number + 1 + index) as nat, hashes@.len(), step as nat),
                ) == self@.block_locator_hashes(),
            decreases index,
        {
            let ghost height = (number + 1 + index) as nat;
            let ghost emitted = hashes@.len();
            let ghost before = hashes@;
            let ghost old_step = step as nat;
            let block_hash = self.hash_chain.at(index).unwrap();
            hashes.push(block_hash);
            if hashes.len() >= DENSE_SAMPLES {
                step = step * 2;
            }
            proof {
                assert(step == next_step(emitted + 1, old_step));
                assert(block_hash == self@.hash_at(height));
                let lower = if height < step {
                    0nat
                } else {
                    (height - step) as nat
                };
                let rest = locator_heights_from(lower, emitted + 1, step as nat);
                assert(locator_heights_from(height, emitted, old_step) =~= seq![height] + rest);
                assert(self@.hashes_at(seq![height] + rest) =~= seq![block_hash] + self@.hashes_at(
                    rest,
                ));
                assert(hashes@ + self@.hashes_at(rest) =~= before + self@.hashes_at(
                    seq![height] + rest,
                ));
            }
            if (index as u64) < step {
                return (step - index as u64 - 1, step);
            }
            index = index - step as u32;
        }
    }

    fn block_locator_hashes_for_storage(&self, index: u32, step: u64, hashes: &mut Vec<H256>)
        requires
            self.wf(),
            index <= self@.best_storage_block.number,
            1 <= step <= 2 * u32::MAX,
        ensures
            final(hashes)@ == old(hashes)@ + self@.hashes_at(
                locator_heights_from(index as nat, old(hashes)@.len(), step as nat),
            ),
    {
        let ghost target = hashes@ + self@.hashes_at(
            locator_heights_from(index as nat, hashes@.len(), step as nat),
        );
        let mut at = index;
        let mut distance = step;
        loop
            invariant
                self.wf(),
                at <= self@.best_storage_block.number,
                1 <= distance <= 2 * u32::MAX,
                target == old(hashes)@ + self@.hashes_at(
                    locator_heights_from(index as nat, old(hashes)@.len(), step as nat),
                ),
                hashes@ + self@.hashes_at(
                    locator_heights_from(at as nat, hashes@.len(), distance as nat),
                ) == target,
            decreases at,
        {
            let ghost height = at as nat;
            let ghost emitted = hashes@.len();
            let ghost before = hashes@;
            let ghost old_step = distance as nat;
            let block_hash = self.storage.block_hash(at).unwrap();
            hashes.push(block_hash);
            if hashes.len() >= DENSE_SAMPLES {
                distance = distance * 2;
            }
            proof {
                assert(distance == next_step(emitted + 1, old_step));
                assert(block_hash == self@.hash_at(height));
            }
            if (at as u64) < distance {
                if at != 0 {
                    hashes.push(self.genesis_block_hash);
                }
                proof {
                    let heights = locator_heights_from(height, emitted, old_step);
                    assert(self.genesis_block_hash == self@.hash_at(0));
                    assert(hashes@ =~= before + self@.hashes_at(heights));
                    assert(hashes@ == target);
                    assert(target == old(hashes)@ + self@.hashes_at(
                        locator_heights_from(index as nat, old(hashes)@.len(), step as nat),
                    ));
                }
                return ;
            }
            proof {
                let rest = locator_heights_from((height - distance) as nat, emitted + 1, distance as nat);
                assert(locator_heights_from(height, emitted, old_step) =~= seq![height] + rest);
                assert(self@.hashes_at(seq![height] + rest) =~= seq![block_hash] + self@.hashes_at(
                    rest,
                ));
                assert(hashes@ + self@.hashes_at(rest) =~= before + self@.hashes_at(
                    seq![height] + rest,
                ));
            }
            at = at - distance as u32;
        }
    }
}

} // verus!
