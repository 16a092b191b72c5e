//! A block store kept in memory: one chain of blocks, each on top of the one
//! before.

use crate::block::{BestBlock, Block, BlockRef, BlockView};
use crate::digest_map::DigestMap;
use crate::hash::H256;
use crate::hash_queue::{lemma_index_of_unique, lemma_push_to_set};
use crate::store::{Store, StoreError, StoreView};
use vstd::prelude::*;

verus! {

/// What inserting `block` gives in a memory store that holds `store`: a
/// known block changes nothing; a block on top of the tip, or the first block
/// of an empty store, is appended if the capacity allows; any other block is
/// refused.
pub open spec fn memory_insert(store: StoreView, block: BlockView) -> Result<
    StoreView,
    StoreError,
> {
    let hash = block.block_header.hash;
    if store.blocks.contains_key(hash) {
        Ok(store)
    } else if store.chain.len() >= store.capacity {
        Err(StoreError::NoSpace)
    } else if store.chain.len() > 0 && store.chain.last()
        != block.block_header.previous_header_hash {
        Err(StoreError::UnknownParent)
    } else {
        Ok(
            StoreView {
                chain: store.chain.push(hash),
                blocks: store.blocks.insert(hash, block),
                capacity: store.capacity,
            },
        )
    }
}

/// A block store kept in memory. Every block it knows is on its main chain.
#[derive(Debug)]
pub struct MemoryStore {
    blocks: Vec<Block>,
    heights: DigestMap<u32>,
    limit: u32,
}

/// The height of each digest of `hashes`.
pub open spec fn height_map(hashes: Seq<H256>) -> Map<H256, u32> {
    Map::new(|hash: H256| hashes.contains(hash), |hash: H256| hashes.index_of(hash) as u32)
}

/// A new digest on top is one more entry of the map of heights.
pub proof fn lemma_height_map_push(hashes: Seq<H256>, hash: H256)
    requires
        hashes.no_duplicates(),
        !hashes.contains(hash),
    ensures
        hashes.push(hash).no_duplicates(),
        height_map(hashes.push(hash)) =~= height_map(hashes).insert(hash, hashes.len() as u32),
{
    let all = hashes.push(hash);
    lemma_push_to_set(hashes, hash);
    assert forall|other: H256| all.contains(other) <==> hashes.contains(other) || other == hash by {
        assert(all.to_set().contains(other) == hashes.to_set().insert(hash).contains(other));
    }
    assert forall|other: H256| height_map(all).contains_key(other) implies height_map(all)[other]
        == height_map(hashes).insert(hash, hashes.len() as u32)[other] by {
        if other == hash {
            lemma_index_of_unique(all, hashes.len() as int);
        } else {
            let i = hashes.index_of(other);
            assert(all[i] == other);
            lemma_index_of_unique(all, i);
        }
    }
}

impl MemoryStore {
    /// Digests of the stored blocks, by height.
    pub closed spec fn hashes(&self) -> Seq<H256> {
        self.blocks@.map_values(|block: Block| block.block_header.hash)
    }

    /// A store without blocks, which takes as many blocks as heights can
    /// number.
    pub fn new() -> (r: MemoryStore)
        ensures
            r.inv(),
            r.model().capacity == u32::MAX,
            r.model().chain == Seq::<H256>::empty(),
            r.model().blocks == Map::<H256, BlockView>::empty(),
    {
        MemoryStore::with_limit(u32::MAX)
    }

    /// A store without blocks, which takes `limit` blocks at most.
    pub fn with_limit(limit: u32) -> (r: MemoryStore)
        ensures
            r.inv(),
            r.model().capacity == limit,
            r.model().chain == Seq::<H256>::empty(),
            r.model().blocks == Map::<H256, BlockView>::empty(),
    {
        let r = MemoryStore { blocks: Vec::new(), heights: DigestMap::new(), limit };
        assert(r.heights@ =~= height_map(r.hashes()));
        assert(r.model().chain =~= Seq::<H256>::empty());
        assert(r.model().blocks =~= Map::<H256, BlockView>::empty());
        r
    }

    /// A store that holds `genesis` at height zero and nothing else, and
    /// takes as many blocks as heights can number.
    pub fn with_genesis_block(genesis: Block) -> (r: MemoryStore)
        ensures
            r.inv(),
            r.model().capacity == u32::MAX,
            r.model().chain == seq![genesis.block_header.hash],
            r.model().blocks == Map::<H256, BlockView>::empty().insert(
                genesis.block_header.hash,
                genesis@,
            ),
    {
        let mut r = MemoryStore::new();
        let inserted = r.insert_block(&genesis);
        assert(inserted is Ok);
        assert(r.model().chain =~= seq![genesis.block_header.hash]);
        r
    }

    fn find(&self, hash: &H256) -> (r: Option<usize>)
        requires
            self.inv(),
        ensures
            r is Some == self.hashes().contains(*hash),
            r is Some ==> r->0 == self.hashes().index_of(*hash) && r->0 < self.blocks@.len(),
    {
        match self.heights.get(hash) {
            Some(height) => {
                assert(self.hashes().contains(*hash));
                Some(*height as usize)
            },
            None => None,
        }
    }
}

impl Store for MemoryStore {
    closed spec fn model(&self) -> StoreView {
        StoreView {
            chain: self.hashes(),
            blocks: Map::new(
                |hash: H256| self.hashes().contains(hash),
                |hash: H256| self.blocks@[self.hashes().index_of(hash)]@,
            ),
            capacity: self.limit as nat,
        }
    }

    closed spec fn inv(&self) -> bool {
        &&& self.hashes().no_duplicates()
        &&& self.blocks@.len() <= self.limit
        &&& self.heights.wf()
        &&& self.heights@ == height_map(self.hashes())
    }

    open spec fn may_insert(
        store: StoreView,
        block: BlockView,
        answer: Result<(), StoreError>,
        next: StoreView,
    ) -> bool {
        match memory_insert(store, block) {
            Ok(after) => answer is Ok && next == after,
            Err(error) => answer == Err::<(), StoreError>(error) && next == store,
        }
    }

    proof fn inv_implies_wf(&self) {
        let model = self.model();
        assert forall|i: int| 0 <= i < model.chain.len() implies model.blocks.contains_key(
            #[trigger] model.chain[i],
        ) by {
            assert(self.hashes().contains(self.hashes()[i]));
        }
        assert forall|h: H256| model.blocks.contains_key(h) implies (#[trigger] model.blocks[h]).block_header.hash
            == h by {
            let i = self.hashes().index_of(h);
            assert(self.hashes()[i] == h);
        }
    }

    fn best_block(&self) -> (r: Option<BestBlock>) {
        let len = self.blocks.len();
        if len == 0 {
            None
        } else {
            Some(BestBlock { number: (len - 1) as u32, hash: self.blocks[len - 1].block_header.hash })
        }
    }

    fn block_hash(&self, number: u32) -> (r: Option<H256>) {
        if (number as usize) < self.blocks.len() {
            Some(self.blocks[number as usize].block_header.hash)
        } else {
            None
        }
    }

    fn block_number(&self, hash: &H256) -> (r: Option<u32>) {
        match self.find(hash) {
            Some(i) => Some(i as u32),
            None => None,
        }
    }

    fn block(&self, block_ref: BlockRef) -> (r: Option<Block>) {
        match block_ref {
            BlockRef::Number(number) => {
                if (number as usize) < self.blocks.len() {
                    proof {
                        lemma_index_of_unique(self.hashes(), number as int);
                    }
                    Some(self.blocks[number as usize].clone())
                } else {
                    None
                }
            },
            BlockRef::Hash(hash) => {
                match self.find(&hash) {
                    Some(i) => Some(self.blocks[i].clone()),
                    None => None,
                }
            },
        }
    }

    fn contains_block(&self, block_ref: BlockRef) -> (r: bool) {
        match block_ref {
            BlockRef::Number(number) => (number as usize) < self.blocks.len(),
            BlockRef::Hash(hash) => self.find(&hash).is_some(),
        }
    }

    fn insert_block(&mut self, block: &Block) -> (r: Result<(), StoreError>) {
        let hash = block.block_header.hash;
        if self.find(&hash).is_some() {
            proof {
                let model = self.model();
                assert(model.blocks.dom() =~= model.blocks.dom().insert(hash));
            }
            return Ok(());
        }
        let len = self.blocks.len();
        if len >= self.limit as usize {
            return Err(StoreError::NoSpace);
        }
        if len > 0 && self.blocks[len - 1].block_header.hash
            != block.block_header.previous_header_hash {
            return Err(StoreError::UnknownParent);
        }
        self.blocks.push(block.clone());
        self.heights.insert(hash, len as u32);
        proof {
            let before = old(self).model();
            let after = self.model();
            assert(self.hashes() =~= old(self).hashes().push(hash));
            lemma_height_map_push(old(self).hashes(), hash);
            assert(after.blocks =~= before.blocks.insert(hash, block@)) by {
                assert forall|h: H256| after.blocks.contains_key(h) implies after.blocks[h]
                    == before.blocks.insert(hash, block@)[h] by {
                    let i = self.hashes().index_of(h);
                    assert(self.hashes()[i] == h);
                    if i < len {
                        lemma_index_of_unique(old(self).hashes(), i);
                    }
                }
            }
        }
        Ok(())
    }
}

} // verus!
