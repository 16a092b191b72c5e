use sync_chain::best_headers_chain::Information;
use sync_chain::{
    BestBlock, BestHeadersChain, Block, BlockHeader, BlockRef, HashPosition, HashQueue,
    HashQueueChain, MemoryStore, Store, StoreError, H256,
};

fn hash(n: u64) -> H256 {
    H256::new(n, !n, n.rotate_left(7), 42)
}

fn header(n: u64, previous: u64) -> BlockHeader {
    BlockHeader {
        hash: hash(n),
        previous_header_hash: hash(previous),
        version: 1,
        merkle_root_hash: H256::zero(),
        time: 0,
        nbits: 0,
        nonce: 0,
    }
}

fn block(n: u64, previous: u64) -> Block {
    Block { block_header: header(n, previous), transactions: vec![n as u8] }
}

#[test]
fn hash_from_byte() {
    assert_eq!(H256::from(0), H256::zero());
    assert_eq!(H256::from(1), H256::new(0x0100_0000_0000_0000, 0, 0, 0));
    assert_eq!(H256::from(255), H256::new(0xff00_0000_0000_0000, 0, 0, 0));
    assert_ne!(H256::new(1, 2, 3, 4), H256::new(1, 2, 3, 5));
}

#[test]
fn hash_queue_positions() {
    let mut queue = HashQueue::new();
    assert_eq!(queue.len(), 0);
    queue.push_back_n(vec![hash(1), hash(2), hash(3), hash(4)]);
    queue.push_back(hash(5));
    assert_eq!(queue.len(), 5);
    assert_eq!(queue.front(), Some(hash(1)));
    assert_eq!(queue.back(), Some(hash(5)));
    assert_eq!(queue.pre_back(), Some(hash(4)));
    assert_eq!(queue.at(2), Some(hash(3)));
    assert_eq!(queue.at(5), None);
    assert_eq!(queue.position(&hash(4)), Some(3));
    assert_eq!(queue.position(&hash(9)), None);
    assert!(queue.contains(&hash(3)));
    assert_eq!(queue.remove(&hash(9)), HashPosition::Missing);
    assert_eq!(queue.remove(&hash(3)), HashPosition::Inside(2));
    assert_eq!(queue.remove(&hash(5)), HashPosition::Back);
    assert_eq!(queue.remove(&hash(1)), HashPosition::Front);
    assert!(!queue.contains(&hash(3)));
    assert_eq!(queue.pop_front_n(5), vec![hash(2), hash(4)]);
    assert_eq!(queue.pop_front(), None);
    assert_eq!(queue.pop_back(), None);
    queue.push_back(hash(7));
    assert_eq!(queue.remove(&hash(7)), HashPosition::Front);
    queue.push_back_n(vec![hash(1), hash(2)]);
    assert_eq!(queue.pop_back(), Some(hash(2)));
    assert_eq!(queue.remove_all(), vec![hash(1)]);
    assert_eq!(queue.len(), 0);
}

#[test]
fn hash_queue_chain_reads_queues_as_one() {
    let mut chain = HashQueueChain::with_number_of_queues(3);
    assert_eq!(chain.number_of_queues(), 3);
    assert_eq!(chain.len(), 0);
    assert_eq!(chain.back(), None);
    assert_eq!(chain.at(0), None);
    chain.push_back_n_at(2, vec![hash(5), hash(6)]);
    chain.push_back_at(0, hash(1));
    chain.push_back_at(0, hash(2));
    chain.push_back_at(2, hash(1));
    assert_eq!(chain.len(), 5);
    assert_eq!(chain.len_of(0), 2);
    assert_eq!(chain.len_of(1), 0);
    assert_eq!(chain.len_of(2), 3);
    assert_eq!(chain.at(0), Some(hash(1)));
    assert_eq!(chain.at(2), Some(hash(5)));
    assert_eq!(chain.at(4), Some(hash(1)));
    assert_eq!(chain.at(5), None);
    assert_eq!(chain.back(), Some(hash(1)));
    assert_eq!(chain.front_at(2), Some(hash(5)));
    assert_eq!(chain.back_at(0), Some(hash(2)));
    assert_eq!(chain.pre_back_at(2), Some(hash(6)));
    assert_eq!(chain.pre_back_at(1), None);
    assert_eq!(chain.contains_in(&hash(1)), Some(0));
    assert_eq!(chain.contains_in(&hash(6)), Some(2));
    assert_eq!(chain.contains_in(&hash(9)), None);
    assert_eq!(chain.remove_at(1, &hash(1)), HashPosition::Missing);
    assert_eq!(chain.remove_at(0, &hash(1)), HashPosition::Front);
    assert_eq!(chain.contains_in(&hash(1)), Some(2));
    assert_eq!(chain.pop_front_n_at(2, 2), vec![hash(5), hash(6)]);
    assert_eq!(chain.remove_all_at(2), vec![hash(1)]);
    assert_eq!(chain.back(), Some(hash(2)));
    assert_eq!(chain.len(), 1);
}

#[test]
fn headers_chain_grows_on_its_tip() {
    let mut headers = BestHeadersChain::new(hash(0));
    assert_eq!(headers.information(), Information { best: 0, total: 0 });
    assert_eq!(headers.best_block_hash(), hash(0));
    headers.insert(header(1, 0));
    headers.insert_n(vec![header(2, 1), header(3, 2), header(30, 2)]);
    // a known header changes nothing
    headers.insert(header(2, 1));
    assert_eq!(headers.information(), Information { best: 3, total: 4 });
    assert_eq!(headers.best_block_hash(), hash(3));
    assert_eq!(headers.at(0), Some(header(1, 0)));
    assert_eq!(headers.at(2), Some(header(3, 2)));
    assert_eq!(headers.at(3), None);
    assert_eq!(headers.by_hash(&hash(30)), Some(header(30, 2)));
    assert_eq!(headers.by_hash(&hash(31)), None);
    assert_eq!(headers.height(&hash(2)), Some(1));
    assert_eq!(headers.height(&hash(30)), None);
    assert_eq!(headers.children(&hash(2)), vec![hash(3), hash(30)]);
    assert_eq!(headers.children(&hash(0)), vec![hash(1)]);
    assert_eq!(headers.children(&hash(3)), Vec::<H256>::new());
}

#[test]
fn headers_chain_remove_cuts_the_best_chain() {
    let mut headers = BestHeadersChain::new(hash(0));
    headers.insert_n(vec![header(1, 0), header(2, 1), header(3, 2), header(4, 3), header(20, 1)]);
    assert_eq!(headers.information(), Information { best: 4, total: 5 });
    // an unknown digest changes nothing
    headers.remove(&hash(9));
    assert_eq!(headers.information(), Information { best: 4, total: 5 });
    // a header off the best chain leaves alone
    headers.remove(&hash(20));
    assert_eq!(headers.information(), Information { best: 4, total: 4 });
    // a header of the best chain takes the headers above it along
    headers.remove(&hash(3));
    assert_eq!(headers.information(), Information { best: 2, total: 2 });
    assert_eq!(headers.by_hash(&hash(4)), None);
    assert_eq!(headers.best_block_hash(), hash(2));
    headers.remove_n(vec![hash(2), hash(1)]);
    assert_eq!(headers.information(), Information { best: 0, total: 0 });
    assert_eq!(headers.best_block_hash(), hash(0));
}

#[test]
fn headers_chain_learns_of_stored_blocks() {
    let mut headers = BestHeadersChain::new(hash(0));
    headers.insert_n(vec![header(1, 0), header(2, 1)]);
    // not the lowest header: only the store's tip changes
    headers.block_inserted_to_storage(&hash(2), &hash(7));
    assert_eq!(headers.information(), Information { best: 2, total: 2 });
    headers.block_inserted_to_storage(&hash(1), &hash(1));
    assert_eq!(headers.information(), Information { best: 1, total: 1 });
    assert_eq!(headers.height(&hash(2)), Some(0));
    headers.block_inserted_to_storage(&hash(2), &hash(2));
    assert_eq!(headers.information(), Information { best: 0, total: 0 });
    assert_eq!(headers.best_block_hash(), hash(2));
    headers.insert(header(3, 2));
    assert_eq!(headers.information(), Information { best: 1, total: 1 });
}

#[test]
fn memory_store_appends_on_its_tip() {
    let mut store = MemoryStore::new();
    assert_eq!(store.best_block(), None);
    assert_eq!(store.block_hash(0), None);
    assert_eq!(store.insert_block(&block(1, 0)), Ok(()));
    assert_eq!(store.insert_block(&block(2, 1)), Ok(()));
    assert_eq!(store.insert_block(&block(3, 1)), Err(StoreError::UnknownParent));
    assert_eq!(store.insert_block(&block(4, 9)), Err(StoreError::UnknownParent));
    // a known block is taken and changes nothing
    assert_eq!(store.insert_block(&block(1, 0)), Ok(()));
    assert_eq!(store.best_block(), Some(BestBlock { number: 1, hash: hash(2) }));
    assert_eq!(store.block_hash(0), Some(hash(1)));
    assert_eq!(store.block_hash(1), Some(hash(2)));
    assert_eq!(store.block_hash(2), None);
    assert_eq!(store.block_number(&hash(2)), Some(1));
    assert_eq!(store.block_number(&hash(3)), None);
    assert!(store.contains_block(BlockRef::Hash(hash(1))));
    assert!(!store.contains_block(BlockRef::Hash(hash(3))));
    assert!(store.contains_block(BlockRef::Number(1)));
    assert!(!store.contains_block(BlockRef::Number(2)));
    let found = store.block(BlockRef::Number(1)).expect("a block at height one");
    assert_eq!(found.block_header, header(2, 1));
    assert_eq!(found.transactions, vec![2u8]);
    let found = store.block(BlockRef::Hash(hash(1))).expect("the first block");
    assert_eq!(found.block_header, header(1, 0));
    assert!(store.block(BlockRef::Hash(hash(3))).is_none());
    assert!(store.block(BlockRef::Number(2)).is_none());
}

#[test]
fn memory_store_with_limit_runs_out_of_space() {
    let mut store = MemoryStore::with_limit(2);
    assert_eq!(store.insert_block(&block(1, 0)), Ok(()));
    assert_eq!(store.insert_block(&block(2, 1)), Ok(()));
    assert_eq!(store.insert_block(&block(3, 2)), Err(StoreError::NoSpace));
    assert_eq!(store.insert_block(&block(2, 1)), Ok(()));
    assert_eq!(store.best_block(), Some(BestBlock { number: 1, hash: hash(2) }));
    let store = MemoryStore::with_genesis_block(block(1, 0));
    assert_eq!(store.best_block(), Some(BestBlock { number: 0, hash: hash(1) }));
}

#[test]
fn hash_bytes_round_trip() {
    let mut bytes: [u8; 32] = [0; 32];
    for i in 0..32 {
        bytes[i] = (i as u8) * 7 + 1;
    }
    let digest = H256::from_bytes(&bytes);
    assert_eq!(digest.w0, 0x0108_0f16_1d24_2b32);
    assert_eq!(digest.to_bytes(), bytes);
    assert_eq!(H256::from(9).to_bytes()[0], 9);
    assert_eq!(H256::new(0, 0, 0, 0x0102).to_bytes()[30..32], [1u8, 2u8]);
    assert_eq!(H256::from_bytes(&H256::new(1, 2, 3, 4).to_bytes()), H256::new(1, 2, 3, 4));
}
