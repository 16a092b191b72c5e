use sync_chain::{
    BestBlock, Block, BlockHeader, BlockRef, BlockState, Chain, Edge, HashPosition,
    HeadersIntersection, Landmark, MemoryStore, Store, StoreError, H256,
};
use sync_chain::block::BlockView;
use sync_chain::store::StoreView;

fn digest(previous: &H256, nonce: u32) -> H256 {
    let seed: u64 = previous.w0 ^ previous.w1.rotate_left(17) ^ previous.w2.rotate_left(31)
        ^ previous.w3.rotate_left(47);
    let a: u64 = seed.wrapping_mul(0x9E37_79B9_7F4A_7C15).wrapping_add(nonce as u64 + 1);
    let b: u64 = a.rotate_left(23).wrapping_mul(0xC2B2_AE3D_27D4_EB4F);
    H256::new(a, b, a ^ b, a.wrapping_add(b))
}

fn header_on(previous: &H256, nonce: u32) -> BlockHeader {
    BlockHeader {
        hash: digest(previous, nonce),
        previous_header_hash: *previous,
        version: 1,
        merkle_root_hash: H256::zero(),
        time: 0,
        nbits: 0,
        nonce,
    }
}

fn block_of(header: BlockHeader) -> Block {
    Block { block_header: header, transactions: Vec::new() }
}

fn genesis() -> Block {
    block_of(header_on(&H256::zero(), 2083236893))
}

fn block_h1() -> Block {
    block_of(header_on(&genesis().hash(), 2573394689))
}

fn block_h2() -> Block {
    block_of(header_on(&block_h1().hash(), 1639830024))
}

fn build_n_empty_blocks_from(n: u32, start_nonce: u32, previous: &BlockHeader) -> Vec<Block> {
    let mut result: Vec<Block> = Vec::new();
    let mut previous_hash: H256 = previous.hash();
    for i in 0..n {
        let header = header_on(&previous_hash, start_nonce + i);
        previous_hash = header.hash();
        result.push(block_of(header));
    }
    result
}

fn build_n_empty_blocks_from_genesis(n: u32, start_nonce: u32) -> Vec<Block> {
    build_n_empty_blocks_from(n, start_nonce, &genesis().block_header)
}

fn build_n_empty_blocks(n: u32, start_nonce: u32) -> Vec<Block> {
    let root = BlockHeader {
        hash: H256::zero(),
        previous_header_hash: H256::zero(),
        version: 0,
        merkle_root_hash: H256::zero(),
        time: 0,
        nbits: 0,
        nonce: 0,
    };
    build_n_empty_blocks_from(n, start_nonce, &root)
}

fn new_chain() -> Chain<MemoryStore, ()> {
    Chain::new(MemoryStore::with_genesis_block(genesis()), ())
}

fn counters(chain: &Chain<MemoryStore, ()>) -> (u32, u32, u32, u32) {
    let information = chain.information();
    (information.scheduled, information.requested, information.verifying, information.stored)
}

#[test]
fn chain_empty() {
    let db = MemoryStore::with_genesis_block(genesis());
    let db_best_block = BestBlock {
        number: 0,
        hash: db.best_block().expect("storage with genesis block is required").hash,
    };
    let chain = Chain::new(db, ());
    assert_eq!(chain.information().scheduled, 0);
    assert_eq!(chain.information().requested, 0);
    assert_eq!(chain.information().verifying, 0);
    assert_eq!(chain.information().stored, 1);
    assert_eq!(chain.length_of_state(BlockState::Scheduled), 0);
    assert_eq!(chain.length_of_state(BlockState::Requested), 0);
    assert_eq!(chain.length_of_state(BlockState::Verifying), 0);
    assert_eq!(chain.length_of_state(BlockState::Stored), 1);
    assert_eq!(&chain.best_block(), &db_best_block);
    assert_eq!(chain.block_state(&db_best_block.hash), BlockState::Stored);
    assert_eq!(chain.block_state(&H256::from(0)), BlockState::Unknown);
}

#[test]
fn chain_block_path() {
    let mut chain = new_chain();

    // add 6 blocks to scheduled queue
    let blocks = build_n_empty_blocks_from_genesis(6, 0);
    let headers: Vec<_> = blocks.into_iter().map(|b| b.block_header).collect();
    let hashes: Vec<_> = headers.iter().map(|h| h.hash()).collect();
    chain.schedule_blocks_headers(hashes.clone(), headers);
    assert!(chain.information().scheduled == 6 && chain.information().requested == 0
        && chain.information().verifying == 0 && chain.information().stored == 1);

    // move 2 best blocks to requested queue
    chain.request_blocks_hashes(2);
    assert!(chain.information().scheduled == 4 && chain.information().requested == 2
        && chain.information().verifying == 0 && chain.information().stored == 1);
    // move 0 best blocks to requested queue
    chain.request_blocks_hashes(0);
    assert!(chain.information().scheduled == 4 && chain.information().requested == 2
        && chain.information().verifying == 0 && chain.information().stored == 1);
    // move 1 best blocks to requested queue
    chain.request_blocks_hashes(1);
    assert!(chain.information().scheduled == 3 && chain.information().requested == 3
        && chain.information().verifying == 0 && chain.information().stored == 1);

    // try to remove block 0 from scheduled queue => missing
    assert_eq!(chain.forget_with_state(&hashes[0], BlockState::Scheduled), HashPosition::Missing);
    assert!(chain.information().scheduled == 3 && chain.information().requested == 3
        && chain.information().verifying == 0 && chain.information().stored == 1);
    // remove blocks 0 & 1 from requested queue
    assert_eq!(chain.forget_with_state(&hashes[1], BlockState::Requested), HashPosition::Inside(1));
    assert_eq!(chain.forget_with_state(&hashes[0], BlockState::Requested), HashPosition::Front);
    assert!(chain.information().scheduled == 3 && chain.information().requested == 1
        && chain.information().verifying == 0 && chain.information().stored == 1);
    // mark 0 & 1 as verifying
    chain.verify_block(hashes[1].clone(), genesis().block_header);
    chain.verify_block(hashes[2].clone(), genesis().block_header);
    assert!(chain.information().scheduled == 3 && chain.information().requested == 1
        && chain.information().verifying == 2 && chain.information().stored == 1);

    // mark block 0 as verified
    assert_eq!(chain.forget_with_state(&hashes[1], BlockState::Verifying), HashPosition::Front);
    assert!(chain.information().scheduled == 3 && chain.information().requested == 1
        && chain.information().verifying == 1 && chain.information().stored == 1);
    // insert new best block to the chain
    chain.insert_best_block(block_h1().hash(), block_h1()).expect("Db error");
    assert!(chain.information().scheduled == 3 && chain.information().requested == 1
        && chain.information().verifying == 1 && chain.information().stored == 2);
    assert_eq!(
        chain.storage().best_block().expect("storage with genesis block is required").number,
        1
    );
}

#[test]
fn chain_block_locator_hashes() {
    let mut chain = new_chain();
    let genesis_hash = chain.best_block().hash;
    assert_eq!(chain.block_locator_hashes(), vec![genesis_hash.clone()]);

    let block1 = block_h1();
    let block1_hash = block1.hash();

    chain.insert_best_block(block1_hash.clone(), block1).expect("Error inserting new block");
    assert_eq!(chain.block_locator_hashes(), vec![block1_hash.clone(), genesis_hash.clone()]);

    let block2 = block_h2();
    let block2_hash = block2.hash();

    chain.insert_best_block(block2_hash.clone(), block2).expect("Error inserting new block");
    assert_eq!(
        chain.block_locator_hashes(),
        vec![block2_hash.clone(), block1_hash.clone(), genesis_hash.clone()]
    );

    let blocks0 = build_n_empty_blocks_from_genesis(11, 0);
    let headers0: Vec<_> = blocks0.into_iter().map(|b| b.block_header).collect();
    let hashes0: Vec<_> = headers0.iter().map(|h| h.hash()).collect();
    chain.schedule_blocks_headers(hashes0.clone(), headers0.clone());
    chain.request_blocks_hashes(10);
    chain.verify_blocks_hashes(10);

    assert_eq!(chain.block_locator_hashes(), vec![
        hashes0[10].clone(),
        hashes0[9].clone(),
        hashes0[8].clone(),
        hashes0[7].clone(),
        hashes0[6].clone(),
        hashes0[5].clone(),
        hashes0[4].clone(),
        hashes0[3].clone(),
        hashes0[2].clone(),
        hashes0[1].clone(),
        block2_hash.clone(),
        genesis_hash.clone(),
    ]);

    let blocks1 = build_n_empty_blocks_from(6, 0, &headers0[10]);
    let headers1: Vec<_> = blocks1.into_iter().map(|b| b.block_header).collect();
    let hashes1: Vec<_> = headers1.iter().map(|h| h.hash()).collect();
    chain.schedule_blocks_headers(hashes1.clone(), headers1.clone());
    chain.request_blocks_hashes(10);

    assert_eq!(chain.block_locator_hashes(), vec![
        hashes1[5].clone(),
        hashes1[4].clone(),
        hashes1[3].clone(),
        hashes1[2].clone(),
        hashes1[1].clone(),
        hashes1[0].clone(),
        hashes0[10].clone(),
        hashes0[9].clone(),
        hashes0[8].clone(),
        hashes0[7].clone(),
        hashes0[5].clone(),
        hashes0[1].clone(),
        genesis_hash.clone(),
    ]);

    let blocks2 = build_n_empty_blocks_from(3, 0, &headers1[5]);
    let headers2: Vec<_> = blocks2.into_iter().map(|b| b.block_header).collect();
    let hashes2: Vec<_> = headers2.iter().map(|h| h.hash()).collect();
    chain.schedule_blocks_headers(hashes2.clone(), headers2);

    assert_eq!(chain.block_locator_hashes(), vec![
        hashes2[2].clone(),
        hashes2[1].clone(),
        hashes2[0].clone(),
        hashes1[5].clone(),
        hashes1[4].clone(),
        hashes1[3].clone(),
        hashes1[2].clone(),
        hashes1[1].clone(),
        hashes1[0].clone(),
        hashes0[10].clone(),
        hashes0[8].clone(),
        hashes0[4].clone(),
        genesis_hash.clone(),
    ]);
}

#[test]
fn chain_intersect_with_inventory() {
    let mut chain = new_chain();
    // append 2 db blocks
    chain.insert_best_block(block_h1().hash(), block_h1()).expect("Error inserting new block");
    chain.insert_best_block(block_h2().hash(), block_h2()).expect("Error inserting new block");

    // prepare blocks
    let blocks0 = build_n_empty_blocks_from(9, 0, &block_h2().block_header);
    let headers0: Vec<_> = blocks0.into_iter().map(|b| b.block_header).collect();
    let hashes0: Vec<_> = headers0.iter().map(|h| h.hash()).collect();
    // append 3 verifying blocks, 3 requested blocks && 3 scheduled blocks
    chain.schedule_blocks_headers(hashes0.clone(), headers0.clone());
    chain.request_blocks_hashes(6);
    chain.verify_blocks_hashes(3);

    let blocks1 = build_n_empty_blocks(2, 0);
    let headers1: Vec<_> = blocks1.into_iter().map(|b| b.block_header).collect();
    let hashes1: Vec<_> = headers1.iter().map(|h| h.hash()).collect();
    assert_eq!(
        chain.intersect_with_headers(&hashes1, &headers1),
        HeadersIntersection::NoKnownBlocks(0)
    );

    assert_eq!(chain.intersect_with_headers(&vec![
        hashes0[2].clone(),
        hashes0[3].clone(),
        hashes0[4].clone(),
        hashes0[5].clone(),
        hashes0[6].clone(),
    ], &vec![
        headers0[2].clone(),
        headers0[3].clone(),
        headers0[4].clone(),
        headers0[5].clone(),
        headers0[6].clone(),
    ]), HeadersIntersection::InMemoryNoNewBlocks);

    assert_eq!(chain.intersect_with_headers(&vec![
        hashes0[7].clone(),
        hashes0[8].clone(),
        hashes1[0].clone(),
        hashes1[1].clone(),
    ], &vec![
        headers0[7].clone(),
        headers0[8].clone(),
        headers1[0].clone(),
        headers1[1].clone(),
    ]), HeadersIntersection::InMemoryMainNewBlocks(2));

    assert_eq!(chain.intersect_with_headers(&vec![
        hashes0[6].clone(),
        hashes0[7].clone(),
        hashes1[0].clone(),
        hashes1[1].clone(),
    ], &vec![
        headers0[6].clone(),
        headers0[7].clone(),
        headers1[0].clone(),
        headers1[1].clone(),
    ]), HeadersIntersection::InMemoryForkNewBlocks(2));

    assert_eq!(chain.intersect_with_headers(&vec![
        block_h1().hash(),
        block_h2().hash(),
    ], &vec![
        block_h1().block_header,
        block_h2().block_header,
    ]), HeadersIntersection::DbAllBlocksKnown);

    assert_eq!(chain.intersect_with_headers(&vec![
        block_h2().hash(),
        hashes1[0].clone(),
    ], &vec![
        block_h2().block_header,
        headers1[0].clone(),
    ]), HeadersIntersection::DbForkNewBlocks(1));
}

#[test]
fn empty_chain_locator_is_genesis() {
    let chain = new_chain();
    assert_eq!(counters(&chain), (0, 0, 0, 1));
    assert_eq!(chain.best_block().hash, genesis().hash());
    assert_eq!(chain.best_storage_block(), BestBlock { number: 0, hash: genesis().hash() });
    assert_eq!(chain.block_locator_hashes(), vec![genesis().hash()]);
}

#[test]
fn intersect_with_unknown_blocks_on_known_parent() {
    let mut chain = new_chain();
    chain.insert_best_block(block_h1().hash(), block_h1()).expect("store takes the block");
    let queued = build_n_empty_blocks_from(3, 0, &block_h1().block_header);
    let headers: Vec<BlockHeader> = queued.iter().map(|b| b.block_header).collect();
    let hashes: Vec<H256> = headers.iter().map(|h| h.hash()).collect();
    chain.schedule_blocks_headers(hashes.clone(), headers.clone());

    // unknown blocks on top of the stored tip
    let on_stored = build_n_empty_blocks_from(2, 100, &block_h1().block_header);
    let on_stored_headers: Vec<BlockHeader> = on_stored.iter().map(|b| b.block_header).collect();
    let on_stored_hashes: Vec<H256> = on_stored_headers.iter().map(|h| h.hash()).collect();
    assert_eq!(
        chain.intersect_with_headers(&on_stored_hashes, &on_stored_headers),
        HeadersIntersection::DbForkNewBlocks(0)
    );

    // unknown blocks on top of the best block
    let on_best = build_n_empty_blocks_from(2, 200, &headers[2]);
    let on_best_headers: Vec<BlockHeader> = on_best.iter().map(|b| b.block_header).collect();
    let on_best_hashes: Vec<H256> = on_best_headers.iter().map(|h| h.hash()).collect();
    assert_eq!(
        chain.intersect_with_headers(&on_best_hashes, &on_best_headers),
        HeadersIntersection::InMemoryMainNewBlocks(0)
    );

    // unknown blocks on top of a queued block that is not the best one
    let on_fork = build_n_empty_blocks_from(2, 300, &headers[0]);
    let on_fork_headers: Vec<BlockHeader> = on_fork.iter().map(|b| b.block_header).collect();
    let on_fork_hashes: Vec<H256> = on_fork_headers.iter().map(|h| h.hash()).collect();
    assert_eq!(
        chain.intersect_with_headers(&on_fork_hashes, &on_fork_headers),
        HeadersIntersection::InMemoryForkNewBlocks(0)
    );

    // a single unknown block whose parent is unknown too
    let lonely = build_n_empty_blocks(1, 7);
    assert_eq!(
        chain.intersect_with_headers(&vec![lonely[0].hash()], &vec![lonely[0].block_header]),
        HeadersIntersection::NoKnownBlocks(0)
    );
}

#[test]
fn block_state_follows_the_block() {
    let mut chain = new_chain();
    let blocks = build_n_empty_blocks_from_genesis(3, 0);
    let headers: Vec<BlockHeader> = blocks.iter().map(|b| b.block_header).collect();
    let hashes: Vec<H256> = headers.iter().map(|h| h.hash()).collect();
    assert_eq!(chain.block_state(&hashes[0]), BlockState::Unknown);
    chain.schedule_blocks_headers(hashes.clone(), headers.clone());
    assert_eq!(chain.block_state(&hashes[0]), BlockState::Scheduled);
    assert_eq!(chain.request_blocks_hashes(1), vec![hashes[0]]);
    assert_eq!(chain.block_state(&hashes[0]), BlockState::Requested);
    assert_eq!(chain.block_state(&hashes[1]), BlockState::Scheduled);
    assert_eq!(chain.verify_blocks_hashes(1), vec![hashes[0]]);
    assert_eq!(chain.block_state(&hashes[0]), BlockState::Verifying);
    assert_eq!(chain.forget(&hashes[0]), HashPosition::Front);
    assert_eq!(chain.block_state(&hashes[0]), BlockState::Unknown);
    chain.insert_best_block(hashes[0], block_of(headers[0])).expect("store takes the block");
    assert_eq!(chain.block_state(&hashes[0]), BlockState::Stored);
    // asking twice gives the same answer
    assert_eq!(chain.block_state(&hashes[0]), chain.block_state(&hashes[0]));
    assert_eq!(chain.information(), chain.information());
}

#[test]
fn a_block_in_two_queues_is_in_the_state_of_the_first() {
    let mut chain = new_chain();
    let blocks = build_n_empty_blocks_from_genesis(1, 0);
    let header = blocks[0].block_header;
    chain.schedule_blocks_headers(vec![header.hash()], vec![header]);
    chain.verify_block(header.hash(), header);
    assert_eq!(chain.block_state(&header.hash()), BlockState::Verifying);
    assert_eq!(counters(&chain), (1, 0, 1, 1));
    assert_eq!(chain.forget_leave_header(&header.hash()), HashPosition::Front);
    assert_eq!(chain.block_state(&header.hash()), BlockState::Scheduled);
    assert_eq!(chain.block_header_by_hash(&header.hash()), Some(header));
}

#[test]
fn stored_count_is_tip_height_plus_one() {
    let mut chain = new_chain();
    assert_eq!(chain.information().stored, chain.best_storage_block().number + 1);
    chain.insert_best_block(block_h1().hash(), block_h1()).expect("store takes the block");
    assert_eq!(chain.information().stored, 2);
    assert_eq!(chain.information().stored, chain.best_storage_block().number + 1);
    chain.insert_best_block(block_h2().hash(), block_h2()).expect("store takes the block");
    assert_eq!(chain.information().stored, 3);
    assert_eq!(chain.best_storage_block(), BestBlock { number: 2, hash: block_h2().hash() });
    assert_eq!(chain.length_of_state(BlockState::Stored), 3);
}

#[test]
fn best_block_stands_above_the_store_by_the_queued_blocks() {
    let mut chain = new_chain();
    chain.insert_best_block(block_h1().hash(), block_h1()).expect("store takes the block");
    let blocks = build_n_empty_blocks_from(5, 0, &block_h1().block_header);
    let headers: Vec<BlockHeader> = blocks.iter().map(|b| b.block_header).collect();
    let hashes: Vec<H256> = headers.iter().map(|h| h.hash()).collect();
    chain.schedule_blocks_headers(hashes.clone(), headers);
    chain.request_blocks_hashes(3);
    chain.verify_blocks_hashes(1);
    let information = chain.information();
    assert_eq!((information.scheduled, information.requested, information.verifying), (2, 2, 1));
    assert_eq!(chain.best_block(), BestBlock { number: 6, hash: hashes[4] });
    assert_eq!(
        chain.best_block().number - chain.best_storage_block().number,
        information.scheduled + information.requested + information.verifying
    );
}

#[test]
fn round_trip_restores_the_counters() {
    let mut chain = new_chain();
    let before = chain.information();
    let blocks = build_n_empty_blocks_from_genesis(4, 0);
    let headers: Vec<BlockHeader> = blocks.iter().map(|b| b.block_header).collect();
    let hashes: Vec<H256> = headers.iter().map(|h| h.hash()).collect();
    chain.schedule_blocks_headers(hashes.clone(), headers);
    assert_eq!(chain.request_blocks_hashes(4), hashes);
    assert_eq!(chain.verify_blocks_hashes(4), hashes);
    assert_eq!(counters(&chain), (0, 0, 4, 1));
    for hash in hashes.iter() {
        assert_eq!(chain.forget_with_state(hash, BlockState::Verifying), HashPosition::Front);
    }
    assert_eq!(chain.information(), before);
}

#[test]
fn two_tier_lookups() {
    let mut chain = new_chain();
    chain.insert_best_block(block_h1().hash(), block_h1()).expect("store takes the block");
    let blocks = build_n_empty_blocks_from(3, 0, &block_h1().block_header);
    let headers: Vec<BlockHeader> = blocks.iter().map(|b| b.block_header).collect();
    let hashes: Vec<H256> = headers.iter().map(|h| h.hash()).collect();
    chain.schedule_blocks_headers(hashes.clone(), headers.clone());

    assert_eq!(chain.block_hash(0), Some(genesis().hash()));
    assert_eq!(chain.block_hash(1), Some(block_h1().hash()));
    assert_eq!(chain.block_hash(2), Some(hashes[0]));
    assert_eq!(chain.block_hash(4), Some(hashes[2]));
    assert_eq!(chain.block_hash(5), None);

    assert_eq!(chain.block_number(&genesis().hash()), Some(0));
    assert_eq!(chain.block_number(&block_h1().hash()), Some(1));
    assert_eq!(chain.block_number(&hashes[0]), Some(2));
    assert_eq!(chain.block_number(&hashes[2]), Some(4));
    assert_eq!(chain.block_number(&H256::from(9)), None);

    assert_eq!(chain.block_header_by_number(1), Some(block_h1().block_header));
    assert_eq!(chain.block_header_by_number(3), Some(headers[1]));
    assert_eq!(chain.block_header_by_number(5), None);
    assert_eq!(chain.block_header_by_hash(&block_h1().hash()), Some(block_h1().block_header));
    assert_eq!(chain.block_header_by_hash(&hashes[2]), Some(headers[2]));
    assert_eq!(chain.block_header_by_hash(&H256::from(9)), None);
    assert!(chain.storage().contains_block(BlockRef::Number(1)));
    assert!(!chain.storage().contains_block(BlockRef::Number(2)));
}

#[test]
fn forget_searches_verifying_then_requested_then_scheduled() {
    let mut chain = new_chain();
    let blocks = build_n_empty_blocks_from_genesis(6, 0);
    let headers: Vec<BlockHeader> = blocks.iter().map(|b| b.block_header).collect();
    let hashes: Vec<H256> = headers.iter().map(|h| h.hash()).collect();
    chain.schedule_blocks_headers(hashes.clone(), headers);
    chain.request_blocks_hashes(4);
    chain.verify_blocks_hashes(2);
    // verifying: 0 1; requested: 2 3; scheduled: 4 5
    assert_eq!(chain.forget(&hashes[1]), HashPosition::Back);
    assert_eq!(chain.forget(&hashes[2]), HashPosition::Front);
    assert_eq!(chain.forget(&hashes[5]), HashPosition::Back);
    assert_eq!(chain.forget(&hashes[5]), HashPosition::Missing);
    assert_eq!(counters(&chain), (1, 1, 1, 1));
    assert_eq!(chain.information().headers.total, 1);
    assert_eq!(chain.information().headers.best, 1);
}

#[test]
fn forget_leave_header_keeps_the_header() {
    let mut chain = new_chain();
    let blocks = build_n_empty_blocks_from_genesis(2, 0);
    let headers: Vec<BlockHeader> = blocks.iter().map(|b| b.block_header).collect();
    let hashes: Vec<H256> = headers.iter().map(|h| h.hash()).collect();
    chain.schedule_blocks_headers(hashes.clone(), headers.clone());
    assert_eq!(chain.forget_leave_header(&hashes[1]), HashPosition::Back);
    assert_eq!(
        chain.forget_with_state_leave_header(&hashes[0], BlockState::Requested),
        HashPosition::Missing
    );
    assert_eq!(
        chain.forget_with_state_leave_header(&hashes[0], BlockState::Scheduled),
        HashPosition::Front
    );
    assert_eq!(counters(&chain), (0, 0, 0, 1));
    assert_eq!(chain.information().headers.total, 2);
    assert_eq!(chain.block_header_by_hash(&hashes[1]), Some(headers[1]));
}

#[test]
fn forget_all_with_state_empties_one_queue() {
    let mut chain = new_chain();
    let blocks = build_n_empty_blocks_from_genesis(5, 0);
    let headers: Vec<BlockHeader> = blocks.iter().map(|b| b.block_header).collect();
    let hashes: Vec<H256> = headers.iter().map(|h| h.hash()).collect();
    chain.schedule_blocks_headers(hashes.clone(), headers);
    chain.request_blocks_hashes(2);
    chain.forget_all_with_state(BlockState::Scheduled);
    assert_eq!(counters(&chain), (0, 2, 0, 1));
    assert_eq!(chain.information().headers.total, 2);
    chain.forget_all_with_state(BlockState::Requested);
    assert_eq!(counters(&chain), (0, 0, 0, 1));
    assert_eq!(chain.information().headers.total, 0);
}

#[test]
fn forget_with_children_forgets_the_descendants() {
    let mut chain = new_chain();
    let root = header_on(&genesis().hash(), 1);
    let a = header_on(&root.hash(), 2);
    let b = header_on(&root.hash(), 3);
    let c = header_on(&a.hash(), 4);
    let other = header_on(&genesis().hash(), 5);
    let headers = vec![root, a, b, c, other];
    let hashes: Vec<H256> = headers.iter().map(|h| h.hash()).collect();
    chain.schedule_blocks_headers(hashes.clone(), headers);
    assert_eq!(chain.information().headers.total, 5);
    chain.forget_with_children(&root.hash());
    assert_eq!(counters(&chain), (1, 0, 0, 1));
    assert_eq!(chain.information().headers.total, 1);
    assert_eq!(chain.block_state(&root.hash()), BlockState::Unknown);
    assert_eq!(chain.block_state(&a.hash()), BlockState::Unknown);
    assert_eq!(chain.block_state(&b.hash()), BlockState::Unknown);
    assert_eq!(chain.block_state(&c.hash()), BlockState::Unknown);
    assert_eq!(chain.block_state(&other.hash()), BlockState::Scheduled);
    assert_eq!(chain.block_header_by_hash(&c.hash()), None);
    assert_eq!(chain.block_header_by_hash(&other.hash()), Some(other));
}

#[test]
fn descendants_come_breadth_first() {
    let mut chain = new_chain();
    let root = header_on(&genesis().hash(), 1);
    let a = header_on(&root.hash(), 2);
    let b = header_on(&root.hash(), 3);
    let c = header_on(&a.hash(), 4);
    let d = header_on(&b.hash(), 5);
    let headers = vec![root, a, b, c, d];
    let hashes: Vec<H256> = headers.iter().map(|h| h.hash()).collect();
    chain.schedule_blocks_headers(hashes, headers);
    assert_eq!(
        chain.descendants(&root.hash()),
        vec![root.hash(), a.hash(), b.hash(), c.hash(), d.hash()]
    );
    assert_eq!(chain.descendants(&a.hash()), vec![a.hash(), c.hash()]);
    assert_eq!(chain.descendants(&d.hash()), vec![d.hash()]);
    assert_eq!(chain.descendants(&H256::from(1)), vec![H256::from(1)]);
    // the header of a forgotten block leaves the best chain with the ones above it
    assert_eq!(chain.forget(&a.hash()), HashPosition::Inside(1));
    assert_eq!(chain.information().headers.total, 3);
    assert_eq!(chain.block_header_by_hash(&c.hash()), None);
    assert_eq!(chain.information().headers.best, 1);
    assert_eq!(chain.descendants(&root.hash()), vec![root.hash(), b.hash(), d.hash()]);
}

#[test]
fn forget_with_children_ends_on_headers_that_name_each_other() {
    let mut chain = new_chain();
    let one_hash = H256::new(1, 1, 1, 1);
    let two_hash = H256::new(2, 2, 2, 2);
    let mut one = header_on(&two_hash, 0);
    one.hash = one_hash;
    let mut two = header_on(&one_hash, 0);
    two.hash = two_hash;
    chain.schedule_blocks_headers(vec![one_hash, two_hash], vec![one, two]);
    chain.forget_with_children(&one_hash);
    assert_eq!(counters(&chain), (0, 0, 0, 1));
    assert_eq!(chain.information().headers.total, 0);
}

#[test]
fn refused_block_changes_nothing() {
    let mut chain = new_chain();
    let blocks = build_n_empty_blocks_from_genesis(3, 0);
    let headers: Vec<BlockHeader> = blocks.iter().map(|b| b.block_header).collect();
    let hashes: Vec<H256> = headers.iter().map(|h| h.hash()).collect();
    chain.schedule_blocks_headers(hashes.clone(), headers);
    chain.request_blocks_hashes(1);
    let information = chain.information();
    let best = chain.best_block();
    let locator = chain.block_locator_hashes();

    // block_h2 does not stand on the genesis block
    assert_eq!(
        chain.insert_best_block(block_h2().hash(), block_h2()),
        Err(StoreError::UnknownParent)
    );
    assert_eq!(chain.information(), information);
    assert_eq!(chain.best_block(), best);
    assert_eq!(chain.best_storage_block(), BestBlock { number: 0, hash: genesis().hash() });
    assert_eq!(chain.block_locator_hashes(), locator);
    assert_eq!(chain.block_state(&block_h2().hash()), BlockState::Unknown);
    assert_eq!(chain.block_header_by_hash(&hashes[0]).map(|h| h.hash()), Some(hashes[0]));
}

#[test]
fn full_store_refuses_the_block() {
    let mut store = MemoryStore::with_limit(1);
    store.insert_block(&genesis()).expect("an empty store takes any block");
    let mut chain: Chain<MemoryStore, ()> = Chain::new(store, ());
    assert_eq!(chain.insert_best_block(block_h1().hash(), block_h1()), Err(StoreError::NoSpace));
    assert_eq!(counters(&chain), (0, 0, 0, 1));
    // a block that the store holds is taken again
    assert_eq!(chain.insert_best_block(genesis().hash(), genesis()), Ok(()));
    assert_eq!(counters(&chain), (0, 0, 0, 1));
}

#[test]
fn stored_block_leaves_the_headers_chain() {
    let mut chain = new_chain();
    let blocks = build_n_empty_blocks_from_genesis(3, 0);
    let headers: Vec<BlockHeader> = blocks.iter().map(|b| b.block_header).collect();
    let hashes: Vec<H256> = headers.iter().map(|h| h.hash()).collect();
    chain.schedule_blocks_headers(hashes.clone(), headers.clone());
    assert_eq!(chain.information().headers.best, 3);
    assert_eq!(chain.block_number(&hashes[1]), Some(2));
    assert_eq!(chain.forget_with_state_leave_header(&hashes[0], BlockState::Scheduled), HashPosition::Front);
    chain.insert_best_block(hashes[0], block_of(headers[0])).expect("store takes the block");
    assert_eq!(chain.information().headers.best, 2);
    assert_eq!(chain.information().headers.total, 2);
    assert_eq!(chain.block_number(&hashes[0]), Some(1));
    assert_eq!(chain.block_number(&hashes[1]), Some(2));
    assert_eq!(chain.block_header_by_number(2), Some(headers[1]));
    assert_eq!(chain.block_hash(2), Some(hashes[1]));
}

#[test]
fn memory_pool_is_handed_out() {
    let mut chain: Chain<MemoryStore, Vec<u8>> =
        Chain::new(MemoryStore::with_genesis_block(genesis()), vec![1, 2]);
    assert_eq!(chain.memory_pool(), &vec![1u8, 2u8]);
    chain.memory_pool_mut().push(3);
    assert_eq!(chain.memory_pool(), &vec![1u8, 2u8, 3u8]);
    assert_eq!(chain.information().stored, 1);
}

#[test]
fn locator_on_a_long_store() {
    let mut chain = new_chain();
    let blocks = build_n_empty_blocks_from_genesis(39, 0);
    let mut hashes: Vec<H256> = vec![genesis().hash()];
    for block in blocks.iter() {
        chain.insert_best_block(block.hash(), block.clone()).expect("store takes the block");
        hashes.push(block.hash());
    }
    let heights: Vec<usize> = vec![39, 38, 37, 36, 35, 34, 33, 32, 31, 30, 28, 24, 16, 0];
    let expected: Vec<H256> = heights.iter().map(|h| hashes[*h]).collect();
    assert_eq!(chain.block_locator_hashes(), expected);
    assert_eq!(chain.block_locator_hashes()[0], chain.best_block().hash);
}

#[test]
fn locator_gaps_double_after_ten_samples() {
    let mut chain = new_chain();
    let stored = build_n_empty_blocks_from_genesis(20, 0);
    let mut hashes: Vec<H256> = vec![genesis().hash()];
    for block in stored.iter() {
        chain.insert_best_block(block.hash(), block.clone()).expect("store takes the block");
        hashes.push(block.hash());
    }
    let queued = build_n_empty_blocks_from(80, 1000, &stored[19].block_header);
    let headers: Vec<BlockHeader> = queued.iter().map(|b| b.block_header).collect();
    let queued_hashes: Vec<H256> = headers.iter().map(|h| h.hash()).collect();
    hashes.extend(queued_hashes.iter().cloned());
    chain.schedule_blocks_headers(queued_hashes, headers);
    chain.request_blocks_hashes(30);
    chain.verify_blocks_hashes(7);

    let locator = chain.block_locator_hashes();
    let heights: Vec<usize> = locator
        .iter()
        .map(|hash| hashes.iter().position(|h| h == hash).expect("a hash of the chain"))
        .collect();
    assert_eq!(heights, vec![100, 99, 98, 97, 96, 95, 94, 93, 92, 91, 89, 85, 77, 61, 29, 0]);
    assert_eq!(locator[0], chain.best_block().hash);
    assert_eq!(locator[locator.len() - 1], genesis().hash());
    let gaps: Vec<usize> = heights.windows(2).map(|pair| pair[0] - pair[1]).collect();
    assert_eq!(gaps, vec![1, 1, 1, 1, 1, 1, 1, 1, 1, 2, 4, 8, 16, 32, 29]);
}

#[test]
fn block_state_queue_indexes() {
    assert_eq!(BlockState::from_queue_index(0), BlockState::Verifying);
    assert_eq!(BlockState::from_queue_index(1), BlockState::Requested);
    assert_eq!(BlockState::from_queue_index(2), BlockState::Scheduled);
    assert_eq!(BlockState::Verifying.to_queue_index(), 0);
    assert_eq!(BlockState::Requested.to_queue_index(), 1);
    assert_eq!(BlockState::Scheduled.to_queue_index(), 2);
}

#[test]
fn landmarks_mark_the_ends_of_each_stage() {
    let mut chain = new_chain();
    chain.insert_best_block(block_h1().hash(), block_h1()).expect("store takes the block");
    assert_eq!(chain.landmarks(), vec![
        Landmark { edge: Edge::Worst, state: BlockState::Stored, number: 0, hash: genesis().hash() },
        Landmark { edge: Edge::Best, state: BlockState::Stored, number: 1, hash: block_h1().hash() },
    ]);
    let blocks = build_n_empty_blocks_from(6, 0, &block_h1().block_header);
    let headers: Vec<BlockHeader> = blocks.iter().map(|b| b.block_header).collect();
    let hashes: Vec<H256> = headers.iter().map(|h| h.hash()).collect();
    chain.schedule_blocks_headers(hashes.clone(), headers);
    chain.request_blocks_hashes(3);
    chain.verify_blocks_hashes(1);
    // verifying: 0; requested: 1 2; scheduled: 3 4 5
    assert_eq!(chain.landmarks(), vec![
        Landmark { edge: Edge::Worst, state: BlockState::Stored, number: 0, hash: genesis().hash() },
        Landmark { edge: Edge::Best, state: BlockState::Stored, number: 1, hash: block_h1().hash() },
        Landmark { edge: Edge::Worst, state: BlockState::Verifying, number: 2, hash: hashes[0] },
        Landmark { edge: Edge::Best, state: BlockState::Verifying, number: 2, hash: hashes[0] },
        Landmark { edge: Edge::Worst, state: BlockState::Requested, number: 3, hash: hashes[1] },
        Landmark { edge: Edge::PreBest, state: BlockState::Requested, number: 3, hash: hashes[1] },
        Landmark { edge: Edge::Best, state: BlockState::Requested, number: 4, hash: hashes[2] },
        Landmark { edge: Edge::Worst, state: BlockState::Scheduled, number: 5, hash: hashes[3] },
        Landmark { edge: Edge::PreBest, state: BlockState::Scheduled, number: 6, hash: hashes[4] },
        Landmark { edge: Edge::Best, state: BlockState::Scheduled, number: 7, hash: hashes[5] },
    ]);
}

struct BrokenStore {
    inner: MemoryStore,
}

impl Store for BrokenStore {
    fn model(&self) -> StoreView {
        unreachable!("only proofs speak of the model")
    }

    fn inv(&self) -> bool {
        unreachable!("only proofs speak of the invariant")
    }

    fn may_insert(
        _store: StoreView,
        _block: BlockView,
        _answer: Result<(), StoreError>,
        _next: StoreView,
    ) -> bool {
        unreachable!("only proofs speak of the answers")
    }

    fn inv_implies_wf(&self) {}

    fn best_block(&self) -> Option<BestBlock> {
        self.inner.best_block()
    }

    fn block_hash(&self, number: u32) -> Option<H256> {
        self.inner.block_hash(number)
    }

    fn block_number(&self, hash: &H256) -> Option<u32> {
        self.inner.block_number(hash)
    }

    fn block(&self, block_ref: BlockRef) -> Option<Block> {
        self.inner.block(block_ref)
    }

    fn contains_block(&self, block_ref: BlockRef) -> bool {
        self.inner.contains_block(block_ref)
    }

    fn insert_block(&mut self, _block: &Block) -> Result<(), StoreError> {
        Err(StoreError::Database)
    }
}

#[test]
fn failing_store_leaves_the_chain_as_it_was() {
    let store = BrokenStore { inner: MemoryStore::with_genesis_block(genesis()) };
    let mut chain: Chain<BrokenStore, ()> = Chain::new(store, ());
    let blocks = build_n_empty_blocks_from_genesis(2, 0);
    let headers: Vec<BlockHeader> = blocks.iter().map(|b| b.block_header).collect();
    let hashes: Vec<H256> = headers.iter().map(|h| h.hash()).collect();
    chain.schedule_blocks_headers(hashes.clone(), headers.clone());
    let information = chain.information();
    assert_eq!(
        chain.insert_best_block(hashes[0], block_of(headers[0])),
        Err(StoreError::Database)
    );
    assert_eq!(chain.information(), information);
    assert_eq!(chain.best_storage_block(), BestBlock { number: 0, hash: genesis().hash() });
    assert_eq!(chain.block_state(&hashes[0]), BlockState::Scheduled);
    assert_eq!(chain.block_number(&hashes[0]), Some(1));
}

#[test]
fn locator_thins_out_inside_the_store_when_few_blocks_are_queued() {
    let mut chain = new_chain();
    let stored = build_n_empty_blocks_from_genesis(29, 0);
    let mut hashes: Vec<H256> = vec![genesis().hash()];
    for block in stored.iter() {
        chain.insert_best_block(block.hash(), block.clone()).expect("store takes the block");
        hashes.push(block.hash());
    }
    let queued = build_n_empty_blocks_from(3, 500, &stored[28].block_header);
    let headers: Vec<BlockHeader> = queued.iter().map(|b| b.block_header).collect();
    let queued_hashes: Vec<H256> = headers.iter().map(|h| h.hash()).collect();
    hashes.extend(queued_hashes.iter().cloned());
    chain.schedule_blocks_headers(queued_hashes, headers);
    assert_eq!(chain.best_block().number, 32);

    let heights: Vec<usize> = vec![32, 31, 30, 29, 28, 27, 26, 25, 24, 23, 21, 17, 9, 0];
    let expected: Vec<H256> = heights.iter().map(|h| hashes[*h]).collect();
    assert_eq!(chain.block_locator_hashes(), expected);
}
