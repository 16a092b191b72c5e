//! Laws of the synchronization chain, stated over what it holds.

use crate::best_headers_chain::hashes_of;
use crate::block::BlockHeader;
use crate::descendants::{discovery_order, found_from_earlier, lemma_discovered};
use crate::hash::H256;
use crate::hash_queue::{lemma_concat_three, lemma_index_of_unique, without};
use crate::locator::{
    lemma_locator_gaps_from, lemma_locator_heights_from, locator_heights, sample_gap,
};
use crate::model::{BlockState, ChainView, HeadersIntersection, VERIFYING_QUEUE};
use vstd::prelude::*;

verus! {

/// Every block is in one state, and the state tells where the block is:
/// verifying, requested or scheduled if that is the first queue that holds
/// it, in this order; stored if no queue holds it and the store knows it;
/// unknown if neither a queue nor the store holds it.
pub proof fn law_one_state_per_block(chain: ChainView, hash: H256)
    ensures
        chain.block_state(hash) is Verifying <==> chain.verifying().contains(hash),
        chain.block_state(hash) is Requested <==> chain.requested().contains(hash)
            && !chain.verifying().contains(hash),
        chain.block_state(hash) is Scheduled <==> chain.scheduled().contains(hash)
            && !chain.requested().contains(hash) && !chain.verifying().contains(hash),
        chain.block_state(hash) is Stored <==> chain.store.blocks.contains_key(hash)
            && !chain.scheduled().contains(hash) && !chain.requested().contains(hash)
            && !chain.verifying().contains(hash),
        chain.block_state(hash) is Unknown <==> !chain.store.blocks.contains_key(hash)
            && !chain.scheduled().contains(hash) && !chain.requested().contains(hash)
            && !chain.verifying().contains(hash),
{
}

/// Asking for the state of a block or for the counters changes nothing, and
/// the answer depends on nothing but what the chain holds: asked again of a
/// chain that holds the same, the answer is the same.
pub proof fn law_queries_repeat(first: ChainView, second: ChainView, hash: H256)
    requires
        first == second,
    ensures
        first.block_state(hash) == second.block_state(hash),
        first.information() == second.information(),
{
}

/// The count of stored blocks is the height of the store's tip and one,
/// which is the length of the store's main chain.
pub proof fn law_stored_count(chain: ChainView)
    requires
        chain.wf(),
    ensures
        chain.information().stored == chain.best_storage_block.number + 1,
        chain.information().stored == chain.store.chain.len(),
        chain.length_of_state(BlockState::Stored) == chain.information().stored,
{
}

/// The best block stands as many blocks above the store's tip as there are
/// queued blocks.
pub proof fn law_best_block_number(chain: ChainView)
    requires
        chain.wf(),
    ensures
        chain.best_block().number - chain.best_storage_block.number
            == chain.information().scheduled + chain.information().requested
            + chain.information().verifying,
        chain.best_block().number - chain.best_storage_block.number == chain.in_memory().len(),
{
    lemma_concat_three(chain.queues);
}

/// The best block is the last block of the newest stage that is not empty:
/// scheduled before requested before verifying before stored.
pub proof fn law_best_block_hash(chain: ChainView)
    requires
        chain.wf(),
    ensures
        chain.best_block().hash == (if chain.scheduled().len() > 0 {
            chain.scheduled().last()
        } else if chain.requested().len() > 0 {
            chain.requested().last()
        } else if chain.verifying().len() > 0 {
            chain.verifying().last()
        } else {
            chain.store.chain.last()
        }),
{
    lemma_concat_three(chain.queues);
}

/// From `from` on, the first unknown block of `hashes` is where
/// [`ChainView::first_unknown_from`] says: every block before it is known,
/// and it is unknown itself unless the list ends before.
pub proof fn law_first_unknown(chain: ChainView, hashes: Seq<H256>, from: int)
    requires
        0 <= from <= hashes.len(),
    ensures
        from <= chain.first_unknown_from(hashes, from) <= hashes.len(),
        forall|i: int|
            from <= i < chain.first_unknown_from(hashes, from) ==> !(chain.block_state(
                #[trigger] hashes[i],
            ) is Unknown),
        chain.first_unknown_from(hashes, from) < hashes.len() ==> chain.block_state(
            hashes[chain.first_unknown_from(hashes, from)],
        ) is Unknown,
    decreases hashes.len() - from,
{
    if from < hashes.len() && !(chain.block_state(hashes[from]) is Unknown) {
        law_first_unknown(chain, hashes, from + 1);
    }
}

/// A verdict that names new blocks names the index of the first unknown
/// block of the list: the block there is unknown and every block before it
/// is known. Any other verdict but the one for a list without a known block
/// means that the last block of the list is known.
pub proof fn law_new_blocks_index(chain: ChainView, hashes: Seq<H256>, headers: Seq<BlockHeader>)
    requires
        hashes.len() > 0,
        hashes.len() == headers.len(),
        hashes.len() <= usize::MAX,
    ensures
        ({
            let verdict = chain.intersect_with_headers(hashes, headers);
            let index = match verdict {
                HeadersIntersection::InMemoryMainNewBlocks(index) => Some(index),
                HeadersIntersection::InMemoryForkNewBlocks(index) => Some(index),
                HeadersIntersection::DbForkNewBlocks(index) => Some(index),
                _ => None,
            };
            &&& index matches Some(index) ==> {
                &&& index < hashes.len()
                &&& chain.block_state(hashes[index as int]) is Unknown
                &&& forall|i: int|
                    0 <= i < index ==> !(chain.block_state(#[trigger] hashes[i]) is Unknown)
            }
            &&& verdict is DbAllBlocksKnown <==> (verdict !is NoKnownBlocks && chain.block_state(
                hashes.last(),
            ) is Stored)
            &&& verdict is InMemoryNoNewBlocks <==> (verdict !is NoKnownBlocks
                && chain.block_state(hashes.last()).is_queued())
            &&& verdict is NoKnownBlocks <==> (chain.block_state(hashes[0]) is Unknown
                && chain.block_state(headers[0].previous_header_hash) is Unknown)
        }),
{
    law_first_unknown(chain, hashes, 0);
}

/// When the verifying queue ends with `hashes`, forgetting the first `k` of
/// them there, in order, leaves the others in place.
proof fn lemma_forget_each_verifying(chain: ChainView, base: Seq<H256>, hashes: Seq<H256>, k: int)
    requires
        chain.queues.len() == 3,
        chain.verifying() == base + hashes,
        (base + hashes).no_duplicates(),
        0 <= k <= hashes.len(),
    ensures
        chain.forget_each_with_state(hashes.take(k), BlockState::Verifying).queues
            == chain.queues.update(VERIFYING_QUEUE as int, base + hashes.skip(k)),
        chain.forget_each_with_state(hashes.take(k), BlockState::Verifying).store == chain.store,
        chain.forget_each_with_state(hashes.take(k), BlockState::Verifying).best_storage_block
            == chain.best_storage_block,
        chain.forget_each_with_state(hashes.take(k), BlockState::Verifying).genesis_block_hash
            == chain.genesis_block_hash,
    decreases k,
{
    if k == 0 {
        assert(hashes.take(0) =~= Seq::<H256>::empty());
        assert(hashes.skip(0) =~= hashes);
        assert(chain.queues =~= chain.queues.update(VERIFYING_QUEUE as int, base + hashes));
    } else {
        lemma_forget_each_verifying(chain, base, hashes, k - 1);
        let before = chain.forget_each_with_state(hashes.take(k - 1), BlockState::Verifying);
        let hash = hashes[k - 1];
        assert(hashes.take(k).drop_last() =~= hashes.take(k - 1));
        assert(hashes.take(k).last() == hash);
        let queue = base + hashes.skip(k - 1);
        assert(before.verifying() == queue);
        assert(queue[base.len() as int] == hash);
        assert(queue.no_duplicates()) by {
            assert forall|i: int, j: int|
                0 <= i < queue.len() && 0 <= j < queue.len() && i != j implies queue[i]
                != queue[j] by {
                let a = if i < base.len() {
                    i
                } else {
                    i + k - 1
                };
                let b = if j < base.len() {
                    j
                } else {
                    j + k - 1
                };
                assert((base + hashes)[a] == queue[i]);
                assert((base + hashes)[b] == queue[j]);
            }
        }
        lemma_index_of_unique(queue, base.len() as int);
        assert(without(queue, hash) =~= base + hashes.skip(k));
        assert(before.queues.update(VERIFYING_QUEUE as int, base + hashes.skip(k))
            =~= chain.queues.update(VERIFYING_QUEUE as int, base + hashes.skip(k)));
    }
}

/// Scheduling blocks, requesting as many, sending as many to verification
/// and then forgetting each of them as verifying leaves the queues, the
/// store and the four block counters as they were, provided that nothing was
/// scheduled or requested before, or that no block is scheduled at all.
pub proof fn law_round_trip(chain: ChainView, hashes: Seq<H256>, headers: Seq<BlockHeader>)
    requires
        chain.wf(),
        hashes.no_duplicates(),
        forall|i: int| 0 <= i < hashes.len() ==> !chain.verifying().contains(#[trigger] hashes[i]),
        hashes.len() <= u32::MAX,
        hashes.len() == 0 || (chain.scheduled().len() == 0 && chain.requested().len() == 0),
    ensures
        ({
            let n = hashes.len() as u32;
            let end = chain.schedule_blocks_headers(hashes, headers).request_blocks_hashes(
                n,
            ).verify_blocks_hashes(n).forget_each_with_state(hashes, BlockState::Verifying);
            &&& end.queues == chain.queues
            &&& end.store == chain.store
            &&& end.best_storage_block == chain.best_storage_block
            &&& end.information().scheduled == chain.information().scheduled
            &&& end.information().requested == chain.information().requested
            &&& end.information().verifying == chain.information().verifying
            &&& end.information().stored == chain.information().stored
        }),
{
    let n = hashes.len() as u32;
    let scheduled = chain.schedule_blocks_headers(hashes, headers);
    let requested = scheduled.request_blocks_hashes(n);
    let verifying = requested.verify_blocks_hashes(n);
    let end = verifying.forget_each_with_state(hashes, BlockState::Verifying);
    let base = chain.verifying();
    if hashes.len() == 0 {
        assert(chain.scheduled() + hashes =~= chain.scheduled());
        assert(scheduled.queues =~= chain.queues);
        assert(scheduled.scheduled().skip(0) =~= scheduled.scheduled());
        assert(scheduled.requested() + scheduled.scheduled().take(0) =~= scheduled.requested());
        assert(requested.queues =~= chain.queues);
        assert(requested.requested().skip(0) =~= requested.requested());
        assert(requested.verifying() + requested.requested().take(0) =~= requested.verifying());
        assert(verifying.queues =~= chain.queues);
    } else {
        let none = Seq::<H256>::empty();
        assert(chain.scheduled() =~= none);
        assert(chain.requested() =~= none);
        assert(chain.scheduled() + hashes =~= hashes);
        assert(scheduled.scheduled() == hashes);
        assert(hashes.skip(hashes.len() as int) =~= none);
        assert(hashes.take(hashes.len() as int) =~= hashes);
        assert(scheduled.requested() + hashes =~= hashes);
        assert(requested.scheduled() == none);
        assert(requested.requested() == hashes);
        assert(verifying.verifying() == base + hashes);
        assert(verifying.queues =~= chain.queues.update(VERIFYING_QUEUE as int, base + hashes));
        assert((base + hashes).no_duplicates()) by {
            assert forall|i: int, j: int|
                0 <= i < (base + hashes).len() && 0 <= j < (base + hashes).len() && i
                    != j implies (base + hashes)[i] != (base + hashes)[j] by {
                if i < base.len() && j < base.len() {
                } else if i >= base.len() && j >= base.len() {
                    assert(hashes[i - base.len()] != hashes[j - base.len()]);
                } else {
                    let a = if i < base.len() {
                        i
                    } else {
                        j
                    };
                    let b = if i < base.len() {
                        j
                    } else {
                        i
                    };
                    assert(base.contains(base[a]));
                    assert(!base.contains(hashes[b - base.len()]));
                }
            }
        }
    }
    assert(verifying.verifying() == base + hashes) by {
        if hashes.len() == 0 {
            assert(base + hashes =~= base);
        }
    }
    assert((base + hashes).no_duplicates()) by {
        if hashes.len() == 0 {
            assert(base + hashes =~= base);
        }
    }
    lemma_forget_each_verifying(verifying, base, hashes, hashes.len() as int);
    assert(hashes.take(hashes.len() as int) =~= hashes);
    assert(base + hashes.skip(hashes.len() as int) =~= base);
    assert(end.queues =~= chain.queues);
}

/// The blocks that are forgotten with a block: the block itself comes first
/// in the order in which they are found, no block comes twice, and every
/// other block is the child of a block that comes before it. As the blocks
/// are forgotten from the end of this order, every block is forgotten after
/// its descendants, and the block itself last.
pub proof fn law_descendants_follow_parents(headers: Seq<BlockHeader>, root: H256)
    requires
        hashes_of(headers).no_duplicates(),
    ensures
        discovery_order(headers, root).len() >= 1,
        discovery_order(headers, root).first() == root,
        discovery_order(headers, root).no_duplicates(),
        forall|i: int|
            1 <= i < discovery_order(headers, root).len() ==> found_from_earlier(
                headers,
                discovery_order(headers, root),
                i,
            ),
{
    lemma_discovered(headers, root, headers.len() + 1);
}

/// A locator starts at the top, ends at height zero and never rises.
pub proof fn law_locator_ends(top: nat)
    ensures
        locator_heights(top).len() >= 1,
        locator_heights(top).first() == top,
        locator_heights(top).last() == 0,
        forall|k: int| 0 <= k < locator_heights(top).len() ==> #[trigger] locator_heights(top)[k] <= top,
{
    lemma_locator_heights_from(top, 0, 1);
}

/// The samples of a locator stand one block apart nine times, then two
/// blocks, four blocks, eight blocks and so on; only the last distance, the
/// one that reaches height zero, may be shorter than its rank asks.
pub proof fn law_locator_gaps(top: nat)
    ensures
        forall|k: int|
            0 <= k && k + 2 < locator_heights(top).len() ==> #[trigger] locator_heights(top)[k]
                - locator_heights(top)[k + 1] == sample_gap(k as nat),
        forall|k: int|
            0 <= k && k + 2 == locator_heights(top).len() ==> 0 < #[trigger] locator_heights(
                top,
            )[k] - locator_heights(top)[k + 1] <= sample_gap(k as nat),
        forall|k: nat| k < 9 ==> #[trigger] sample_gap(k) == 1,
        forall|k: nat| k >= 9 ==> #[trigger] sample_gap(k) == 2 * sample_gap((k - 1) as nat),
{
    lemma_locator_gaps_from(top, 0, 1);
    assert forall|k: nat| k < 9 implies #[trigger] sample_gap(k) == 1 by {
        crate::locator::lemma_sample_gap_dense(k);
    }
}

/// The locator of a chain starts with the best block and ends with the
/// genesis block.
pub proof fn law_locator_prefix(chain: ChainView)
    requires
        chain.wf(),
    ensures
        chain.block_locator_hashes().len() >= 1,
        chain.block_locator_hashes().first() == chain.best_block().hash,
        chain.block_locator_hashes().last() == chain.genesis_block_hash,
        chain.block_locator_hashes().last() == chain.store.chain[0],
{
    chain.lemma_locator_ends();
}

} // verus!
