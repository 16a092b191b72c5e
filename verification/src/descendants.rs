//! The blocks that descend from a block, by the parent that each known
//! header names.

use crate::best_headers_chain::{children_of, hashes_of, lemma_children_of};
use crate::block::BlockHeader;
use crate::hash::H256;
use crate::hash_queue::lemma_distinct_subset_len;
use vstd::prelude::*;

verus! {

/// The digests of `candidates` that are not in `seen`, in order.
pub open spec fn fresh(candidates: Seq<H256>, seen: Seq<H256>) -> Seq<H256>
    decreases candidates.len(),
{
    if candidates.len() == 0 {
        Seq::empty()
    } else if seen.contains(candidates.last()) {
        fresh(candidates.drop_last(), seen)
    } else {
        fresh(candidates.drop_last(), seen).push(candidates.last())
    }
}

/// The digests found from `root` after the children of the first `steps`
/// digests found were looked up, each digest in the order in which it was
/// found, `root` first.
pub open spec fn discovered_after(headers: Seq<BlockHeader>, root: H256, steps: nat) -> Seq<H256>
    decreases steps,
{
    if steps == 0 {
        seq![root]
    } else {
        let found = discovered_after(headers, root, (steps - 1) as nat);
        if steps - 1 < found.len() {
            found + fresh(children_of(headers, found[steps - 1]), found)
        } else {
            found
        }
    }
}

/// `root` and every digest that descends from it by the headers `headers`,
/// breadth first: `root`, then its children, then their children, each
/// digest once.
pub open spec fn discovery_order(headers: Seq<BlockHeader>, root: H256) -> Seq<H256> {
    discovered_after(headers, root, headers.len() + 1)
}

/// What [`fresh`] keeps: the candidates that were not seen, each once if the
/// candidates stand once.
pub proof fn lemma_fresh(candidates: Seq<H256>, seen: Seq<H256>)
    ensures
        forall|hash: H256|
            #[trigger] fresh(candidates, seen).contains(hash) <==> candidates.contains(hash)
                && !seen.contains(hash),
        candidates.no_duplicates() ==> fresh(candidates, seen).no_duplicates(),
    decreases candidates.len(),
{
    let kept = fresh(candidates, seen);
    if candidates.len() > 0 {
        let front = candidates.drop_last();
        let last = candidates.last();
        let kept_front = fresh(front, seen);
        lemma_fresh(front, seen);
        assert forall|hash: H256| #[trigger]
            kept.contains(hash) <==> candidates.contains(hash) && !seen.contains(hash) by {
            if kept.contains(hash) {
                let i = kept.index_of(hash);
                if i < kept_front.len() {
                    assert(kept_front[i] == hash);
                    assert(kept_front.contains(hash));
                    let j = front.index_of(hash);
                    assert(candidates[j] == hash);
                } else {
                    assert(candidates[candidates.len() - 1] == hash);
                }
            }
            if candidates.contains(hash) && !seen.contains(hash) {
                let j = candidates.index_of(hash);
                if j < front.len() {
                    assert(front[j] == hash);
                    assert(kept_front.contains(hash));
                    let i = kept_front.index_of(hash);
                    assert(kept[i] == hash);
                } else {
                    assert(kept[kept.len() - 1] == hash);
                }
            }
        }
        if candidates.no_duplicates() {
            assert(front.no_duplicates());
            if !seen.contains(last) {
                assert forall|i: int, j: int|
                    0 <= i < kept.len() && 0 <= j < kept.len() && i != j implies kept[i]
                    != kept[j] by {
                    if i < kept_front.len() && j < kept_front.len() {
                    } else {
                        let k = if i < kept_front.len() {
                            i
                        } else {
                            j
                        };
                        assert(kept_front.contains(kept_front[k]));
                        let m = front.index_of(kept_front[k]);
                        assert(candidates[m] != candidates[candidates.len() - 1]);
                    }
                }
            }
        }
    }
}

/// Whether the digest at `i` of `order` is a child of a digest that stands
/// before it there.
pub open spec fn found_from_earlier(headers: Seq<BlockHeader>, order: Seq<H256>, i: int) -> bool {
    exists|j: int| 0 <= j < i && children_of(headers, #[trigger] order[j]).contains(order[i])
}

/// What is found from `root` starts with `root`, names no digest twice,
/// names known headers after `root`, each the child of a digest found
/// before it, and is therefore no longer than the list of known headers and
/// one.
pub proof fn lemma_discovered(headers: Seq<BlockHeader>, root: H256, steps: nat)
    requires
        hashes_of(headers).no_duplicates(),
    ensures
        discovered_after(headers, root, steps).len() >= 1,
        discovered_after(headers, root, steps)[0] == root,
        discovered_after(headers, root, steps).no_duplicates(),
        forall|i: int|
            1 <= i < discovered_after(headers, root, steps).len() ==> hashes_of(headers).contains(
                #[trigger] discovered_after(headers, root, steps)[i],
            ),
        discovered_after(headers, root, steps).len() <= headers.len() + 1,
        forall|i: int|
            1 <= i < discovered_after(headers, root, steps).len() ==> found_from_earlier(
                headers,
                discovered_after(headers, root, steps),
                i,
            ),
    decreases steps,
{
    let all = discovered_after(headers, root, steps);
    if steps > 0 {
        let found = discovered_after(headers, root, (steps - 1) as nat);
        lemma_discovered(headers, root, (steps - 1) as nat);
        if steps - 1 < found.len() {
            let children = children_of(headers, found[steps - 1]);
            let new = fresh(children, found);
            lemma_children_of(headers, found[steps - 1]);
            lemma_fresh(children, found);
            assert forall|i: int, j: int|
                0 <= i < all.len() && 0 <= j < all.len() && i != j implies all[i] != all[j] by {
                if i < found.len() && j < found.len() {
                } else if i >= found.len() && j >= found.len() {
                    assert(new[i - found.len()] != new[j - found.len()]);
                } else {
                    let k = if i < found.len() {
                        j
                    } else {
                        i
                    };
                    let m = if i < found.len() {
                        i
                    } else {
                        j
                    };
                    assert(new.contains(new[k - found.len()]));
                    assert(found.contains(found[m]));
                }
            }
            assert forall|i: int| 1 <= i < all.len() implies found_from_earlier(
                headers,
                all,
                i,
            ) by {
                if i >= found.len() {
                    assert(new.contains(new[i - found.len()]));
                    assert(children_of(headers, all[steps - 1]).contains(all[i]));
                } else {
                    assert(found_from_earlier(headers, found, i));
                    let j = choose|j: int|
                        0 <= j < i && children_of(headers, #[trigger] found[j]).contains(found[i]);
                    assert(children_of(headers, all[j]).contains(all[i]));
                }
            }
            assert forall|i: int| 1 <= i < all.len() implies hashes_of(headers).contains(
                #[trigger] all[i],
            ) by {
                if i >= found.len() {
                    assert(new.contains(new[i - found.len()]));
                    assert(children.contains(all[i]));
                    let k = choose|k: int|
                        0 <= k < headers.len() && (#[trigger] headers[k]).hash == all[i]
                            && headers[k].previous_header_hash == found[steps - 1];
                    assert(hashes_of(headers)[k] == all[i]);
                } else {
                    assert(all[i] == found[i]);
                }
            }
        }
    }
    let tail = all.skip(1);
    assert forall|i: int| 0 <= i < tail.len() implies hashes_of(headers).contains(
        #[trigger] tail[i],
    ) by {
        assert(tail[i] == all[i + 1]);
    }
    lemma_distinct_subset_len(tail, hashes_of(headers));
}

/// Once the children of every digest found were looked up, nothing more is
/// found.
pub proof fn lemma_discovered_stable(headers: Seq<BlockHeader>, root: H256, done: nat, steps: nat)
    requires
        done <= steps,
        discovered_after(headers, root, done).len() <= done,
    ensures
        discovered_after(headers, root, steps) == discovered_after(headers, root, done),
    decreases steps,
{
    if steps > done {
        lemma_discovered_stable(headers, root, done, (steps - 1) as nat);
    }
}

} // verus!
