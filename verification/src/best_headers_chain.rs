//! Headers of the blocks that are known but not yet stored: every header by
//! digest, the parent-to-children relation, and the best chain above the
//! store's tip.

use crate::block::BlockHeader;
use crate::digest_map::DigestMap;
use crate::hash::H256;
use crate::hash_queue::{
    lemma_distinct_subset_len, lemma_index_of_unique, lemma_push_to_set, lemma_without, without,
    HashQueue,
};
use vstd::prelude::*;

verus! {

/// Counters of a headers chain.
#[derive(Clone, Copy, Debug, PartialEq, Eq, Structural)]
pub struct Information {
    /// Number of headers on the best chain.
    pub best: u32,
    /// Number of headers known.
    pub total: u32,
}

/// The digests of `headers`, in order.
pub open spec fn hashes_of(headers: Seq<BlockHeader>) -> Seq<H256> {
    headers.map_values(|header: BlockHeader| header.hash)
}

/// The headers of `headers` whose digest is not in `gone`, in order.
pub open spec fn headers_without(headers: Seq<BlockHeader>, gone: Set<H256>) -> Seq<BlockHeader>
    decreases headers.len(),
{
    if headers.len() == 0 {
        headers
    } else if gone.contains(headers.last().hash) {
        headers_without(headers.drop_last(), gone)
    } else {
        headers_without(headers.drop_last(), gone).push(headers.last())
    }
}

/// The digests of the headers of `headers` whose parent is `parent`, in order.
pub open spec fn children_of(headers: Seq<BlockHeader>, parent: H256) -> Seq<H256>
    decreases headers.len(),
{
    if headers.len() == 0 {
        Seq::empty()
    } else if headers.last().previous_header_hash == parent {
        children_of(headers.drop_last(), parent).push(headers.last().hash)
    } else {
        children_of(headers.drop_last(), parent)
    }
}

/// What is left after taking headers out: no more headers than before, each
/// of them one that was there and is not gone, each such header still there,
/// and digests that stay distinct if they were.
pub proof fn lemma_headers_without(headers: Seq<BlockHeader>, gone: Set<H256>)
    ensures
        headers_without(headers, gone).len() <= headers.len(),
        forall|header: BlockHeader|
            #[trigger] headers_without(headers, gone).contains(header) <==> headers.contains(
                header,
            ) && !gone.contains(header.hash),
        forall|hash: H256|
            #[trigger] hashes_of(headers_without(headers, gone)).contains(hash) <==> hashes_of(
                headers,
            ).contains(hash) && !gone.contains(hash),
        hashes_of(headers).no_duplicates() ==> hashes_of(
            headers_without(headers, gone),
        ).no_duplicates(),
    decreases headers.len(),
{
    let kept = headers_without(headers, gone);
    if headers.len() > 0 {
        let front = headers.drop_last();
        let last = headers.last();
        let kept_front = headers_without(front, gone);
        lemma_headers_without(front, gone);
        assert forall|header: BlockHeader| #[trigger]
            kept.contains(header) <==> headers.contains(header) && !gone.contains(
                header.hash,
            ) by {
            if kept.contains(header) {
                let i = kept.index_of(header);
                if i < kept_front.len() {
                    assert(kept_front[i] == header);
                    assert(kept_front.contains(header));
                    let j = front.index_of(header);
                    assert(headers[j] == header);
                } else {
                    assert(headers[headers.len() - 1] == header);
                }
            }
            if headers.contains(header) && !gone.contains(header.hash) {
                let j = headers.index_of(header);
                if j < front.len() {
                    assert(front[j] == header);
                    assert(kept_front.contains(header));
                    let i = kept_front.index_of(header);
                    assert(kept[i] == header);
                } else {
                    assert(kept[kept.len() - 1] == header);
                }
            }
        }
        assert forall|hash: H256| #[trigger]
            hashes_of(kept).contains(hash) <==> hashes_of(headers).contains(hash) && !gone.contains(
                hash,
            ) by {
            if hashes_of(kept).contains(hash) {
                let i = hashes_of(kept).index_of(hash);
                assert(kept[i].hash == hash);
                assert(kept.contains(kept[i]));
                assert(headers.contains(kept[i]));
                let j = headers.index_of(kept[i]);
                assert(hashes_of(headers)[j] == hash);
            }
            if hashes_of(headers).contains(hash) && !gone.contains(hash) {
                let j = hashes_of(headers).index_of(hash);
                assert(headers[j].hash == hash);
                assert(headers.contains(headers[j]));
                assert(kept.contains(headers[j]));
                let i = kept.index_of(headers[j]);
                assert(hashes_of(kept)[i] == hash);
            }
        }
        if hashes_of(headers).no_duplicates() {
            assert forall|i: int, j: int|
                0 <= i < front.len() && 0 <= j < front.len() && i != j implies hashes_of(front)[i]
                != hashes_of(front)[j] by {
                assert(hashes_of(headers)[i] != hashes_of(headers)[j]);
            }
            assert(hashes_of(kept_front).no_duplicates());
            if !gone.contains(last.hash) {
                assert forall|i: int, j: int|
                    0 <= i < kept.len() && 0 <= j < kept.len() && i != j implies hashes_of(kept)[i]
                    != hashes_of(kept)[j] by {
                    if i < kept_front.len() && j < kept_front.len() {
                        assert(hashes_of(kept_front)[i] != hashes_of(kept_front)[j]);
                    } else {
                        let k = if i < kept_front.len() {
                            i
                        } else {
                            j
                        };
                        assert(kept_front.contains(kept_front[k]));
                        let m = front.index_of(kept_front[k]);
                        assert(hashes_of(headers)[m] != hashes_of(headers)[headers.len() - 1]);
                    }
                }
            }
        }
    }
}

/// Every child is the digest of a header among `headers`, and a child
/// stands once if the digests of `headers` are distinct.
pub proof fn lemma_children_of(headers: Seq<BlockHeader>, parent: H256)
    ensures
        children_of(headers, parent).len() <= headers.len(),
        forall|hash: H256|
            #[trigger] children_of(headers, parent).contains(hash) <==> exists|i: int|
                0 <= i < headers.len() && (#[trigger] headers[i]).hash == hash
                    && headers[i].previous_header_hash == parent,
        hashes_of(headers).no_duplicates() ==> children_of(headers, parent).no_duplicates(),
    decreases headers.len(),
{
    let children = children_of(headers, parent);
    if headers.len() > 0 {
        let front = headers.drop_last();
        let last = headers.last();
        let front_children = children_of(front, parent);
        lemma_children_of(front, parent);
        assert forall|hash: H256| #[trigger]
            children.contains(hash) <==> exists|i: int|
                0 <= i < headers.len() && (#[trigger] headers[i]).hash == hash
                    && headers[i].previous_header_hash == parent by {
            if children.contains(hash) {
                let c = children.index_of(hash);
                if c < front_children.len() {
                    assert(front_children[c] == hash);
                    assert(front_children.contains(hash));
                    let i = choose|i: int|
                        0 <= i < front.len() && (#[trigger] front[i]).hash == hash
                            && front[i].previous_header_hash == parent;
                    assert(headers[i].hash == hash);
                } else {
                    assert(headers[headers.len() - 1].hash == hash);
                }
            }
            if exists|i: int|
                0 <= i < headers.len() && (#[trigger] headers[i]).hash == hash
                    && headers[i].previous_header_hash == parent {
                let i = choose|i: int|
                    0 <= i < headers.len() && (#[trigger] headers[i]).hash == hash
                        && headers[i].previous_header_hash == parent;
                if i < front.len() {
                    assert(front[i].hash == hash);
                    assert(front_children.contains(hash));
                    let c = front_children.index_of(hash);
                    assert(children[c] == hash);
                } else {
                    assert(children[children.len() - 1] == hash);
                }
            }
        }
        if hashes_of(headers).no_duplicates() {
            assert forall|i: int, j: int|
                0 <= i < front.len() && 0 <= j < front.len() && i != j implies hashes_of(front)[i]
                != hashes_of(front)[j] by {
                assert(hashes_of(headers)[i] != hashes_of(headers)[j]);
            }
            if last.previous_header_hash == parent {
                if front_children.contains(last.hash) {
                    let i = choose|i: int|
                        0 <= i < front.len() && (#[trigger] front[i]).hash == last.hash
                            && front[i].previous_header_hash == parent;
                    assert(hashes_of(headers)[i] != hashes_of(headers)[headers.len() - 1]);
                }
            }
        }
    }
}

/// What a headers chain holds.
pub struct HeadersView {
    /// Digest of the store's tip, on which the best chain stands.
    pub storage_best_hash: H256,
    /// Every known header, in the order in which they came.
    pub headers: Seq<BlockHeader>,
    /// Digests of the best chain, the lowest first.
    pub best: Seq<H256>,
}

impl HeadersView {
    /// The digests of the known headers, in order.
    pub open spec fn hashes(self) -> Seq<H256> {
        hashes_of(self.headers)
    }

    /// The count of headers fits in 32 bits, no digest is known twice, none
    /// stands twice on the best chain, and the best chain is made of known
    /// headers.
    pub open spec fn wf(self) -> bool {
        &&& self.headers.len() <= u32::MAX
        &&& self.hashes().no_duplicates()
        &&& self.best.no_duplicates()
        &&& forall|i: int|
            0 <= i < self.best.len() ==> self.hashes().contains(#[trigger] self.best[i])
    }

    /// The chain of a store whose tip is `storage_best_hash`, with no header.
    pub open spec fn empty(storage_best_hash: H256) -> HeadersView {
        HeadersView { storage_best_hash, headers: Seq::empty(), best: Seq::empty() }
    }

    /// Digest of the best chain's tip, which is the store's tip while the
    /// best chain is empty.
    pub open spec fn best_block_hash(self) -> H256 {
        if self.best.len() > 0 {
            self.best.last()
        } else {
            self.storage_best_hash
        }
    }

    /// The counters.
    pub open spec fn information(self) -> Information {
        Information { best: self.best.len() as u32, total: self.headers.len() as u32 }
    }

    /// The header with digest `hash`.
    pub open spec fn by_hash(self, hash: H256) -> Option<BlockHeader> {
        if self.hashes().contains(hash) {
            Some(self.headers[self.hashes().index_of(hash)])
        } else {
            None
        }
    }

    /// The header at `height` of the best chain, counted from zero.
    pub open spec fn at(self, height: u32) -> Option<BlockHeader> {
        if height < self.best.len() {
            self.by_hash(self.best[height as int])
        } else {
            None
        }
    }

    /// Height of `hash` on the best chain, counted from zero.
    pub open spec fn height(self, hash: H256) -> Option<u32> {
        if self.best.contains(hash) {
            Some(self.best.index_of(hash) as u32)
        } else {
            None
        }
    }

    /// Digests of the known headers whose parent is `hash`, in the order in
    /// which they came.
    pub open spec fn children(self, hash: H256) -> Seq<H256> {
        children_of(self.headers, hash)
    }

    /// The chain after `header` came: a header with a known digest changes
    /// nothing; another one is known from now on, and extends the best chain
    /// if its parent is the best chain's tip.
    pub open spec fn insert(self, header: BlockHeader) -> HeadersView {
        if self.hashes().contains(header.hash) {
            self
        } else {
            HeadersView {
                storage_best_hash: self.storage_best_hash,
                headers: self.headers.push(header),
                best: if self.best_block_hash() == header.previous_header_hash {
                    self.best.push(header.hash)
                } else {
                    self.best
                },
            }
        }
    }

    /// The chain after each of `headers` came, in order.
    pub open spec fn insert_n(self, headers: Seq<BlockHeader>) -> HeadersView
        decreases headers.len(),
    {
        if headers.len() == 0 {
            self
        } else {
            self.insert_n(headers.drop_last()).insert(headers.last())
        }
    }

    /// Where the best chain is cut when `hash` leaves: at `hash` if it is on
    /// the best chain, else at the end.
    pub open spec fn cut(self, hash: H256) -> int {
        if self.best.contains(hash) {
            self.best.index_of(hash)
        } else {
            self.best.len() as int
        }
    }

    /// The chain after the header with digest `hash` left: an unknown digest
    /// changes nothing; a known one is forgotten, and if it stood on the best
    /// chain, the best chain ends below it and the headers that stood above
    /// it there are forgotten too.
    pub open spec fn remove(self, hash: H256) -> HeadersView {
        if !self.hashes().contains(hash) {
            self
        } else {
            HeadersView {
                storage_best_hash: self.storage_best_hash,
                headers: headers_without(
                    self.headers,
                    self.best.skip(self.cut(hash)).to_set().insert(hash),
                ),
                best: self.best.take(self.cut(hash)),
            }
        }
    }

    /// The chain after the headers with the digests `hashes` left, in order.
    pub open spec fn remove_n(self, hashes: Seq<H256>) -> HeadersView
        decreases hashes.len(),
    {
        if hashes.len() == 0 {
            self
        } else {
            self.remove_n(hashes.drop_last()).remove(hashes.last())
        }
    }

    /// The chain after the block `hash` went to the store, whose tip is now
    /// `storage_best_hash`: if `hash` was the lowest header of the best
    /// chain, it is forgotten and the best chain starts above it.
    pub open spec fn block_inserted_to_storage(
        self,
        hash: H256,
        storage_best_hash: H256,
    ) -> HeadersView {
        if self.best.len() > 0 && self.best[0] == hash {
            HeadersView {
                storage_best_hash,
                headers: headers_without(self.headers, set![hash]),
                best: self.best.skip(1),
            }
        } else {
            HeadersView { storage_best_hash, headers: self.headers, best: self.best }
        }
    }

    /// The best chain is no longer than the list of known headers.
    pub proof fn lemma_best_len(self)
        requires
            self.wf(),
        ensures
            self.best.len() <= self.headers.len(),
    {
        lemma_distinct_subset_len(self.best, self.hashes());
    }

    /// Inserting a header keeps the chain well-formed.
    pub proof fn lemma_insert_wf(self, header: BlockHeader)
        requires
            self.wf(),
            self.headers.len() < u32::MAX,
        ensures
            self.insert(header).wf(),
            self.insert(header).headers.len() <= self.headers.len() + 1,
    {
        let next = self.insert(header);
        if !self.hashes().contains(header.hash) {
            assert forall|i: int, j: int|
                0 <= i < next.hashes().len() && 0 <= j < next.hashes().len() && i != j implies next.hashes()[i]
                != next.hashes()[j] by {
                if i < self.headers.len() && j < self.headers.len() {
                    assert(self.hashes()[i] != self.hashes()[j]);
                } else {
                    let k = if i < self.headers.len() {
                        i
                    } else {
                        j
                    };
                    assert(self.hashes().contains(self.hashes()[k]));
                }
            }
            assert forall|i: int| 0 <= i < next.best.len() implies next.hashes().contains(
                #[trigger] next.best[i],
            ) by {
                if i < self.best.len() {
                    let k = self.hashes().index_of(self.best[i]);
                    assert(next.hashes()[k] == self.best[i]);
                } else {
                    assert(next.hashes()[next.headers.len() - 1] == header.hash);
                }
            }
            assert forall|i: int, j: int|
                0 <= i < next.best.len() && 0 <= j < next.best.len() && i != j implies next.best[i]
                != next.best[j] by {
                if i < self.best.len() && j < self.best.len() {
                } else {
                    let k = if i < self.best.len() {
                        i
                    } else {
                        j
                    };
                    assert(self.hashes().contains(self.best[k]));
                }
            }
        }
    }

    /// Inserting headers keeps the chain well-formed.
    pub proof fn lemma_insert_n_wf(self, headers: Seq<BlockHeader>)
        requires
            self.wf(),
            self.headers.len() + headers.len() <= u32::MAX,
        ensures
            self.insert_n(headers).wf(),
            self.insert_n(headers).headers.len() <= self.headers.len() + headers.len(),
        decreases headers.len(),
    {
        if headers.len() > 0 {
            self.lemma_insert_n_wf(headers.drop_last());
            self.insert_n(headers.drop_last()).lemma_insert_wf(headers.last());
        }
    }

    /// Removing a header keeps the chain well-formed and adds no header.
    pub proof fn lemma_remove_wf(self, hash: H256)
        requires
            self.wf(),
        ensures
            self.remove(hash).wf(),
            self.remove(hash).headers.len() <= self.headers.len(),
    {
        if self.hashes().contains(hash) {
            let next = self.remove(hash);
            let p = self.cut(hash);
            let gone = self.best.skip(p).to_set().insert(hash);
            lemma_headers_without(self.headers, gone);
            assert forall|i: int| 0 <= i < next.best.len() implies next.hashes().contains(
                #[trigger] next.best[i],
            ) by {
                assert(self.hashes().contains(self.best[i]));
                if self.best.skip(p).contains(self.best[i]) {
                    let k = self.best.skip(p).index_of(self.best[i]);
                    assert(self.best[p + k] == self.best[i]);
                }
            }
        }
    }

    /// Removing headers keeps the chain well-formed and adds no header.
    pub proof fn lemma_remove_n_wf(self, hashes: Seq<H256>)
        requires
            self.wf(),
        ensures
            self.remove_n(hashes).wf(),
            self.remove_n(hashes).headers.len() <= self.headers.len(),
        decreases hashes.len(),
    {
        if hashes.len() > 0 {
            self.lemma_remove_n_wf(hashes.drop_last());
            self.remove_n(hashes.drop_last()).lemma_remove_wf(hashes.last());
        }
    }

    /// Telling the chain of a stored block keeps it well-formed and adds no
    /// header.
    pub proof fn lemma_block_inserted_wf(self, hash: H256, storage_best_hash: H256)
        requires
            self.wf(),
        ensures
            self.block_inserted_to_storage(hash, storage_best_hash).wf(),
            self.block_inserted_to_storage(hash, storage_best_hash).headers.len()
                <= self.headers.len(),
    {
        if self.best.len() > 0 && self.best[0] == hash {
            let next = self.block_inserted_to_storage(hash, storage_best_hash);
            lemma_headers_without(self.headers, set![hash]);
            assert forall|i: int| 0 <= i < next.best.len() implies next.hashes().contains(
                #[trigger] next.best[i],
            ) by {
                assert(self.hashes().contains(self.best[i + 1]));
            }
        }
    }
}

/// The known headers by digest.
pub open spec fn header_map(headers: Seq<BlockHeader>) -> Map<H256, BlockHeader> {
    Map::new(
        |hash: H256| hashes_of(headers).contains(hash),
        |hash: H256| headers[hashes_of(headers).index_of(hash)],
    )
}

/// A header with a new digest is one more entry of the map by digest.
pub proof fn lemma_header_map_push(headers: Seq<BlockHeader>, header: BlockHeader)
    requires
        hashes_of(headers).no_duplicates(),
        !hashes_of(headers).contains(header.hash),
    ensures
        hashes_of(headers.push(header)).no_duplicates(),
        header_map(headers.push(header)) =~= header_map(headers).insert(header.hash, header),
{
    let all = headers.push(header);
    assert(hashes_of(all) =~= hashes_of(headers).push(header.hash));
    lemma_push_to_set(hashes_of(headers), header.hash);
    assert forall|hash: H256|
        hashes_of(all).contains(hash) <==> hashes_of(headers).contains(hash) || hash
            == header.hash by {
        assert(hashes_of(all).to_set().contains(hash) == hashes_of(headers).to_set().insert(
            header.hash,
        ).contains(hash));
    }
    assert forall|hash: H256| header_map(all).contains_key(hash) implies header_map(all)[hash]
        == header_map(headers).insert(header.hash, header)[hash] by {
        if hash == header.hash {
            lemma_index_of_unique(hashes_of(all), headers.len() as int);
        } else {
            let i = hashes_of(headers).index_of(hash);
            assert(hashes_of(all)[i] == hash);
            lemma_index_of_unique(hashes_of(all), i);
        }
    }
}

/// A header that leaves takes its entry out of the map by digest.
pub proof fn lemma_header_map_remove(headers: Seq<BlockHeader>, i: int)
    requires
        hashes_of(headers).no_duplicates(),
        0 <= i < headers.len(),
    ensures
        hashes_of(headers.remove(i)).no_duplicates(),
        header_map(headers.remove(i)) =~= header_map(headers).remove(headers[i].hash),
{
    let rest = headers.remove(i);
    let hash = headers[i].hash;
    lemma_index_of_unique(hashes_of(headers), i);
    lemma_without(hashes_of(headers), hash);
    assert(hashes_of(rest) =~= without(hashes_of(headers), hash));
    assert forall|other: H256| header_map(rest).contains_key(other) implies header_map(rest)[other]
        == header_map(headers).remove(hash)[other] by {
        let k = hashes_of(rest).index_of(other);
        assert(hashes_of(rest)[k] == other);
        let j = if k < i {
            k
        } else {
            k + 1
        };
        assert(hashes_of(headers)[j] == other);
        lemma_index_of_unique(hashes_of(headers), j);
    }
}

/// The headers that are known but not yet stored.
#[derive(Debug)]
pub struct BestHeadersChain {
    storage_best_hash: H256,
    headers: Vec<BlockHeader>,
    by_hash: DigestMap<BlockHeader>,
    best: HashQueue,
}

impl View for BestHeadersChain {
    type V = HeadersView;

    closed spec fn view(&self) -> HeadersView {
        HeadersView {
            storage_best_hash: self.storage_best_hash,
            headers: self.headers@,
            best: self.best@,
        }
    }
}

impl BestHeadersChain {
    /// The best chain keeps the set of its digests, and the map by digest
    /// holds the known headers.
    pub closed spec fn inv(&self) -> bool {
        &&& self.best.inv()
        &&& self.by_hash.wf()
        &&& self.by_hash@ == header_map(self.headers@)
    }

    /// See [`HeadersView::wf`].
    pub open spec fn wf(&self) -> bool {
        &&& self.inv()
        &&& self@.wf()
    }

    /// The chain of a store whose tip is `storage_best_hash`, with no header.
    pub fn new(storage_best_hash: H256) -> (r: BestHeadersChain)
        ensures
            r.wf(),
            r@ == HeadersView::empty(storage_best_hash),
    {
        let r = BestHeadersChain {
            storage_best_hash,
            headers: Vec::new(),
            by_hash: DigestMap::new(),
            best: HashQueue::new(),
        };
        assert(r.by_hash@ =~= header_map(r.headers@));
        r
    }

    /// The counters.
    pub fn information(&self) -> (r: Information)
        requires
            self.wf(),
        ensures
            r == self@.information(),
    {
        proof {
            self@.lemma_best_len();
        }
        Information { best: self.best.len(), total: self.headers.len() as u32 }
    }

    /// The header with digest `hash`.
    pub fn by_hash(&self, hash: &H256) -> (r: Option<BlockHeader>)
        requires
            self.wf(),
        ensures
            r == self@.by_hash(*hash),
    {
        match self.by_hash.get(hash) {
            Some(header) => Some(*header),
            None => None,
        }
    }

    /// The header at `height` of the best chain, counted from zero.
    pub fn at(&self, height: u32) -> (r: Option<BlockHeader>)
        requires
            self.wf(),
        ensures
            r == self@.at(height),
    {
        match self.best.at(height) {
            Some(hash) => self.by_hash(&hash),
            None => None,
        }
    }

    /// Height of `hash` on the best chain, counted from zero.
    pub fn height(&self, hash: &H256) -> (r: Option<u32>)
        requires
            self.wf(),
        ensures
            r == self@.height(*hash),
    {
        proof {
            self@.lemma_best_len();
        }
        self.best.position(hash)
    }

    /// Digests of the known headers whose parent is `hash`, in the order in
    /// which they came.
    pub fn children(&self, hash: &H256) -> (r: Vec<H256>)
        ensures
            r@ == self@.children(*hash),
    {
        let mut children: Vec<H256> = Vec::new();
        let mut i: usize = 0;
        while i < self.headers.len()
            invariant
                i <= self.headers@.len(),
                children@ == children_of(self.headers@.take(i as int), *hash),
            decreases self.headers@.len() - i,
        {
            assert(self.headers@.take(i + 1).drop_last() =~= self.headers@.take(i as int));
            if self.headers[i].previous_header_hash == *hash {
                children.push(self.headers[i].hash);
            }
            i += 1;
        }
        assert(self.headers@.take(self.headers@.len() as int) =~= self.headers@);
        children
    }

    /// Digest of the best chain's tip, which is the store's tip while the
    /// best chain is empty.
    pub fn best_block_hash(&self) -> (r: H256)
        ensures
            r == self@.best_block_hash(),
    {
        match self.best.back() {
            Some(hash) => hash,
            None => self.storage_best_hash,
        }
    }

    /// Takes `header` in. See [`HeadersView::insert`].
    pub fn insert(&mut self, header: BlockHeader)
        requires
            old(self).wf(),
            old(self)@.headers.len() < u32::MAX,
        ensures
            final(self).wf(),
            final(self)@ == old(self)@.insert(header),
    {
        proof {
            self@.lemma_insert_wf(header);
            self@.lemma_best_len();
        }
        if self.by_hash.contains_key(&header.hash) {
            return ;
        }
        proof {
            lemma_header_map_push(self.headers@, header);
        }
        let extends_best = self.best_block_hash() == header.previous_header_hash;
        self.headers.push(header);
        self.by_hash.insert(header.hash, header);
        if extends_best {
            assert(!self.best@.contains(header.hash)) by {
                if self.best@.contains(header.hash) {
                    let i = self.best@.index_of(header.hash);
                    assert(old(self)@.hashes().contains(old(self)@.best[i]));
                }
            }
            self.best.push_back(header.hash);
        }
    }

    /// Takes each of `headers` in, in order.
    pub fn insert_n(&mut self, headers: Vec<BlockHeader>)
        requires
            old(self).wf(),
            old(self)@.headers.len() + headers@.len() <= u32::MAX,
        ensures
            final(self).wf(),
            final(self)@ == old(self)@.insert_n(headers@),
    {
        let mut i: usize = 0;
        while i < headers.len()
            invariant
                i <= headers@.len(),
                self.wf(),
                old(self).wf(),
                old(self)@.headers.len() + headers@.len() <= u32::MAX,
                self@ == old(self)@.insert_n(headers@.take(i as int)),
            decreases headers@.len() - i,
        {
            proof {
                old(self)@.lemma_insert_n_wf(headers@.take(i as int));
                assert(headers@.take(i + 1).drop_last() =~= headers@.take(i as int));
            }
            self.insert(headers[i]);
            i += 1;
        }
        assert(headers@.take(headers@.len() as int) =~= headers@);
    }

    fn forget_headers(&mut self, cut: u32, hash: &H256)
        requires
            old(self).wf(),
            cut <= old(self)@.best.len(),
        ensures
            final(self).best == old(self).best,
            final(self).by_hash.wf(),
            final(self).by_hash@ == header_map(final(self).headers@),
            final(self)@ == (HeadersView {
                storage_best_hash: old(self)@.storage_best_hash,
                headers: headers_without(
                    old(self)@.headers,
                    old(self)@.best.skip(cut as int).to_set().insert(*hash),
                ),
                best: old(self)@.best,
            }),
    {
        proof {
            self@.lemma_best_len();
        }
        let ghost gone = self@.best.skip(cut as int).to_set().insert(*hash);
        let ghost all = self.headers@;
        let mut kept: Vec<BlockHeader> = Vec::new();
        let mut i: usize = 0;
        assert(kept@ + all.skip(0) =~= all);
        while i < self.headers.len()
            invariant
                i <= all.len(),
                all == self.headers@,
                self.headers@ == old(self).headers@,
                self.best == old(self).best,
                self.storage_best_hash == old(self).storage_best_hash,
                cut <= self.best@.len(),
                self.best.wf(),
                self.by_hash.wf(),
                gone == self.best@.skip(cut as int).to_set().insert(*hash),
                kept@ == headers_without(all.take(i as int), gone),
                hashes_of(kept@ + all.skip(i as int)).no_duplicates(),
                self.by_hash@ == header_map(kept@ + all.skip(i as int)),
            decreases all.len() - i,
        {
            let header = self.headers[i];
            let leaves = header.hash == *hash || match self.best.position(&header.hash) {
                Some(height) => height >= cut,
                None => false,
            };
            let ghost rest = kept@ + all.skip(i as int);
            proof {
                assert(all.take(i + 1).drop_last() =~= all.take(i as int));
                let above = self.best@.skip(cut as int);
                if above.contains(header.hash) {
                    let k = above.index_of(header.hash);
                    lemma_index_of_unique(self.best@, cut + k);
                }
                if self.best@.contains(header.hash) && self.best@.index_of(header.hash) >= cut {
                    assert(above[self.best@.index_of(header.hash) - cut] == header.hash);
                }
                assert(leaves == gone.contains(header.hash));
                assert(rest[kept@.len() as int] == header);
            }
            if leaves {
                proof {
                    lemma_header_map_remove(rest, kept@.len() as int);
                    assert(rest.remove(kept@.len() as int) =~= kept@ + all.skip(i + 1));
                }
                self.by_hash.remove(&header.hash);
            } else {
                kept.push(header);
                assert(kept@ + all.skip(i + 1) =~= rest);
            }
            i += 1;
        }
        assert(all.take(all.len() as int) =~= all);
        assert(kept@ + all.skip(all.len() as int) =~= kept@);
        self.headers = kept;
    }

    /// Forgets the header with digest `hash`. See [`HeadersView::remove`].
    pub fn remove(&mut self, hash: &H256)
        requires
            old(self).wf(),
        ensures
            final(self).wf(),
            final(self)@ == old(self)@.remove(*hash),
    {
        proof {
            self@.lemma_remove_wf(*hash);
            self@.lemma_best_len();
        }
        if !self.by_hash.contains_key(hash) {
            return ;
        }
        let cut = match self.best.position(hash) {
            Some(height) => height,
            None => self.best.len(),
        };
        self.forget_headers(cut, hash);
        while self.best.len() > cut
            invariant
                self.best.wf(),
                self.by_hash.wf(),
                self.by_hash@ == header_map(self.headers@),
                cut <= self.best@.len() <= old(self)@.best.len(),
                self.best@ == old(self)@.best.take(self.best@.len() as int),
                self.headers@ == old(self)@.remove(*hash).headers,
                self.storage_best_hash == old(self)@.storage_best_hash,
            decreases self.best@.len(),
        {
            self.best.pop_back();
            assert(self.best@ =~= old(self)@.best.take(self.best@.len() as int));
        }
    }

    /// Forgets the headers with the digests `hashes`, in order.
    pub fn remove_n(&mut self, hashes: Vec<H256>)
        requires
            old(self).wf(),
        ensures
            final(self).wf(),
            final(self)@ == old(self)@.remove_n(hashes@),
    {
        let mut i: usize = 0;
        while i < hashes.len()
            invariant
                i <= hashes@.len(),
                self.wf(),
                self@ == old(self)@.remove_n(hashes@.take(i as int)),
            decreases hashes@.len() - i,
        {
            assert(hashes@.take(i + 1).drop_last() =~= hashes@.take(i as int));
            self.remove(&hashes[i]);
            i += 1;
        }
        assert(hashes@.take(hashes@.len() as int) =~= hashes@);
    }

    /// Learns that the block `hash` went to the store, whose tip is now
    /// `storage_best_hash`. See [`HeadersView::block_inserted_to_storage`].
    pub fn block_inserted_to_storage(&mut self, hash: &H256, storage_best_hash: &H256)
        requires
            old(self).wf(),
        ensures
            final(self).wf(),
            final(self)@ == old(self)@.block_inserted_to_storage(*hash, *storage_best_hash),
    {
        proof {
            self@.lemma_block_inserted_wf(*hash, *storage_best_hash);
            self@.lemma_best_len();
        }
        let is_lowest = match self.best.front() {
            Some(lowest) => lowest == *hash,
            None => false,
        };
        if is_lowest {
            let len = self.best.len();
            self.forget_headers(len, hash);
            assert(old(self)@.best.skip(len as int) =~= Seq::<H256>::empty());
            assert(old(self)@.best.skip(len as int).to_set().insert(*hash) =~= set![*hash]);
            self.best.pop_front();
        }
        self.storage_best_hash = *storage_best_hash;
    }
}

} // verus!
