//! Ordered queues of digests, and a chain of such queues read as one.

use crate::digest_set::DigestSet;
use crate::hash::H256;
use std::collections::VecDeque;
use vstd::prelude::*;
use vstd::seq_lib::lemma_flatten_concat;

verus! {

/// Where a digest stood in a queue when it was taken out.
#[derive(Clone, Copy, Debug, PartialEq, Eq, Structural)]
pub enum HashPosition {
    /// The digest was not in the queue.
    Missing,
    /// The digest was the first element.
    Front,
    /// The digest stood at this index, neither first nor last.
    Inside(u32),
    /// The digest was the last element, and not the first.
    Back,
}

/// Position of `hash` in `queue`.
pub open spec fn position_in(queue: Seq<H256>, hash: H256) -> HashPosition {
    if !queue.contains(hash) {
        HashPosition::Missing
    } else if queue.index_of(hash) == 0 {
        HashPosition::Front
    } else if queue.index_of(hash) == queue.len() - 1 {
        HashPosition::Back
    } else {
        HashPosition::Inside(queue.index_of(hash) as u32)
    }
}

/// `queue` with `hash` taken out, the other elements keeping their order.
pub open spec fn without(queue: Seq<H256>, hash: H256) -> Seq<H256> {
    if queue.contains(hash) {
        queue.remove(queue.index_of(hash))
    } else {
        queue
    }
}

/// In a sequence without repetitions, an element is found at one index only.
pub proof fn lemma_index_of_unique(queue: Seq<H256>, i: int)
    requires
        queue.no_duplicates(),
        0 <= i < queue.len(),
    ensures
        queue.contains(queue[i]),
        queue.index_of(queue[i]) == i,
{
    assert(queue.contains(queue[i]));
}

/// Taking an element out of a sequence without repetitions leaves one
/// without repetitions, which no longer holds the element and holds every
/// other element it held.
pub proof fn lemma_without(queue: Seq<H256>, hash: H256)
    requires
        queue.no_duplicates(),
    ensures
        without(queue, hash).no_duplicates(),
        !without(queue, hash).contains(hash),
        forall|other: H256|
            other != hash ==> (#[trigger] without(queue, hash).contains(other) == queue.contains(
                other,
            )),
        queue.contains(hash) ==> without(queue, hash).len() == queue.len() - 1,
{
    if queue.contains(hash) {
        let i = queue.index_of(hash);
        let rest = queue.remove(i);
        queue.remove_ensures(i);
        assert forall|other: H256| other != hash implies (#[trigger] rest.contains(other))
            == queue.contains(other) by {
            if queue.contains(other) {
                let j = queue.index_of(other);
                if j < i {
                    assert(rest[j] == other);
                } else {
                    assert(rest[j - 1] == other);
                }
            }
            if rest.contains(other) {
                let j = rest.index_of(other);
                if j < i {
                    assert(queue[j] == other);
                } else {
                    assert(queue[j + 1] == other);
                }
            }
        }
        if rest.contains(hash) {
            let j = rest.index_of(hash);
            if j < i {
                assert(queue[j] == hash);
            } else {
                assert(queue[j + 1] == hash);
            }
        }
    }
}

/// A sequence without repetitions whose elements all stand in another one
/// without repetitions is no longer than that one.
pub proof fn lemma_distinct_subset_len(part: Seq<H256>, whole: Seq<H256>)
    requires
        part.no_duplicates(),
        whole.no_duplicates(),
        forall|i: int| 0 <= i < part.len() ==> whole.contains(#[trigger] part[i]),
    ensures
        part.len() <= whole.len(),
{
    part.unique_seq_to_set();
    whole.unique_seq_to_set();
    vstd::seq_lib::seq_to_set_is_finite(whole);
    assert(part.to_set().subset_of(whole.to_set())) by {
        assert forall|hash: H256| part.to_set().contains(hash) implies whole.to_set().contains(
            hash,
        ) by {
            let i = part.index_of(hash);
            assert(whole.contains(part[i]));
        }
    }
    vstd::set_lib::lemma_len_subset(part.to_set(), whole.to_set());
}

/// A new element at the end of a sequence without repetitions leaves it
/// without repetitions and is one more element of the set of its elements.
pub proof fn lemma_push_to_set(queue: Seq<H256>, hash: H256)
    ensures
        queue.push(hash).to_set() =~= queue.to_set().insert(hash),
        queue.no_duplicates() && !queue.contains(hash) ==> queue.push(hash).no_duplicates(),
{
    let all = queue.push(hash);
    assert forall|other: H256| all.contains(other) <==> (queue.contains(other) || other
        == hash) by {
        if all.contains(other) {
            let i = all.index_of(other);
            if i < queue.len() {
                assert(queue[i] == other);
            }
        }
        if queue.contains(other) {
            let i = queue.index_of(other);
            assert(all[i] == other);
        }
        if other == hash {
            assert(all[queue.len() as int] == hash);
        }
    }
    if queue.no_duplicates() && !queue.contains(hash) {
        assert forall|i: int, j: int| 0 <= i < all.len() && 0 <= j < all.len() && i != j implies all[i]
            != all[j] by {
            if i < queue.len() && j < queue.len() {
            } else {
                let k = if i < queue.len() {
                    i
                } else {
                    j
                };
                assert(queue.contains(queue[k]));
            }
        }
    }
}

/// Taking the element at `i` out of a sequence without repetitions takes
/// it out of the set of its elements.
pub proof fn lemma_remove_to_set(queue: Seq<H256>, i: int)
    requires
        queue.no_duplicates(),
        0 <= i < queue.len(),
    ensures
        queue.remove(i).to_set() =~= queue.to_set().remove(queue[i]),
        queue.remove(i) == without(queue, queue[i]),
{
    lemma_index_of_unique(queue, i);
    lemma_without(queue, queue[i]);
}

/// A queue of digests in which no digest stands twice. It keeps the set of
/// its digests beside their order, so that asking whether it holds a digest
/// does not walk the queue.
#[derive(Debug)]
pub struct HashQueue {
    queue: VecDeque<H256>,
    set: DigestSet,
}

impl View for HashQueue {
    type V = Seq<H256>;

    closed spec fn view(&self) -> Seq<H256> {
        self.queue@
    }
}

impl HashQueue {
    /// The set beside the queue holds the digests of the queue.
    pub closed spec fn inv(&self) -> bool {
        &&& self.set.wf()
        &&& self.set@ == self.queue@.to_set()
    }

    /// No digest stands twice, and the length fits in 32 bits.
    pub open spec fn wf(&self) -> bool {
        &&& self.inv()
        &&& self@.no_duplicates()
        &&& self@.len() <= u32::MAX
    }

    /// An empty queue.
    pub fn new() -> (r: HashQueue)
        ensures
            r.wf(),
            r@ == Seq::<H256>::empty(),
    {
        let r = HashQueue { queue: VecDeque::new(), set: DigestSet::new() };
        assert(r.queue@.to_set() =~= Set::<H256>::empty());
        r
    }

    /// Number of digests in the queue.
    pub fn len(&self) -> (r: u32)
        requires
            self.wf(),
        ensures
            r == self@.len(),
    {
        self.queue.len() as u32
    }

    /// The first digest.
    pub fn front(&self) -> (r: Option<H256>)
        ensures
            r == (if self@.len() > 0 {
                Some(self@.first())
            } else {
                None
            }),
    {
        if self.queue.len() > 0 {
            Some(self.queue[0])
        } else {
            None
        }
    }

    /// The last digest.
    pub fn back(&self) -> (r: Option<H256>)
        ensures
            r == (if self@.len() > 0 {
                Some(self@.last())
            } else {
                None
            }),
    {
        let len = self.queue.len();
        if len > 0 {
            Some(self.queue[len - 1])
        } else {
            None
        }
    }

    /// The digest before the last one.
    pub fn pre_back(&self) -> (r: Option<H256>)
        ensures
            r == (if self@.len() > 1 {
                Some(self@[self@.len() - 2])
            } else {
                None
            }),
    {
        let len = self.queue.len();
        if len > 1 {
            Some(self.queue[len - 2])
        } else {
            None
        }
    }

    /// The digest at `index`.
    pub fn at(&self, index: u32) -> (r: Option<H256>)
        ensures
            r == (if index < self@.len() {
                Some(self@[index as int])
            } else {
                None
            }),
    {
        if (index as usize) < self.queue.len() {
            Some(self.queue[index as usize])
        } else {
            None
        }
    }

    fn find(&self, hash: &H256) -> (r: Option<usize>)
        requires
            self.wf(),
        ensures
            r is Some == self@.contains(*hash),
            r is Some ==> r->0 == self@.index_of(*hash) && r->0 < self@.len(),
    {
        if !self.set.contains(hash) {
            return None;
        }
        let mut i: usize = 0;
        while i < self.queue.len()
            invariant
                i <= self.queue@.len(),
                self.wf(),
                forall|j: int| 0 <= j < i ==> self.queue@[j] != *hash,
            decreases self.queue@.len() - i,
        {
            if self.queue[i] == *hash {
                proof {
                    lemma_index_of_unique(self@, i as int);
                }
                return Some(i);
            }
            i += 1;
        }
        None
    }

    /// Whether the queue holds `hash`.
    pub fn contains(&self, hash: &H256) -> (r: bool)
        requires
            self.wf(),
        ensures
            r == self@.contains(*hash),
    {
        self.set.contains(hash)
    }

    /// Index of `hash` in the queue.
    pub fn position(&self, hash: &H256) -> (r: Option<u32>)
        requires
            self.wf(),
        ensures
            r == (if self@.contains(*hash) {
                Some(self@.index_of(*hash) as u32)
            } else {
                None
            }),
    {
        match self.find(hash) {
            Some(i) => Some(i as u32),
            None => None,
        }
    }

    /// Takes the first digest out.
    pub fn pop_front(&mut self) -> (r: Option<H256>)
        requires
            old(self).wf(),
        ensures
            final(self).wf(),
            r == (if old(self)@.len() > 0 {
                Some(old(self)@.first())
            } else {
                None
            }),
            final(self)@ == old(self)@.skip(
                if old(self)@.len() > 0 {
                    1int
                } else {
                    0int
                },
            ),
    {
        let r = self.queue.pop_front();
        match r {
            Some(hash) => {
                proof {
                    lemma_remove_to_set(old(self)@, 0);
                    assert(old(self)@.remove(0) =~= old(self)@.skip(1));
                }
                self.set.remove(&hash);
            },
            None => {
                assert(old(self)@.skip(0) =~= old(self)@);
            },
        }
        r
    }

    /// Takes the last digest out.
    pub fn pop_back(&mut self) -> (r: Option<H256>)
        requires
            old(self).wf(),
        ensures
            final(self).wf(),
            r == (if old(self)@.len() > 0 {
                Some(old(self)@.last())
            } else {
                None
            }),
            final(self)@ == (if old(self)@.len() > 0 {
                old(self)@.drop_last()
            } else {
                old(self)@
            }),
    {
        let r = self.queue.pop_back();
        match r {
            Some(hash) => {
                proof {
                    lemma_remove_to_set(old(self)@, old(self)@.len() - 1);
                    assert(old(self)@.remove(old(self)@.len() - 1) =~= old(self)@.drop_last());
                }
                self.set.remove(&hash);
            },
            None => {},
        }
        r
    }

    /// Takes the first `n` digests out, or all of them if there are fewer,
    /// and returns them in order.
    pub fn pop_front_n(&mut self, n: u32) -> (r: Vec<H256>)
        requires
            old(self).wf(),
        ensures
            final(self).wf(),
            r@ == old(self)@.take(vstd::math::min(n as int, old(self)@.len() as int)),
            final(self)@ == old(self)@.skip(vstd::math::min(n as int, old(self)@.len() as int)),
    {
        let mut result: Vec<H256> = Vec::new();
        let mut i: u32 = 0;
        assert(old(self)@.skip(0) =~= old(self)@);
        while i < n && self.queue.len() > 0
            invariant
                i <= n,
                i <= old(self)@.len(),
                self.wf(),
                result@ == old(self)@.take(i as int),
                self@ == old(self)@.skip(i as int),
            decreases n - i,
        {
            let hash = self.pop_front();
            result.push(hash.unwrap());
            i += 1;
            assert(result@ =~= old(self)@.take(i as int));
            assert(self@ =~= old(self)@.skip(i as int));
        }
        result
    }

    /// Appends `hash`.
    pub fn push_back(&mut self, hash: H256)
        requires
            old(self).wf(),
            !old(self)@.contains(hash),
            old(self)@.len() < u32::MAX,
        ensures
            final(self).wf(),
            final(self)@ == old(self)@.push(hash),
    {
        proof {
            lemma_push_to_set(self@, hash);
        }
        self.set.insert(hash);
        self.queue.push_back(hash);
    }

    /// Appends `hashes` in order.
    pub fn push_back_n(&mut self, hashes: Vec<H256>)
        requires
            old(self).wf(),
            hashes@.no_duplicates(),
            forall|i: int| 0 <= i < hashes@.len() ==> !old(self)@.contains(#[trigger] hashes@[i]),
            old(self)@.len() + hashes@.len() <= u32::MAX,
        ensures
            final(self).wf(),
            final(self)@ == old(self)@ + hashes@,
    {
        let mut i: usize = 0;
        assert(self@ =~= old(self)@ + hashes@.take(0));
        while i < hashes.len()
            invariant
                i <= hashes@.len(),
                self.wf(),
                self@ == old(self)@ + hashes@.take(i as int),
                hashes@.no_duplicates(),
                forall|j: int|
                    0 <= j < hashes@.len() ==> !old(self)@.contains(#[trigger] hashes@[j]),
                old(self)@.len() + hashes@.len() <= u32::MAX,
            decreases hashes@.len() - i,
        {
            let hash = hashes[i];
            assert(!self@.contains(hash)) by {
                if self@.contains(hash) {
                    let k = self@.index_of(hash);
                    if k < old(self)@.len() {
                        assert(old(self)@[k] == hash);
                    } else {
                        assert(hashes@[k - old(self)@.len()] == hash);
                    }
                }
            }
            self.push_back(hash);
            i += 1;
            assert(self@ =~= old(self)@ + hashes@.take(i as int));
        }
        assert(hashes@.take(hashes@.len() as int) =~= hashes@);
    }

    /// Takes `hash` out and says where it stood.
    pub fn remove(&mut self, hash: &H256) -> (r: HashPosition)
        requires
            old(self).wf(),
        ensures
            final(self).wf(),
            r == position_in(old(self)@, *hash),
            final(self)@ == without(old(self)@, *hash),
    {
        proof {
            lemma_without(self@, *hash);
        }
        match self.find(hash) {
            None => HashPosition::Missing,
            Some(i) => {
                let len = self.queue.len();
                proof {
                    lemma_remove_to_set(self@, i as int);
                }
                self.queue.remove(i);
                self.set.remove(hash);
                if i == 0 {
                    HashPosition::Front
                } else if i == len - 1 {
                    HashPosition::Back
                } else {
                    HashPosition::Inside(i as u32)
                }
            },
        }
    }

    /// Takes every digest out and returns them in order.
    pub fn remove_all(&mut self) -> (r: Vec<H256>)
        requires
            old(self).wf(),
        ensures
            final(self).wf(),
            final(self)@ == Seq::<H256>::empty(),
            r@ == old(self)@,
    {
        let mut result: Vec<H256> = Vec::new();
        assert(old(self)@.skip(0) =~= old(self)@);
        while self.queue.len() > 0
            invariant
                self.wf(),
                result@.len() <= old(self)@.len(),
                result@ == old(self)@.take(result@.len() as int),
                self@ == old(self)@.skip(result@.len() as int),
            decreases self@.len(),
        {
            let hash = self.pop_front();
            result.push(hash.unwrap());
            assert(result@ =~= old(self)@.take(result@.len() as int));
            assert(self@ =~= old(self)@.skip(result@.len() as int));
        }
        assert(result@ =~= old(self)@);
        assert(self@ =~= Seq::<H256>::empty());
        result
    }
}

/// The queues' contents read as one sequence, the first queue first.
pub open spec fn concat(queues: Seq<Seq<H256>>) -> Seq<H256> {
    queues.flatten()
}

/// The concatenation splits around any one queue.
pub proof fn lemma_concat_around(queues: Seq<Seq<H256>>, q: int)
    requires
        0 <= q < queues.len(),
    ensures
        concat(queues) =~= concat(queues.take(q)) + queues[q] + concat(queues.skip(q + 1)),
        concat(queues.take(q + 1)) =~= concat(queues.take(q)) + queues[q],
        concat(queues.skip(q)) =~= queues[q] + concat(queues.skip(q + 1)),
{
    assert(queues =~= queues.take(q) + queues.skip(q));
    lemma_flatten_concat(queues.take(q), queues.skip(q));
    assert(queues.skip(q).drop_first() =~= queues.skip(q + 1));
    assert(queues.skip(q).first() == queues[q]);
    assert(queues.take(q + 1) =~= queues.take(q).push(queues[q]));
    queues.take(q).lemma_flatten_push(queues[q]);
}

/// Replacing one queue changes the concatenation in that queue's place only.
pub proof fn lemma_concat_update(queues: Seq<Seq<H256>>, q: int, queue: Seq<H256>)
    requires
        0 <= q < queues.len(),
    ensures
        concat(queues.update(q, queue)) =~= concat(queues.take(q)) + queue + concat(
            queues.skip(q + 1),
        ),
        concat(queues.update(q, queue)).len() == concat(queues).len() - queues[q].len()
            + queue.len(),
{
    let next = queues.update(q, queue);
    lemma_concat_around(queues, q);
    lemma_concat_around(next, q);
    assert(next.take(q) =~= queues.take(q));
    assert(next.skip(q + 1) =~= queues.skip(q + 1));
}

/// Three queues read as one are the first, then the second, then the third.
pub proof fn lemma_concat_three(queues: Seq<Seq<H256>>)
    requires
        queues.len() == 3,
    ensures
        concat(queues) =~= queues[0] + queues[1] + queues[2],
{
    lemma_concat_around(queues, 0);
    lemma_concat_around(queues, 1);
    lemma_concat_around(queues, 2);
    assert(queues.take(0) =~= Seq::<Seq<H256>>::empty());
    assert(queues.skip(3) =~= Seq::<Seq<H256>>::empty());
    assert(concat(queues.take(0)) =~= Seq::<H256>::empty());
    assert(concat(queues.skip(3)) =~= Seq::<H256>::empty());
}

/// What a well-formed chain of queues holds: at least one queue, no digest
/// twice in a queue, and a total length that fits in 32 bits.
pub open spec fn queues_wf(queues: Seq<Seq<H256>>) -> bool {
    &&& queues.len() > 0
    &&& forall|q: int| 0 <= q < queues.len() ==> (#[trigger] queues[q]).no_duplicates()
    &&& concat(queues).len() <= u32::MAX
}

/// Index of the first queue that holds `hash`.
pub open spec fn queue_of(queues: Seq<Seq<H256>>, hash: H256) -> Option<usize> {
    if exists|q: int| 0 <= q < queues.len() && (#[trigger] queues[q]).contains(hash) {
        Some(
            (choose|q: int|
                0 <= q < queues.len() && (#[trigger] queues[q]).contains(hash) && forall|p: int|
                    0 <= p < q ==> !(#[trigger] queues[p]).contains(hash)) as usize,
        )
    } else {
        None
    }
}

/// A fixed number of queues of digests. Read one after the other, the first
/// queue first, they form one sequence.
#[derive(Debug)]
pub struct HashQueueChain {
    chain: Vec<HashQueue>,
}

impl View for HashQueueChain {
    type V = Seq<Seq<H256>>;

    closed spec fn view(&self) -> Seq<Seq<H256>> {
        self.chain@.map_values(|queue: HashQueue| queue@)
    }
}

impl HashQueueChain {
    /// Each queue keeps the set of its digests.
    pub closed spec fn inv(&self) -> bool {
        forall|q: int| 0 <= q < self.chain@.len() ==> (#[trigger] self.chain@[q]).inv()
    }

    /// See [`queues_wf`].
    pub open spec fn wf(&self) -> bool {
        &&& self.inv()
        &&& queues_wf(self@)
    }

    /// A chain of `number_of_queues` empty queues.
    pub fn with_number_of_queues(number_of_queues: usize) -> (r: HashQueueChain)
        requires
            number_of_queues != 0,
        ensures
            r.wf(),
            r@ == Seq::new(number_of_queues as nat, |q: int| Seq::<H256>::empty()),
    {
        let mut chain: Vec<HashQueue> = Vec::new();
        let ghost empty = Seq::new(number_of_queues as nat, |q: int| Seq::<H256>::empty());
        while chain.len() < number_of_queues
            invariant
                chain@.len() <= number_of_queues,
                forall|q: int| 0 <= q < chain@.len() ==> (#[trigger] chain@[q]).inv(),
                empty.len() == number_of_queues,
                forall|q: int| 0 <= q < empty.len() ==> #[trigger] empty[q] == Seq::<H256>::empty(),
                chain@.map_values(|queue: HashQueue| queue@) == empty.take(chain@.len() as int),
                concat(empty.take(chain@.len() as int)).len() == 0,
            decreases number_of_queues - chain@.len(),
        {
            let ghost before = chain@;
            chain.push(HashQueue::new());
            proof {
                let n = before.len() as int;
                assert(chain@.map_values(|queue: HashQueue| queue@) =~= empty.take(n + 1));
                lemma_concat_around(empty, n);
            }
        }
        assert(empty.take(number_of_queues as int) =~= empty);
        assert(empty =~= Seq::new(number_of_queues as nat, |q: int| Seq::<H256>::empty()));
        HashQueueChain { chain }
    }

    /// Number of queues.
    pub fn number_of_queues(&self) -> (r: usize)
        ensures
            r == self@.len(),
    {
        self.chain.len()
    }

    /// Number of digests in all the queues.
    pub fn len(&self) -> (r: u32)
        requires
            self.wf(),
        ensures
            r == concat(self@).len(),
    {
        let mut total: u32 = 0;
        let mut q: usize = 0;
        while q < self.chain.len()
            invariant
                q <= self@.len(),
                self.wf(),
                total == concat(self@.take(q as int)).len(),
            decreases self@.len() - q,
        {
            proof {
                lemma_concat_around(self@, q as int);
            }
            total = total + self.chain[q].len();
            q += 1;
        }
        assert(self@.take(self@.len() as int) =~= self@);
        total
    }

    /// Number of digests in queue `queue_index`.
    pub fn len_of(&self, queue_index: usize) -> (r: u32)
        requires
            self.wf(),
            queue_index < self@.len(),
        ensures
            r == self@[queue_index as int].len(),
    {
        proof {
            lemma_concat_around(self@, queue_index as int);
        }
        self.chain[queue_index].len()
    }

    /// The first digest of queue `queue_index`.
    pub fn front_at(&self, queue_index: usize) -> (r: Option<H256>)
        requires
            queue_index < self@.len(),
        ensures
            r == (if self@[queue_index as int].len() > 0 {
                Some(self@[queue_index as int].first())
            } else {
                None
            }),
    {
        self.chain[queue_index].front()
    }

    /// The last digest of queue `queue_index`.
    pub fn back_at(&self, queue_index: usize) -> (r: Option<H256>)
        requires
            queue_index < self@.len(),
        ensures
            r == (if self@[queue_index as int].len() > 0 {
                Some(self@[queue_index as int].last())
            } else {
                None
            }),
    {
        self.chain[queue_index].back()
    }

    /// The digest before the last one of queue `queue_index`.
    pub fn pre_back_at(&self, queue_index: usize) -> (r: Option<H256>)
        requires
            queue_index < self@.len(),
        ensures
            r == (if self@[queue_index as int].len() > 1 {
                Some(self@[queue_index as int][self@[queue_index as int].len() - 2])
            } else {
                None
            }),
    {
        self.chain[queue_index].pre_back()
    }

    /// The last digest of the last queue that is not empty.
    pub fn back(&self) -> (r: Option<H256>)
        requires
            self.wf(),
        ensures
            r == (if concat(self@).len() > 0 {
                Some(concat(self@).last())
            } else {
                None
            }),
    {
        let mut q: usize = self.chain.len();
        assert(self@.skip(self@.len() as int) =~= Seq::<Seq<H256>>::empty());
        while q > 0
            invariant
                q <= self@.len(),
                concat(self@.skip(q as int)).len() == 0,
            decreases q,
        {
            q -= 1;
            proof {
                lemma_concat_around(self@, q as int);
            }
            match self.chain[q].back() {
                Some(hash) => {
                    return Some(hash);
                },
                None => {},
            }
        }
        assert(self@.skip(0) =~= self@);
        None
    }

    /// The digest at `index` of the queues read as one.
    pub fn at(&self, index: u32) -> (r: Option<H256>)
        requires
            self.wf(),
        ensures
            r == (if index < concat(self@).len() {
                Some(concat(self@)[index as int])
            } else {
                None
            }),
    {
        let mut rest: u32 = index;
        let mut q: usize = 0;
        while q < self.chain.len()
            invariant
                q <= self@.len(),
                self.wf(),
                index == concat(self@.take(q as int)).len() + rest,
            decreases self@.len() - q,
        {
            proof {
                lemma_concat_around(self@, q as int);
            }
            let queue_len = self.chain[q].len();
            if rest < queue_len {
                return self.chain[q].at(rest);
            }
            rest -= queue_len;
            q += 1;
        }
        assert(self@.take(self@.len() as int) =~= self@);
        None
    }

    /// Index of the first queue that holds `hash`.
    pub fn contains_in(&self, hash: &H256) -> (r: Option<usize>)
        requires
            self.wf(),
        ensures
            r == queue_of(self@, *hash),
            r is Some ==> r->0 < self@.len() && self@[r->0 as int].contains(*hash),
            r is Some ==> forall|p: int| 0 <= p < r->0 ==> !(#[trigger] self@[p]).contains(*hash),
            r is None ==> forall|p: int| 0 <= p < self@.len() ==> !(#[trigger] self@[p]).contains(*hash),
    {
        let mut q: usize = 0;
        while q < self.chain.len()
            invariant
                q <= self@.len(),
                self.wf(),
                forall|p: int| 0 <= p < q ==> !(#[trigger] self@[p]).contains(*hash),
            decreases self@.len() - q,
        {
            proof {
                lemma_concat_around(self@, q as int);
            }
            if self.chain[q].contains(hash) {
                proof {
                    lemma_queue_of(self@, *hash, q as int);
                }
                return Some(q);
            }
            q += 1;
        }
        None
    }

    /// Appends `hash` to queue `queue_index`.
    pub fn push_back_at(&mut self, queue_index: usize, hash: H256)
        requires
            old(self).wf(),
            queue_index < old(self)@.len(),
            !old(self)@[queue_index as int].contains(hash),
            concat(old(self)@).len() < u32::MAX,
        ensures
            final(self).wf(),
            final(self)@ == old(self)@.update(
                queue_index as int,
                old(self)@[queue_index as int].push(hash),
            ),
    {
        proof {
            lemma_concat_update(
                self@,
                queue_index as int,
                self@[queue_index as int].push(hash),
            );
            lemma_concat_around(self@, queue_index as int);
        }
        self.chain[queue_index].push_back(hash);
        assert(self@ =~= old(self)@.update(
            queue_index as int,
            old(self)@[queue_index as int].push(hash),
        ));
    }

    /// Appends `hashes`, in order, to queue `queue_index`.
    pub fn push_back_n_at(&mut self, queue_index: usize, hashes: Vec<H256>)
        requires
            old(self).wf(),
            queue_index < old(self)@.len(),
            hashes@.no_duplicates(),
            forall|i: int|
                0 <= i < hashes@.len() ==> !old(self)@[queue_index as int].contains(
                    #[trigger] hashes@[i],
                ),
            concat(old(self)@).len() + hashes@.len() <= u32::MAX,
        ensures
            final(self).wf(),
            final(self)@ == old(self)@.update(
                queue_index as int,
                old(self)@[queue_index as int] + hashes@,
            ),
    {
        proof {
            lemma_concat_update(self@, queue_index as int, self@[queue_index as int] + hashes@);
            lemma_concat_around(self@, queue_index as int);
        }
        self.chain[queue_index].push_back_n(hashes);
        assert(self@ =~= old(self)@.update(
            queue_index as int,
            old(self)@[queue_index as int] + hashes@,
        ));
    }

    /// Takes the first `n` digests out of queue `queue_index`, or all of
    /// them if there are fewer, and returns them in order.
    pub fn pop_front_n_at(&mut self, queue_index: usize, n: u32) -> (r: Vec<H256>)
        requires
            old(self).wf(),
            queue_index < old(self)@.len(),
        ensures
            final(self).wf(),
            r@ == old(self)@[queue_index as int].take(
                vstd::math::min(n as int, old(self)@[queue_index as int].len() as int),
            ),
            final(self)@ == old(self)@.update(
                queue_index as int,
                old(self)@[queue_index as int].skip(
                    vstd::math::min(n as int, old(self)@[queue_index as int].len() as int),
                ),
            ),
    {
        proof {
            let queue = self@[queue_index as int];
            lemma_concat_update(
                self@,
                queue_index as int,
                queue.skip(vstd::math::min(n as int, queue.len() as int)),
            );
            lemma_concat_around(self@, queue_index as int);
        }
        let r = self.chain[queue_index].pop_front_n(n);
        assert(self@ =~= old(self)@.update(
            queue_index as int,
            old(self)@[queue_index as int].skip(
                vstd::math::min(n as int, old(self)@[queue_index as int].len() as int),
            ),
        ));
        r
    }

    /// Takes `hash` out of queue `queue_index` and says where it stood there.
    pub fn remove_at(&mut self, queue_index: usize, hash: &H256) -> (r: HashPosition)
        requires
            old(self).wf(),
            queue_index < old(self)@.len(),
        ensures
            final(self).wf(),
            r == position_in(old(self)@[queue_index as int], *hash),
            final(self)@ == old(self)@.update(
                queue_index as int,
                without(old(self)@[queue_index as int], *hash),
            ),
    {
        proof {
            let queue = self@[queue_index as int];
            lemma_without(queue, *hash);
            lemma_concat_update(self@, queue_index as int, without(queue, *hash));
            lemma_concat_around(self@, queue_index as int);
        }
        let r = self.chain[queue_index].remove(hash);
        assert(self@ =~= old(self)@.update(
            queue_index as int,
            without(old(self)@[queue_index as int], *hash),
        ));
        r
    }

    /// Takes every digest out of queue `queue_index` and returns them in
    /// order.
    pub fn remove_all_at(&mut self, queue_index: usize) -> (r: Vec<H256>)
        requires
            old(self).wf(),
            queue_index < old(self)@.len(),
        ensures
            final(self).wf(),
            r@ == old(self)@[queue_index as int],
            final(self)@ == old(self)@.update(queue_index as int, Seq::<H256>::empty()),
    {
        proof {
            lemma_concat_update(self@, queue_index as int, Seq::<H256>::empty());
            lemma_concat_around(self@, queue_index as int);
        }
        let r = self.chain[queue_index].remove_all();
        assert(self@ =~= old(self)@.update(queue_index as int, Seq::<H256>::empty()));
        r
    }
}

/// The first queue that holds a digest is the one that [`queue_of`] names.
pub proof fn lemma_queue_of(queues: Seq<Seq<H256>>, hash: H256, q: int)
    requires
        0 <= q < queues.len(),
        queues[q].contains(hash),
        forall|p: int| 0 <= p < q ==> !(#[trigger] queues[p]).contains(hash),
    ensures
        queue_of(queues, hash) == Some(q as usize),
{
    let c = choose|c: int|
        0 <= c < queues.len() && (#[trigger] queues[c]).contains(hash) && forall|p: int|
            0 <= p < c ==> !(#[trigger] queues[p]).contains(hash);
    assert(c == q);
}

} // verus!
