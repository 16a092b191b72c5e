//! A set of digests with constant-time membership on average.

use crate::digest_map::DigestMap;
use crate::hash::H256;
use vstd::prelude::*;

verus! {

/// A set of digests.
#[derive(Debug)]
pub struct DigestSet {
    members: DigestMap<()>,
}

impl View for DigestSet {
    type V = Set<H256>;

    closed spec fn view(&self) -> Set<H256> {
        self.members@.dom()
    }
}

impl DigestSet {
    /// The buckets behind the set are consistent.
    pub closed spec fn wf(&self) -> bool {
        self.members.wf()
    }

    /// The empty set.
    pub fn new() -> (r: DigestSet)
        ensures
            r.wf(),
            r@ == Set::<H256>::empty(),
    {
        let r = DigestSet { members: DigestMap::new() };
        assert(r@ =~= Set::<H256>::empty());
        r
    }

    /// Whether `hash` is in the set.
    pub fn contains(&self, hash: &H256) -> (r: bool)
        ensures
            r == self@.contains(*hash),
    {
        self.members.contains_key(hash)
    }

    /// Puts `hash` into the set. Says whether it was not there before.
    pub fn insert(&mut self, hash: H256) -> (r: bool)
        requires
            old(self).wf(),
        ensures
            final(self).wf(),
            r == !old(self)@.contains(hash),
            final(self)@ == old(self)@.insert(hash),
    {
        let previous = self.members.insert(hash, ());
        assert(self@ =~= old(self)@.insert(hash));
        previous.is_none()
    }

    /// Takes `hash` out of the set. Says whether it was there.
    pub fn remove(&mut self, hash: &H256) -> (r: bool)
        requires
            old(self).wf(),
        ensures
            final(self).wf(),
            r == old(self)@.contains(*hash),
            final(self)@ == old(self)@.remove(*hash),
    {
        let previous = self.members.remove(hash);
        assert(self@ =~= old(self)@.remove(*hash));
        previous.is_some()
    }
}

} // verus!
