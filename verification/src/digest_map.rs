//! A map keyed by digests with constant-time lookup on average: entries are
//! spread over buckets by the leading word of their key.

use crate::hash::H256;
use crate::hash_queue::lemma_index_of_unique;
use std::collections::HashMap;
use vstd::prelude::*;

verus! {

broadcast use vstd::std_specs::hash::group_hash_axioms;

/// The keys of the entries of `bucket`, in order.
pub open spec fn keys_of<V>(bucket: Seq<(H256, V)>) -> Seq<H256> {
    bucket.map_values(|entry: (H256, V)| entry.0)
}

/// Whether the bucket of `hash` holds an entry for it.
pub open spec fn in_buckets<V>(buckets: Map<u64, Vec<(H256, V)>>, hash: H256) -> bool {
    buckets.contains_key(hash.w0) && keys_of(buckets[hash.w0]@).contains(hash)
}

/// The value that the bucket of `hash` holds for it.
pub open spec fn value_in_buckets<V>(buckets: Map<u64, Vec<(H256, V)>>, hash: H256) -> V {
    buckets[hash.w0]@[keys_of(buckets[hash.w0]@).index_of(hash)].1
}

/// A map from digests to values.
#[derive(Debug)]
pub struct DigestMap<V> {
    buckets: HashMap<u64, Vec<(H256, V)>>,
}

impl<V> View for DigestMap<V> {
    type V = Map<H256, V>;

    closed spec fn view(&self) -> Map<H256, V> {
        Map::new(
            |hash: H256| in_buckets(self.buckets@, hash),
            |hash: H256| value_in_buckets(self.buckets@, hash),
        )
    }
}

impl<V> DigestMap<V> {
    /// No bucket holds two entries for one digest.
    pub closed spec fn wf(&self) -> bool {
        forall|key: u64| #[trigger]
            self.buckets@.contains_key(key) ==> keys_of(self.buckets@[key]@).no_duplicates()
    }

    /// The empty map.
    pub fn new() -> (r: DigestMap<V>)
        ensures
            r.wf(),
            r@ == Map::<H256, V>::empty(),
    {
        let r = DigestMap { buckets: HashMap::new() };
        assert(r@ =~= Map::<H256, V>::empty());
        r
    }

    /// Whether the map holds a value for `hash`.
    pub fn contains_key(&self, hash: &H256) -> (r: bool)
        ensures
            r == self@.contains_key(*hash),
    {
        match self.buckets.get(&hash.w0) {
            Some(bucket) => position(bucket, hash).is_some(),
            None => false,
        }
    }

    /// The value that the map holds for `hash`.
    pub fn get(&self, hash: &H256) -> (r: Option<&V>)
        requires
            self.wf(),
        ensures
            r is Some == self@.contains_key(*hash),
            r is Some ==> *r->0 == self@[*hash],
    {
        match self.buckets.get(&hash.w0) {
            Some(bucket) => match position(bucket, hash) {
                Some(i) => {
                    proof {
                        lemma_index_of_unique(keys_of(bucket@), i as int);
                    }
                    Some(&bucket[i].1)
                },
                None => None,
            },
            None => None,
        }
    }

    /// Maps `hash` to `value`. Returns the value that it was mapped to.
    pub fn insert(&mut self, hash: H256, value: V) -> (r: Option<V>)
        requires
            old(self).wf(),
        ensures
            final(self).wf(),
            r == (if old(self)@.contains_key(hash) {
                Some(old(self)@[hash])
            } else {
                None
            }),
            final(self)@ == old(self)@.insert(hash, value),
    {
        let key = hash.w0;
        let mut bucket = match self.buckets.remove(&key) {
            Some(bucket) => bucket,
            None => Vec::new(),
        };
        let ghost before = bucket@;
        let found = position(&bucket, &hash);
        let previous = match found {
            Some(i) => {
                proof {
                    lemma_index_of_unique(keys_of(before), i as int);
                }
                let entry = bucket.remove(i);
                Some(entry.1)
            },
            None => None,
        };
        let ghost without = bucket@;
        bucket.push((hash, value));
        let ghost after = bucket@;
        proof {
            lemma_entries_without(before, hash);
            assert(without == entries_without(before, hash));
            assert(keys_of(after) =~= keys_of(without).push(hash));
            assert(keys_of(after).no_duplicates()) by {
                assert forall|i: int, j: int|
                    0 <= i < after.len() && 0 <= j < after.len() && i != j implies keys_of(
                    after,
                )[i] != keys_of(after)[j] by {
                    if i < without.len() && j < without.len() {
                        assert(keys_of(without)[i] != keys_of(without)[j]);
                    } else {
                        let k = if i < without.len() {
                            i
                        } else {
                            j
                        };
                        assert(keys_of(without).contains(keys_of(without)[k]));
                    }
                }
            }
            lemma_index_of_unique(keys_of(after), without.len() as int);
        }
        self.buckets.insert(key, bucket);
        assert(self@ =~= old(self)@.insert(hash, value)) by {
            assert forall|other: H256| #[trigger]
                self@.contains_key(other) <==> old(self)@.insert(hash, value).contains_key(
                    other,
                ) by {
                if other.w0 == key && other != hash {
                    lemma_entry_kept(before, hash, after, other);
                }
            }
            assert forall|other: H256| self@.contains_key(other) implies #[trigger] self@[other]
                == old(self)@.insert(hash, value)[other] by {
                if other.w0 == key && other != hash {
                    lemma_entry_kept(before, hash, after, other);
                }
            }
        }
        previous
    }

    /// Takes the value of `hash` out of the map and returns it.
    pub fn remove(&mut self, hash: &H256) -> (r: Option<V>)
        requires
            old(self).wf(),
        ensures
            final(self).wf(),
            r == (if old(self)@.contains_key(*hash) {
                Some(old(self)@[*hash])
            } else {
                None
            }),
            final(self)@ == old(self)@.remove(*hash),
    {
        let key = hash.w0;
        match self.buckets.remove(&key) {
            None => {
                assert(self@ =~= old(self)@.remove(*hash));
                None
            },
            Some(bucket) => {
                let mut bucket = bucket;
                let ghost before = bucket@;
                let previous = match position(&bucket, hash) {
                    Some(i) => {
                        proof {
                            lemma_index_of_unique(keys_of(before), i as int);
                        }
                        let entry = bucket.remove(i);
                        Some(entry.1)
                    },
                    None => None,
                };
                let ghost after = bucket@;
                proof {
                    lemma_entries_without(before, *hash);
                    assert(after == entries_without(before, *hash));
                }
                if bucket.len() > 0 {
                    self.buckets.insert(key, bucket);
                }
                assert(self@ =~= old(self)@.remove(*hash)) by {
                    assert forall|other: H256| #[trigger]
                        self@.contains_key(other) <==> old(self)@.remove(*hash).contains_key(
                            other,
                        ) by {
                        if other.w0 == key && other != *hash {
                            lemma_entry_kept(before, *hash, after, other);
                        }
                    }
                    assert forall|other: H256| self@.contains_key(other) implies #[trigger] self@[other]
                        == old(self)@.remove(*hash)[other] by {
                        if other.w0 == key && other != *hash {
                            lemma_entry_kept(before, *hash, after, other);
                        }
                    }
                }
                previous
            },
        }
    }
}

/// The entries of `bucket` but the one for `hash`, in order.
pub open spec fn entries_without<V>(bucket: Seq<(H256, V)>, hash: H256) -> Seq<(H256, V)> {
    if keys_of(bucket).contains(hash) {
        bucket.remove(keys_of(bucket).index_of(hash))
    } else {
        bucket
    }
}

/// Taking the entry for a digest out of a bucket with distinct keys leaves
/// distinct keys and no entry for that digest.
pub proof fn lemma_entries_without<V>(bucket: Seq<(H256, V)>, hash: H256)
    requires
        keys_of(bucket).no_duplicates(),
    ensures
        keys_of(entries_without(bucket, hash)).no_duplicates(),
        !keys_of(entries_without(bucket, hash)).contains(hash),
{
    let keys = keys_of(bucket);
    let rest = entries_without(bucket, hash);
    if keys.contains(hash) {
        let i = keys.index_of(hash);
        assert(keys_of(rest) =~= keys.remove(i));
        assert forall|a: int, b: int|
            0 <= a < rest.len() && 0 <= b < rest.len() && a != b implies keys_of(rest)[a]
            != keys_of(rest)[b] by {
            let x = if a < i {
                a
            } else {
                a + 1
            };
            let y = if b < i {
                b
            } else {
                b + 1
            };
            assert(keys[x] != keys[y]);
        }
        if keys_of(rest).contains(hash) {
            let j = keys_of(rest).index_of(hash);
            let x = if j < i {
                j
            } else {
                j + 1
            };
            assert(keys[x] == keys[i]);
        }
    }
}

/// An entry for another digest than the one that left or came is in the
/// bucket after the change if it was before, with the same value.
pub proof fn lemma_entry_kept<V>(
    before: Seq<(H256, V)>,
    hash: H256,
    after: Seq<(H256, V)>,
    other: H256,
)
    requires
        keys_of(before).no_duplicates(),
        keys_of(after).no_duplicates(),
        other != hash,
        after == entries_without(before, hash) || exists|value: V|
            after == entries_without(before, hash).push((hash, value)),
    ensures
        keys_of(after).contains(other) == keys_of(before).contains(other),
        keys_of(after).contains(other) ==> after[keys_of(after).index_of(other)].1
            == before[keys_of(before).index_of(other)].1,
{
    let rest = entries_without(before, hash);
    let keys = keys_of(before);
    let cut = if keys.contains(hash) {
        keys.index_of(hash)
    } else {
        before.len() as int
    };
    if keys.contains(other) {
        let j = keys.index_of(other);
        let k = if j < cut {
            j
        } else {
            j - 1
        };
        assert(rest[k] == before[j]);
        assert(keys_of(after)[k] == other);
        lemma_index_of_unique(keys_of(after), k);
    }
    if keys_of(after).contains(other) {
        let k = keys_of(after).index_of(other);
        assert(k < rest.len());
        let j = if k < cut {
            k
        } else {
            k + 1
        };
        assert(before[j] == rest[k]);
        assert(keys[j] == other);
        lemma_index_of_unique(keys, j);
    }
}

fn position<V>(bucket: &Vec<(H256, V)>, hash: &H256) -> (r: Option<usize>)
    ensures
        r is Some == keys_of(bucket@).contains(*hash),
        r is Some ==> r->0 < bucket@.len() && bucket@[r->0 as int].0 == *hash,
{
    let mut i: usize = 0;
    while i < bucket.len()
        invariant
            i <= bucket@.len(),
            forall|j: int| 0 <= j < i ==> keys_of(bucket@)[j] != *hash,
        decreases bucket@.len() - i,
    {
        if bucket[i].0 == *hash {
            assert(keys_of(bucket@)[i as int] == *hash);
            return Some(i);
        }
        i += 1;
    }
    None
}

} // verus!
