//! Key-partitioned memoizing cache whose entries are either pending or ready.
//!
//! A caller that finds a key absent is elected to produce its value: the
//! entry is marked pending before the producer runs, so other callers for
//! that key wait instead of producing again, while other keys stay free.

use std::collections::HashMap;
use std::hash::Hash;
use vstd::pervasive::strictly_cloned;
use vstd::prelude::*;
use vstd::std_specs::hash::obeys_key_model;

verus! {

broadcast use vstd::std_specs::hash::group_hash_axioms;

/// State of one cache entry.
pub enum Slot<V> {
    /// A producer has been elected and has not finished yet.
    Pending,
    /// The computed value.
    Ready(V),
}

/// What a caller of [`Cache::claim`] is to do next.
pub enum Claim<V> {
    /// The value is known: return it.
    Ready(V),
    /// Another caller is producing the value: wait for it.
    Wait,
    /// This caller is elected: produce the value and hand it to [`Cache::fulfil`].
    Produce,
}

/// Cloning a value of `T` yields an equal value.
pub open spec fn clone_is_exact<T: Clone>() -> bool {
    forall|a: T, b: T| #[trigger] strictly_cloned(a, b) ==> a == b
}

/// What a cache key needs: hashing and equality that agree with value equality,
/// and a clone that copies.
pub open spec fn valid_key<K: Clone>() -> bool {
    &&& obeys_key_model::<K>()
    &&& clone_is_exact::<K>()
}

/// Cache that remembers the result for each key.
pub struct Cache<K, V> {
    inner: HashMap<K, Slot<V>>,
}

impl<K, V> View for Cache<K, V> {
    type V = Map<K, Slot<V>>;

    closed spec fn view(&self) -> Map<K, Slot<V>> {
        self.inner@
    }
}

impl<K: Eq + Hash + Clone, V: Clone> Default for Cache<K, V> {
    fn default() -> (r: Self)
        ensures
            r@ == Map::<K, Slot<V>>::empty(),
    {
        Self::new()
    }
}

impl<K: Eq + Hash + Clone, V: Clone> Cache<K, V> {
    /// Creates an empty cache.
    pub fn new() -> (r: Self)
        ensures
            r@ == Map::<K, Slot<V>>::empty(),
    {
        Cache { inner: HashMap::new() }
    }

    /// Looks `key` up; an absent key is marked pending and its caller elected.
    pub fn claim(&mut self, key: &K) -> (r: Claim<V>)
        requires
            valid_key::<K>(),
            clone_is_exact::<V>(),
        ensures
            match old(self)@.get(*key) {
                Some(Slot::Ready(v)) => r == Claim::Ready(v) && final(self)@ == old(self)@,
                Some(Slot::Pending) => r == Claim::<V>::Wait && final(self)@ == old(self)@,
                None => r == Claim::<V>::Produce && final(self)@ == old(self)@.insert(
                    *key,
                    Slot::Pending,
                ),
            },
    {
        match self.inner.get(key) {
            Some(Slot::Ready(v)) => {
                let c = v.clone();
                assert(strictly_cloned(*v, c));
                Claim::Ready(c)
            },
            Some(Slot::Pending) => Claim::Wait,
            None => {
                let k = key.clone();
                assert(strictly_cloned(*key, k));
                self.inner.insert(k, Slot::Pending);
                Claim::Produce
            },
        }
    }

    /// Stores the value produced for `key`, making it ready.
    pub fn fulfil(&mut self, key: K, value: V)
        requires
            valid_key::<K>(),
        ensures
            final(self)@ == old(self)@.insert(key, Slot::Ready(value)),
    {
        self.inner.insert(key, Slot::Ready(value));
    }

    /// Retrieves the value for `key`, or produces it with `f` and stores it.
    /// `f` runs only where no value is stored for `key`.
    pub fn get_or_insert_with<F: FnOnce(K) -> V>(&mut self, key: K, f: F) -> (r: V)
        requires
            valid_key::<K>(),
            clone_is_exact::<V>(),
            f.requires((key,)),
        ensures
            match old(self)@.get(key) {
                Some(Slot::Ready(v)) => r == v && final(self)@ == old(self)@,
                _ => f.ensures((key,), r) && final(self)@ == old(self)@.insert(
                    key,
                    Slot::Ready(r),
                ),
            },
    {
        match self.claim(&key) {
            Claim::Ready(v) => v,
            _ => {
                let k = key.clone();
                assert(strictly_cloned(key, k));
                let v = f(k);
                let stored = v.clone();
                assert(strictly_cloned(v, stored));
                self.fulfil(key, stored);
                v
            },
        }
    }
}

/// Single flight: once a caller is elected for `key`, every later `claim` of
/// `key` waits until the value is stored, and from then on every caller gets
/// that one value, whatever producer it brings.
pub proof fn lemma_single_flight<K, V>(before: Map<K, Slot<V>>, key: K, value: V)
    requires
        !before.contains_key(key),
    ensures
        before.insert(key, Slot::Pending).get(key) == Some(Slot::<V>::Pending),
        before.insert(key, Slot::Pending).insert(key, Slot::Ready(value)).get(key) == Some(
            Slot::Ready(value),
        ),
{
}

/// Independence: electing a producer for one key changes nothing that a
/// `claim` of another key decides on.
pub proof fn lemma_independent_keys<K, V>(before: Map<K, Slot<V>>, key: K, other: K, value: V)
    requires
        key != other,
    ensures
        before.insert(key, Slot::Pending).get(other) == before.get(other),
        before.insert(key, Slot::Ready(value)).get(other) == before.get(other),
{
}

} // verus!
