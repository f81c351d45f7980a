//! An insertion-ordered association list, searched front to back.

use std::ops::Index;
use vstd::prelude::*;
use vstd::std_specs::cmp::PartialEqSpec;

verus! {

/// Pairs of key and value in the order in which they were added.
pub struct VecMap<K, V>(pub Vec<(K, V)>);

impl<K: Eq, V> VecMap<K, V> {
    /// The keys, in insertion order.
    pub open spec fn keys(&self) -> Seq<K> {
        Seq::new(self.0@.len(), |i: int| self.0@[i].0)
    }

    /// Whether the entry at `i` has a key that compares equal to `key`.
    pub open spec fn matches_at(&self, i: int, key: K) -> bool {
        0 <= i < self.0@.len() && self.0@[i].0.eq_spec(&key)
    }

    /// Whether `i` is the first entry whose key compares equal to `key`.
    pub open spec fn first_match(&self, key: K, i: int) -> bool {
        self.matches_at(i, key) && forall|j: int| 0 <= j < i ==> !self.matches_at(j, key)
    }

    /// Whether no entry has a key that compares equal to `key`.
    pub open spec fn no_match(&self, key: K) -> bool {
        forall|j: int| 0 <= j < self.0@.len() ==> !self.matches_at(j, key)
    }

    /// Whether some entry has `key`.
    pub fn contains_key(&self, key: &K) -> (found: bool)
        ensures
            K::obeys_eq_spec() ==> found == !self.no_match(*key),
    {
        self.position(key).is_some()
    }

    /// The index of the first entry with `key`, or `None` when no entry has it.
    pub fn position(&self, key: &K) -> (at: Option<usize>)
        ensures
            at matches Some(i) ==> i < self.0@.len(),
            K::obeys_eq_spec() ==> match at {
                Some(i) => self.first_match(*key, i as int),
                None => self.no_match(*key),
            },
    {
        let mut i: usize = 0;
        while i < self.0.len()
            invariant
                i <= self.0@.len(),
                K::obeys_eq_spec() ==> forall|j: int| 0 <= j < i ==> !self.matches_at(j, *key),
            decreases self.0@.len() - i,
        {
            if self.0[i].0 == *key {
                return Some(i);
            }
            i += 1;
        }
        None
    }
}

impl<K: Eq, V> vstd::std_specs::core::IndexSpecImpl<usize> for VecMap<K, V> {
    open spec fn index_req(&self, index: &usize) -> bool {
        *index < self.0@.len()
    }
}

impl<K: Eq, V> Index<usize> for VecMap<K, V> {
    type Output = V;

    /// The value of the entry at `index`.
    fn index(&self, index: usize) -> (value: &V)
        ensures
            *value == self.0@[index as int].1,
    {
        &self.0[index].1
    }
}

impl<K: Clone, V: Clone> Clone for VecMap<K, V> {
    /// A map with clones of the entries, in the same order.
    fn clone(&self) -> (copy: Self)
        ensures
            copy.0@.len() == self.0@.len(),
    {
        Self(self.0.clone())
    }
}

} // verus!
