//! Lists of values by key, on a hash map.

use vstd::prelude::*;
use std::collections::HashMap;
use vstd::std_specs::hash::group_hash_axioms;

verus! {

broadcast use group_hash_axioms;

/// The key of a pair of indices: the first index in the high half, the
/// second in the low half.
pub open spec fn pair_key_of(a: usize, b: usize) -> int {
    a * 0x1_0000_0000_0000_0000 + b
}

/// Pairs with the same key are the same pair.
pub proof fn lemma_pair_key_injective(a: usize, b: usize, c: usize, d: usize)
    ensures
        pair_key_of(a, b) == pair_key_of(c, d) <==> (a == c && b == d),
        0 <= pair_key_of(a, b) <= u128::MAX,
{
}

/// Computes the key of a pair of indices.
pub fn pair_key(a: usize, b: usize) -> (r: u128)
    ensures
        r == pair_key_of(a, b),
{
    (a as u128) * 0x1_0000_0000_0000_0000 + (b as u128)
}

/// For each key the list of the values that were added under it, in the
/// order in which they were added.
pub struct Buckets<V> {
    lists: HashMap<u128, Vec<V>>,
}

impl<V> Buckets<V> {
    /// The values under a key; none for a key that was never used.
    pub closed spec fn bucket(&self, key: int) -> Seq<V> {
        if 0 <= key <= u128::MAX && self.lists@.contains_key(key as u128) {
            self.lists@[key as u128]@
        } else {
            Seq::empty()
        }
    }

    /// No values under any key.
    pub fn new() -> (r: Self)
        ensures
            forall|key: int| #[trigger] r.bucket(key) == Seq::<V>::empty(),
    {
        Buckets { lists: HashMap::new() }
    }

    /// The values under a key.
    pub fn get(&self, key: u128) -> (r: Option<&Vec<V>>)
        ensures
            match r {
                Some(values) => values@ == self.bucket(key as int),
                None => self.bucket(key as int) == Seq::<V>::empty(),
            },
    {
        self.lists.get(&key)
    }

    /// Adds a value at the end of the list of a key.
    pub fn add(&mut self, key: u128, value: V)
        ensures
            final(self).bucket(key as int) == old(self).bucket(key as int).push(value),
            forall|other: int|
                other != key ==> #[trigger] final(self).bucket(other) == old(self).bucket(other),
    {
        let mut values: Vec<V> = match self.lists.remove(&key) {
            Some(values) => values,
            None => Vec::new(),
        };
        values.push(value);
        self.lists.insert(key, values);
        proof {
            assert forall|other: int| other != key implies #[trigger] self.bucket(other) == old(
                self,
            ).bucket(other) by {
                if 0 <= other <= u128::MAX {
                    assert(other as u128 != key);
                }
            }
        }
    }
}

} // verus!
