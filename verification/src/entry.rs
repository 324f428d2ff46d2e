//! A key paired with a value.
use vstd::prelude::*;
use crate::traits::KeyBounded;

verus! {

/// Simple entry type containing a key and a value
#[derive(Clone, Copy, Debug)]
pub struct Entry<K, V> {
    /// Key field
    pub key: K,
    /// Value field
    pub value: V,
}

impl<K, V> Entry<K, V> {
    /// Create an entry from a key and a value
    pub fn new(key: K, value: V) -> (r: Self)
        ensures
            r.key == key,
            r.value == value,
    {
        Self { key, value }
    }
}

impl<K: Copy, V> KeyBounded<K> for Entry<K, V> {
    open spec fn bound_of(&self) -> K {
        self.key
    }

    fn lower_bound(&self) -> (r: K) {
        self.key
    }
}

} // verus!
