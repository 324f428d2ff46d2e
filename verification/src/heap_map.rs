//! A fixed-size associative container in one heap allocation.
use vstd::prelude::*;

verus! {

/// Key-value pairs in one boxed slice, for models whose sizes are known only
/// when they are trained.
pub struct HeapMap<K, V> {
    pub len: usize,
    pub data: Box<[(K, V)]>,
}

} // verus!
