//! Nodes of lists kept in a store, linked by the ids of their pages.
use vstd::prelude::*;

verus! {

/// The id of a page in a store.
pub type StoreId = u64;

/// The id that stands for no page.
pub const STORE_ID_NONE: StoreId = 0;

/// A node of a stored list: its data and the ids of its neighbours.
pub struct DiskNode<N> {
    pub inner: N,
    next: StoreId,
    previous: StoreId,
}

impl<N> DiskNode<N> {
    /// The id of the next node's page.
    pub closed spec fn next_id(&self) -> StoreId {
        self.next
    }

    /// The id of the previous node's page.
    pub closed spec fn previous_id(&self) -> StoreId {
        self.previous
    }

    /// The node's data.
    pub closed spec fn data(&self) -> N {
        self.inner
    }

    /// A node with no neighbour.
    pub fn new(node: N) -> (r: Self)
        ensures
            r.data() == node,
            r.next_id() == STORE_ID_NONE,
            r.previous_id() == STORE_ID_NONE,
    {
        Self { inner: node, next: STORE_ID_NONE, previous: STORE_ID_NONE }
    }
}

} // verus!
