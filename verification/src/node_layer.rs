//! Layers of nodes linked in key order, each node bounded below by a key and
//! pointing to its parent in the layer above.
use vstd::prelude::*;
use crate::linked_list::Index;

verus! {

/// The smallest key and the handle of each node of `base`, in order.
pub open spec fn layer_items<K, B: NodeLayer<K, Index>>(base: B) -> Seq<(K, Index)> {
    Seq::new(base.layer_handles().len(), |j: int| (base.key_at(base.layer_handles()[j]), base.layer_handles()[j]))
}

/// A layer of nodes in key order, named by handles: each node has a smallest
/// key and, once the layer above is built, a parent there.
pub trait NodeLayer<K, PA: Copy> {
    /// The layer is consistent.
    spec fn layer_wf(&self) -> bool;

    /// The handles of the nodes, in key order.
    spec fn layer_handles(&self) -> Seq<Index>;

    /// The smallest key of the node `h`.
    spec fn key_at(&self, h: Index) -> K;

    /// The parent of the node `h`.
    spec fn parent_at(&self, h: Index) -> Option<PA>;

    /// `self` and `other` have the same nodes, with the same data; only their
    /// parents may differ.
    spec fn same_nodes(&self, other: &Self) -> bool;

    /// Having the same nodes is an equivalence.
    proof fn lemma_same_nodes(a: &Self, b: &Self, c: &Self)
        ensures
            a.same_nodes(a),
            a.same_nodes(b) ==> b.same_nodes(a),
            a.same_nodes(b) && b.same_nodes(c) ==> a.same_nodes(c),
            a.same_nodes(b) ==> a.layer_handles() == b.layer_handles(),
            a.same_nodes(b) ==> forall|h: Index| a.layer_handles().contains(h) ==> #[trigger] a.key_at(h) == b.key_at(h),
    ;

    /// The handles of a consistent layer are distinct.
    proof fn lemma_handles_distinct(&self)
        requires
            self.layer_wf(),
        ensures
            self.layer_handles().no_duplicates(),
    ;

    /// The handle of the first node.
    fn first(&self) -> (r: Index)
        requires
            self.layer_wf(),
            self.layer_handles().len() > 0,
        ensures
            r == self.layer_handles()[0],
    ;

    /// The handle of the last node.
    fn last(&self) -> (r: Index)
        requires
            self.layer_wf(),
            self.layer_handles().len() > 0,
        ensures
            r == self.layer_handles().last(),
    ;

    /// The node after the node `ptr`, if any.
    fn next_node(&self, ptr: Index) -> (r: Option<Index>)
        requires
            self.layer_wf(),
            self.layer_handles().contains(ptr),
        ensures
            forall|k: int|
                0 <= k < self.layer_handles().len() && #[trigger] self.layer_handles()[k] == ptr ==> r == (if k + 1
                    < self.layer_handles().len() {
                    Some(self.layer_handles()[k + 1])
                } else {
                    None
                }),
    ;

    /// The smallest key of the node `ptr`.
    fn lower_bound(&self, ptr: Index) -> (r: K)
        requires
            self.layer_wf(),
            self.layer_handles().contains(ptr),
        ensures
            r == self.key_at(ptr),
    ;

    /// The parent of the node `ptr`.
    fn parent(&self, ptr: Index) -> (r: Option<PA>)
        requires
            self.layer_wf(),
            self.layer_handles().contains(ptr),
        ensures
            r == self.parent_at(ptr),
    ;

    /// Sets the parent of the node `ptr`.
    fn set_parent(&mut self, ptr: Index, parent: PA)
        requires
            old(self).layer_wf(),
            old(self).layer_handles().contains(ptr),
        ensures
            final(self).layer_wf(),
            final(self).same_nodes(old(self)),
            final(self).parent_at(ptr) == Some(parent),
            forall|h: Index|
                old(self).layer_handles().contains(h) && h != ptr ==> final(self).parent_at(h) == old(self).parent_at(h),
    ;
}

} // verus!
