//! An in-memory layer of B-tree nodes, kept in key order.
use vstd::prelude::*;
use crate::entry::Entry;
use crate::node::{entry_keys, finds, inserted, lemma_finds_entry, lemma_inserted_lookup, lemma_split_routes, BTreeNode};
use crate::search::sorted_keys;
use crate::traits::StaticBounded;
use crate::linked_list::{Index, LinkedList};
use crate::node_layer::{layer_items, NodeLayer};
use vstd::arithmetic::div_mod::{lemma_div_is_ordered, lemma_div_pos_is_pos, lemma_fundamental_div_mod_converse};

verus! {

/// The pairs of `items` as entries.
pub open spec fn item_entries<K, V>(items: Seq<(K, V)>) -> Seq<Entry<K, V>> {
    items.map_values(|p: (K, V)| Entry { key: p.0, value: p.1 })
}

/// The keys of `items` increase strictly.
pub open spec fn items_sorted<K: StaticBounded, V>(items: Seq<(K, V)>) -> bool {
    forall|i: int, j: int| 0 <= i < j < items.len() ==> items[i].0.key_int() < items[j].0.key_int()
}

/// `nodes` is how a fill with nodes of `h` entries lays out `entries`: the
/// entries in order, every node but the last one holding `h` of them, the last
/// one at most `h` (and at least one when there is any entry).
pub open spec fn chunked<K, V>(nodes: Seq<Seq<Entry<K, V>>>, entries: Seq<Entry<K, V>>, h: int) -> bool {
    &&& nodes.len() >= 1
    &&& nodes.flatten() == entries
    &&& forall|j: int| 0 <= j < nodes.len() - 1 ==> (#[trigger] nodes[j]).len() == h
    &&& nodes.last().len() <= h
    &&& entries.len() > 0 ==> nodes.last().len() >= 1
}

/// `nodes` is how a fill of nodes of fanout `fanout` lays out `items`: at
/// least one node and at most one more than there are items; for sorted items
/// and a fanout of at least two, the entries in order, each node but the last
/// one holding half of the fanout; for a smaller fanout, an empty node, then
/// one node per item.
pub open spec fn fill_layout<K: StaticBounded, V>(nodes: Seq<Seq<Entry<K, V>>>, items: Seq<(K, V)>, fanout: int) -> bool {
    &&& 1 <= nodes.len() <= items.len() + 1
    &&& fanout / 2 >= 1 && items_sorted(items) ==> chunked(nodes, item_entries(items), fanout / 2)
    &&& fanout / 2 == 0 ==> {
        &&& nodes.len() == items.len() + 1
        &&& nodes[0].len() == 0
        &&& forall|j: int| 0 <= j < items.len() ==> #[trigger] nodes[j + 1] == seq![item_entries(items)[j]]
    }
}

/// The entries of each node of a list of B-tree nodes, in list order.
pub open spec fn node_views<K, V, const FANOUT: usize, PA>(l: LinkedList<BTreeNode<K, V, FANOUT>, PA>) -> Seq<
    Seq<Entry<K, V>>,
> {
    l.contents().map_values(|n: BTreeNode<K, V, FANOUT>| n@)
}

/// A layer of B-tree nodes in key order, linked in a list, each with the
/// address of its parent in the layer above once that is known. It has no node
/// until it is filled.
pub struct MemoryBTreeLayer<K, V, const FANOUT: usize, PA> {
    inner: Option<LinkedList<BTreeNode<K, V, FANOUT>, PA>>,
}

impl<K, V, const FANOUT: usize, PA> View for MemoryBTreeLayer<K, V, FANOUT, PA> {
    type V = Seq<Seq<Entry<K, V>>>;

    closed spec fn view(&self) -> Seq<Seq<Entry<K, V>>> {
        match self.inner {
            None => Seq::empty(),
            Some(l) => node_views(l),
        }
    }
}

impl<K: StaticBounded, V, const FANOUT: usize, PA> MemoryBTreeLayer<K, V, FANOUT, PA> {
    /// The handles of the nodes, in key order.
    pub closed spec fn handles(&self) -> Seq<Index> {
        match self.inner {
            None => Seq::empty(),
            Some(l) => l.handles(),
        }
    }

    /// The entries of the node `h`.
    pub closed spec fn node_view(&self, h: Index) -> Seq<Entry<K, V>> {
        self.inner->Some_0.node_of(h).data()@
    }

    /// The address of the parent of the node `h`.
    pub closed spec fn parent_of(&self, h: Index) -> Option<PA> {
        self.inner->Some_0.node_of(h).parent_link()
    }

    /// The list of the nodes is consistent and every node is well formed.
    pub closed spec fn list_ok(&self) -> bool {
        match self.inner {
            None => true,
            Some(l) => l.wf() && forall|k: int| 0 <= k < l.contents().len() ==> (#[trigger] l.contents()[k]).wf(),
        }
    }

    /// The layer is consistent, and its view is the entries of its nodes in
    /// the order of their handles.
    pub open spec fn wf(&self) -> bool {
        &&& self.list_ok()
        &&& self@.len() == self.handles().len()
        &&& self.handles().no_duplicates()
        &&& forall|k: int| 0 <= k < self@.len() ==> #[trigger] self@[k] == self.node_view(self.handles()[k])
        &&& forall|k: int| 0 <= k < self@.len() ==> sorted_keys(entry_keys(#[trigger] self@[k])) && self@[k].len() <= FANOUT
    }

    /// The position of a node among the nodes.
    pub open spec fn pos_of(&self, h: Index) -> int {
        choose|k: int| 0 <= k < self.handles().len() && self.handles()[k] == h
    }

    proof fn lemma_wf_of_list(&self)
        requires
            self.inner is Some,
            self.list_ok(),
        ensures
            self.wf(),
    {
        let l = self.inner->Some_0;
        assert forall|k: int| 0 <= k < self@.len() implies #[trigger] self@[k] == self.node_view(self.handles()[k]) by {}
        assert forall|k: int| 0 <= k < self@.len() implies sorted_keys(entry_keys(#[trigger] self@[k])) && self@[k].len()
            <= FANOUT by {
            assert(l.contents()[k].wf());
        }
    }

    /// A layer without nodes.
    pub fn empty() -> (r: Self)
        ensures
            r.wf(),
            r@ == Seq::<Seq<Entry<K, V>>>::empty(),
    {
        Self { inner: None }
    }

    /// The node `ptr`.
    pub fn deref(&self, ptr: Index) -> (r: &BTreeNode<K, V, FANOUT>)
        requires
            self.wf(),
            self.handles().contains(ptr),
        ensures
            r@ == self.node_view(ptr),
    {
        let l = self.inner.as_ref().unwrap();
        proof {
            l.lemma_links(l.pos_of(ptr));
        }
        l.get(ptr)
    }

    /// The handle of the first node.
    pub fn first(&self) -> (r: Index)
        requires
            self.wf(),
            self@.len() > 0,
        ensures
            r == self.handles()[0],
    {
        self.inner.as_ref().unwrap().first()
    }

    /// Takes the nodes out of the layer, in key order; the layer is left
    /// without nodes.
    pub fn take_nodes(&mut self) -> (r: Vec<BTreeNode<K, V, FANOUT>>)
        requires
            old(self).wf(),
            old(self)@.len() >= 1,
        ensures
            final(self).wf(),
            final(self)@.len() == 0,
            r@.len() == old(self)@.len(),
            forall|j: int| 0 <= j < r@.len() ==> (#[trigger] r@[j])@ == old(self)@[j] && r@[j].wf(),
    {
        let ghost vs = self@;
        let ghost hs = self.handles();
        let mut ptr = self.first();
        let mut list = self.inner.take().unwrap();
        proof {
            assert forall|j: int| 0 <= j < hs.len() implies (#[trigger] list.contents()[j])@ == vs[j] && list.contents()[j].wf() by {
                assert(vs[j] == old(self).node_view(hs[j]));
            }
        }
        let mut out: Vec<BTreeNode<K, V, FANOUT>> = Vec::new();
        let mut k: usize = 0;
        loop
            invariant_except_break
                list.wf(),
                list.handles() == hs,
                hs.len() == vs.len(),
                0 <= k < hs.len(),
                ptr == hs[k as int],
                out@.len() == k,
                forall|j: int| 0 <= j < k ==> (#[trigger] out@[j])@ == vs[j] && out@[j].wf(),
                forall|j: int| k <= j < hs.len() ==> (#[trigger] list.contents()[j])@ == vs[j] && list.contents()[j].wf(),
            ensures
                out@.len() == vs.len(),
                forall|j: int| 0 <= j < out@.len() ==> (#[trigger] out@[j])@ == vs[j] && out@[j].wf(),
            decreases hs.len() - k,
        {
            proof {
                assert(list.pos_of(ptr) == k) by {
                    let q = list.pos_of(ptr);
                    assert(hs[q] == hs[k as int]);
                }
                assert(list.contents()[k as int] == list.node_of(ptr).data());
            }
            let node = list.replace_data(ptr, BTreeNode::empty());
            out.push(node);
            proof {
                list.lemma_links(k as int);
            }
            let nx = list.deref(ptr).next();
            match nx {
                Some(n) => {
                    ptr = n;
                    k = out.len();
                },
                None => {
                    break;
                },
            }
        }
        proof {
            assert(self@ =~= Seq::<Seq<Entry<K, V>>>::empty());
        }
        out
    }

    /// The handle of the last node.
    pub fn last(&self) -> (r: Index)
        requires
            self.wf(),
            self@.len() > 0,
        ensures
            r == self.handles().last(),
    {
        self.inner.as_ref().unwrap().last()
    }

    /// The number of slots that the layer's list has handed out.
    pub closed spec fn slot_count(&self) -> nat {
        self.inner->Some_0.slot_count()
    }

    /// The node after the node `ptr`, if any.
    pub fn next(&self, ptr: Index) -> (r: Option<Index>)
        requires
            self.wf(),
            self.handles().contains(ptr),
        ensures
            r == (if self.pos_of(ptr) + 1 < self.handles().len() {
                Some(self.handles()[self.pos_of(ptr) + 1])
            } else {
                None
            }),
    {
        let l = self.inner.as_ref().unwrap();
        proof {
            l.lemma_links(l.pos_of(ptr));
        }
        l.deref(ptr).next()
    }

    /// The address of the parent of the node `ptr`.
    pub fn parent(&self, ptr: Index) -> (r: Option<PA>)
        where
            PA: Copy,
        requires
            self.wf(),
            self.handles().contains(ptr),
        ensures
            r == self.parent_of(ptr),
    {
        let l = self.inner.as_ref().unwrap();
        proof {
            l.lemma_links(l.pos_of(ptr));
        }
        l.parent(ptr)
    }

    /// Sets the address of the parent of the node `ptr`.
    pub fn set_parent(&mut self, ptr: Index, parent: PA)
        requires
            old(self).wf(),
            old(self).handles().contains(ptr),
        ensures
            final(self).wf(),
            final(self)@ == old(self)@,
            final(self).handles() == old(self).handles(),
            final(self).parent_of(ptr) == Some(parent),
            forall|h: Index|
                old(self).handles().contains(h) && h != ptr ==> final(self).parent_of(h) == old(self).parent_of(h),
            final(self).slot_count() == old(self).slot_count(),
    {
        let mut list = self.inner.take().unwrap();
        let ghost l0 = list;
        list.set_parent(ptr, parent);
        self.inner = Some(list);
        proof {
            assert(list.contents() == l0.contents());
            self.lemma_wf_of_list();
        }
    }

    /// An insert of `key` and `value` into the node `ptr` is possible: a full
    /// node has a parent and an entry, and the half that the entry goes to has
    /// room for it or holds its key already.
    pub open spec fn can_insert(&self, key: K, ptr: Index) -> bool {
        &&& self.wf()
        &&& self.handles().contains(ptr)
        &&& self.slot_count() < usize::MAX
        &&& ({
                let n = self.node_view(ptr);
                n.len() >= FANOUT ==> {
                    &&& self.parent_of(ptr) is Some
                    &&& n.len() > 0
                    &&& (n.len() >= 2 || key.key_int() < n[(n.len() / 2) as int].key.key_int() || exists|i: int|
                        0 <= i < n.len() && #[trigger] n[i].key.key_int() == key.key_int())
                }
            })
    }

    /// `s1` and `r` are what an insert of `key` and `value` into the node `ptr`
    /// of `s0` gives: the entry in the node, or in the half of it that it falls
    /// in after a split, and the new node's smallest key, handle and parent.
    pub open spec fn inserted_into(s0: Self, s1: Self, key: K, value: V, ptr: Index, r: Option<(K, Index, PA)>) -> bool {
        &&& s1.wf()
        &&& forall|h: Index| s0.handles().contains(h) ==> s1.parent_of(h) == s0.parent_of(h)
        &&& ({
                let p = s0.pos_of(ptr);
                let vs = s0@;
                let ws = s1@;
                let n = vs[p];
                let m = (n.len() / 2) as int;
                &&& n.len() < FANOUT ==> {
                    &&& r is None
                    &&& s1.handles() == s0.handles()
                    &&& ws.len() == vs.len()
                    &&& forall|q: int| 0 <= q < vs.len() && q != p ==> #[trigger] ws[q] == vs[q]
                    &&& exists|rv: Option<V>| #[trigger] inserted(n, ws[p], key, value, rv)
                }
                &&& n.len() >= FANOUT ==> {
                    &&& r matches Some(t) && {
                        &&& Some(t.2) == s0.parent_of(ptr)
                        &&& !s0.handles().contains(t.1)
                        &&& s1.handles() == s0.handles().insert(p + 1, t.1)
                        &&& s1.parent_of(t.1) is None
                        &&& ws.len() == vs.len() + 1
                        &&& forall|q: int| 0 <= q < p ==> #[trigger] ws[q] == vs[q]
                        &&& forall|q: int| p + 1 < q < ws.len() ==> #[trigger] ws[q] == vs[q - 1]
                        &&& key.key_int() < n[m].key.key_int() ==> {
                            &&& exists|rv: Option<V>| #[trigger] inserted(n.take(m), ws[p], key, value, rv)
                            &&& ws[p + 1] == n.skip(m)
                        }
                        &&& key.key_int() >= n[m].key.key_int() ==> {
                            &&& ws[p] == n.take(m)
                            &&& exists|rv: Option<V>| #[trigger] inserted(n.skip(m), ws[p + 1], key, value, rv)
                        }
                        &&& ws[p + 1].len() > 0
                        &&& t.0 == ws[p + 1][0].key
                    }
                }
            })
    }

    /// After an insert into the node `ptr`, a lookup of the key in the node
    /// that took the entry finds the value: in `ptr` itself, or, after a split,
    /// in the half whose keys the key falls among (`ptr` for the lower one,
    /// the new node for the upper one).
    pub proof fn lemma_insert_then_find(s0: Self, s1: Self, key: K, value: V, ptr: Index, r: Option<(K, Index, PA)>)
        requires
            s0.wf(),
            s0.handles().contains(ptr),
            Self::inserted_into(s0, s1, key, value, ptr, r),
        ensures
            ({
                let n = s0.node_view(ptr);
                let goes_to = match r {
                    None => ptr,
                    Some(t) => if key.key_int() < n[(n.len() / 2) as int].key.key_int() {
                        ptr
                    } else {
                        t.1
                    },
                };
                finds(s1.node_view(goes_to), key.key_int(), Some(value))
            }),
    {
        let p = s0.pos_of(ptr);
        assert(s0.handles()[p] == ptr);
        let n = s0@[p];
        let m = (n.len() / 2) as int;
        assert(n == s0.node_view(ptr));
        match r {
            None => {
                assert(s1.handles()[p] == ptr);
                let rv = choose|rv: Option<V>| #[trigger] inserted(n, s1@[p], key, value, rv);
                lemma_inserted_lookup(n, s1@[p], key, value, rv, key.key_int(), None);
            },
            Some(t) => {
                assert(s1.handles()[p] == ptr);
                assert(s1.handles()[p + 1] == t.1);
                if key.key_int() < n[m].key.key_int() {
                    let rv = choose|rv: Option<V>| #[trigger] inserted(n.take(m), s1@[p], key, value, rv);
                    lemma_inserted_lookup(n.take(m), s1@[p], key, value, rv, key.key_int(), None);
                } else {
                    let rv = choose|rv: Option<V>| #[trigger] inserted(n.skip(m), s1@[p + 1], key, value, rv);
                    lemma_inserted_lookup(n.skip(m), s1@[p + 1], key, value, rv, key.key_int(), None);
                }
            },
        }
    }

    /// Inserts an entry into the node `ptr`. A full node is first split in two
    /// halves, the upper one going to a new node right after it, and the entry
    /// goes into the half among whose keys it falls; the new node's smallest
    /// key and handle, and the split node's parent, are then returned so that
    /// the layer above can take the new node.
    #[verifier::spinoff_prover]
    #[verifier::rlimit(50)]
    pub fn insert(&mut self, key: K, value: V, ptr: Index) -> (r: Option<(K, Index, PA)>)
        where
            PA: Copy,
        requires
            old(self).can_insert(key, ptr),
        ensures
            Self::inserted_into(*old(self), *final(self), key, value, ptr, r),
            r is None ==> {
                &&& finds(final(self).node_view(ptr), key.key_int(), Some(value))
                &&& forall|i: int|
                    0 <= i < old(self).node_view(ptr).len() && old(self).node_view(ptr)[i].key.key_int() != key.key_int()
                        ==> finds(
                        final(self).node_view(ptr),
                        #[trigger] old(self).node_view(ptr)[i].key.key_int(),
                        Some(old(self).node_view(ptr)[i].value),
                    )
            },
            r matches Some(t) ==> {
                &&& forall|i: int|
                    0 <= i < final(self).node_view(ptr).len() ==> (#[trigger] final(self).node_view(ptr)[i]).key.key_int()
                        < t.0.key_int()
                &&& forall|i: int|
                    0 <= i < final(self).node_view(t.1).len() ==> (#[trigger] final(self).node_view(t.1)[i]).key.key_int()
                        >= t.0.key_int()
                &&& finds(
                    if key.key_int() < t.0.key_int() { final(self).node_view(ptr) } else { final(self).node_view(t.1) },
                    key.key_int(),
                    Some(value),
                )
                &&& forall|i: int|
                    0 <= i < old(self).node_view(ptr).len() && old(self).node_view(ptr)[i].key.key_int() != key.key_int()
                        ==> finds(
                        if old(self).node_view(ptr)[i].key.key_int() < t.0.key_int() {
                            final(self).node_view(ptr)
                        } else {
                            final(self).node_view(t.1)
                        },
                        #[trigger] old(self).node_view(ptr)[i].key.key_int(),
                        Some(old(self).node_view(ptr)[i].value),
                    )
            },
    {
        let ghost p = self.pos_of(ptr);
        let ghost vs = self@;
        let mut list = self.inner.take().unwrap();
        let ghost l0 = list;
        proof {
            assert(l0.handles()[p] == ptr);
            l0.lemma_links(p);
            assert(vs[p] == l0.contents()[p]@);
            assert(l0.contents()[p].wf());
        }
        let full = list.get(ptr).is_full();
        if full {
            let parent = list.parent(ptr).unwrap();
            let mut node = list.replace_data(ptr, BTreeNode::empty());
            let ghost n = node@;
            let (split_point, mut new_node) = node.split();
            let ghost left = node@;
            let ghost right = new_node@;
            let ghost rv: Option<V>;
            if key.key_lt(&split_point) {
                let got = node.insert(key, value);
                proof {
                    rv = got;
                }
            } else {
                proof {
                    if n.len() < 2 {
                        assert(right =~= n);
                        let i = choose|i: int| 0 <= i < n.len() && #[trigger] n[i].key.key_int() == key.key_int();
                        assert(right[i].key.key_int() == key.key_int());
                    }
                }
                let got = new_node.insert(key, value);
                proof {
                    rv = got;
                }
            }
            let ghost l1 = list;
            list.replace_data(ptr, node);
            let ghost l2 = list;
            proof {
                assert(l2.pos_of(ptr) == p) by {
                    let q = l2.pos_of(ptr);
                    assert(l2.handles()[q] == l2.handles()[p]);
                }
            }
            let new_ptr = list.insert_after(new_node, ptr);
            proof {
                list.lemma_links(p + 1);
                assert(list.handles()[p + 1] == new_ptr);
            }
            let k2 = list.get(new_ptr).min();
            self.inner = Some(list);
            proof {
                assert(l2.contents() =~= l0.contents().update(p, node));
                assert(list.contents() =~= l2.contents().insert(p + 1, new_node));
                assert forall|q: int| 0 <= q < list.contents().len() implies (#[trigger] list.contents()[q]).wf() by {
                    if q < p {
                        assert(list.contents()[q] == l0.contents()[q]);
                    } else if q > p + 1 {
                        assert(list.contents()[q] == l0.contents()[q - 1]);
                    }
                }
                self.lemma_wf_of_list();
                assert(self@ =~= vs.update(p, node@).insert(p + 1, new_node@));
                assert forall|h: Index| old(self).handles().contains(h) implies self.parent_of(h) == old(self).parent_of(h) by {
                    assert(l0.handles().contains(h));
                    assert(l2.handles().contains(h));
                }
                if key.key_int() < n[(n.len() / 2) as int].key.key_int() {
                    assert(inserted(n.take((n.len() / 2) as int), self@[p], key, value, rv));
                } else {
                    assert(inserted(n.skip((n.len() / 2) as int), self@[p + 1], key, value, rv));
                }
                assert(n.skip((n.len() / 2) as int).len() > 0);
                assert(Self::inserted_into(*old(self), *self, key, value, ptr, Some((k2, new_ptr, parent))));
                assert(old(self).node_view(ptr) == n);
                assert(self.node_view(ptr) == self@[p]);
                assert(self.node_view(new_ptr) == self@[p + 1]);
                assert(sorted_keys(entry_keys(self@[p + 1])));
                lemma_split_routes(n, key, value, self@[p], self@[p + 1]);
            }
            Some((k2, new_ptr, parent))
        } else {
            let mut node = list.replace_data(ptr, BTreeNode::empty());
            let got = node.insert(key, value);
            let ghost l1 = list;
            list.replace_data(ptr, node);
            self.inner = Some(list);
            proof {
                assert(list.contents() =~= l0.contents().update(p, node));
                assert forall|q: int| 0 <= q < list.contents().len() implies (#[trigger] list.contents()[q]).wf() by {
                    if q != p {
                        assert(list.contents()[q] == l0.contents()[q]);
                    }
                }
                self.lemma_wf_of_list();
                assert(self@ =~= vs.update(p, node@));
                assert(inserted(vs[p], self@[p], key, value, got));
                assert(old(self).node_view(ptr) == vs[p]);
                assert(self.node_view(ptr) == self@[p]);
                lemma_inserted_lookup(vs[p], self@[p], key, value, got, key.key_int(), None);
                assert forall|i: int|
                    0 <= i < vs[p].len() && vs[p][i].key.key_int() != key.key_int() implies finds(
                    self@[p],
                    #[trigger] vs[p][i].key.key_int(),
                    Some(vs[p][i].value),
                ) by {
                    lemma_finds_entry(vs[p], i);
                    lemma_inserted_lookup(vs[p], self@[p], key, value, got, vs[p][i].key.key_int(), Some(vs[p][i].value));
                }
            }
            None
        }
    }

    /// `s` is the layer that a fill with `items` gives: its nodes take the
    /// entries in order, each until it holds half of `FANOUT`; none of them has
    /// a parent yet.
    pub open spec fn filled(s: Self, items: Seq<(K, V)>) -> bool {
        &&& s.wf()
        &&& forall|k: int| 0 <= k < s.handles().len() ==> s.parent_of(#[trigger] s.handles()[k]) is None
        &&& fill_layout(s@, items, FANOUT as int)
    }

    /// Replaces the layer with nodes filled from `items` in order: a node takes
    /// entries until it holds half of `FANOUT`, then a new node is started.
    pub fn fill(&mut self, items: Vec<(K, V)>)
        where
            V: Copy,
        requires
            FANOUT >= 1 || items@.len() == 0,
            items@.len() < usize::MAX,
        ensures
            Self::filled(*final(self), items@),
    {
        self.fill_tracked(items);
    }

    /// Fills the layer as `fill` does, and returns the handle of the node that
    /// took each item.
    fn fill_tracked(&mut self, items: Vec<(K, V)>) -> (targets: Vec<Index>)
        where
            V: Copy,
        requires
            FANOUT >= 1 || items@.len() == 0,
            items@.len() < usize::MAX,
        ensures
            Self::filled(*final(self), items@),
            targets@.len() == items@.len(),
            forall|j: int| 0 <= j < items@.len() ==> final(self).handles().contains(#[trigger] targets@[j]),
            FANOUT / 2 >= 1 && items_sorted(items@) ==> forall|j: int|
                0 <= j < items@.len() ==> #[trigger] targets@[j] == final(self).handles()[j / (FANOUT as int / 2)],
            FANOUT / 2 == 0 ==> forall|j: int| 0 <= j < items@.len() ==> #[trigger] targets@[j] == final(self).handles()[j + 1],
    {
        let ghost h: int = FANOUT as int / 2;
        let mut list: LinkedList<BTreeNode<K, V, FANOUT>, PA> = LinkedList::new(BTreeNode::empty());
        let mut ptr = list.first();
        let mut targets: Vec<Index> = Vec::new();
        proof {
            assert(node_views(list) =~= seq![Seq::<Entry<K, V>>::empty()]);
            assert(node_views(list).flatten() =~= Seq::<Entry<K, V>>::empty()) by {
                node_views(list).lemma_flatten_one_element();
            }
            assert(item_entries(items@).subrange(0, 0) =~= Seq::<Entry<K, V>>::empty());
            assert(list.handles()[0] == ptr);
        }
        let mut i: usize = 0;
        while i < items.len()
            invariant
                list.wf(),
                forall|k: int| 0 <= k < list.contents().len() ==> (#[trigger] list.contents()[k]).wf(),
                forall|k: int| 0 <= k < list.handles().len() ==> list.node_of(#[trigger] list.handles()[k]).parent_link() is None,
                ptr == list.handles().last(),
                list.slot_count() == list.handles().len(),
                list.handles().len() <= i + 1,
                items@.len() < usize::MAX,
                0 <= i <= items@.len(),
                h == FANOUT as int / 2,
                FANOUT >= 1 || items@.len() == 0,
                h >= 1 && items_sorted(items@) ==> chunked(node_views(list), item_entries(items@).subrange(0, i as int), h),
                h == 0 ==> {
                    &&& node_views(list).len() == i + 1
                    &&& node_views(list)[0].len() == 0
                    &&& forall|j: int| 0 <= j < i ==> #[trigger] node_views(list)[j + 1] == seq![item_entries(items@)[j]]
                },
                targets@.len() == i,
                forall|j: int| 0 <= j < i ==> list.handles().contains(#[trigger] targets@[j]),
                h >= 1 && items_sorted(items@) ==> i == (list.handles().len() - 1) * h + node_views(list).last().len(),
                h >= 1 && items_sorted(items@) ==> forall|j: int| 0 <= j < i ==> #[trigger] targets@[j] == list.handles()[j / h],
                h == 0 ==> forall|j: int| 0 <= j < i ==> #[trigger] targets@[j] == list.handles()[j + 1],
            decreases items@.len() - i,
        {
            let (k, v) = items[i];
            let ghost es = item_entries(items@);
            let ghost e = Entry { key: k, value: v };
            let ghost before = node_views(list);
            let ghost hs0 = list.handles();
            assert(items@[i as int].0 == k && items@[i as int].1 == v);
            proof {
                list.lemma_links(hs0.len() - 1);
            }
            let fresh = list.get(ptr).is_half_full();
            if fresh {
                let ghost l0 = list;
                proof {
                    assert(l0.pos_of(ptr) == hs0.len() - 1) by {
                        let q = l0.pos_of(ptr);
                        assert(hs0[q] == hs0[hs0.len() - 1]);
                    }
                }
                let empty_node = BTreeNode::empty();
                let ghost en = empty_node;
                ptr = list.insert_after(empty_node, ptr);
                proof {
                    assert(list.handles() =~= hs0.push(ptr));
                    assert(list.contents() =~= l0.contents().push(en));
                    assert forall|q: int| 0 <= q < list.handles().len() implies list.node_of(#[trigger] list.handles()[q]).parent_link() is None by {
                        if q < hs0.len() {
                            assert(l0.handles().contains(hs0[q]));
                        }
                    }
                }
            }
            let ghost mid = node_views(list);
            let ghost l1 = list;
            let ghost p = list.handles().len() - 1;
            proof {
                assert(list.pos_of(ptr) == p) by {
                    let q = list.pos_of(ptr);
                    assert(list.handles()[q] == list.handles()[p]);
                }
                assert(list.contents()[p]@ == mid.last());
                if fresh {
                    assert(mid =~= before.push(Seq::<Entry<K, V>>::empty()));
                    if h >= 1 && items_sorted(items@) {
                        Seq::lemma_flatten_push(before, Seq::<Entry<K, V>>::empty());
                        assert(before.flatten() + Seq::<Entry<K, V>>::empty() =~= before.flatten());
                    }
                } else {
                    assert(mid == before);
                }
                assert(mid.last().len() < FANOUT);
                if h >= 1 && items_sorted(items@) {
                    assert(mid.flatten() == es.subrange(0, i as int));
                    Self::lemma_last_below(mid, items@, i as int);
                }
                if h == 0 {
                    assert(fresh);
                    assert(mid.last().len() == 0);
                }
            }
            let mut node = list.replace_data(ptr, BTreeNode::empty());
            let r = node.insert(k, v);
            let ghost new_node = node;
            list.replace_data(ptr, node);
            let ghost t0 = targets@;
            targets.push(ptr);
            proof {
                assert(list.contents() =~= l1.contents().update(p, new_node));
                assert(node_views(list) =~= mid.update(p, new_node@));
                assert forall|q: int| 0 <= q < list.contents().len() implies (#[trigger] list.contents()[q]).wf() by {
                    if q != p {
                        assert(list.contents()[q] == l1.contents()[q]);
                    }
                }
                assert forall|q: int| 0 <= q < list.handles().len() implies list.node_of(#[trigger] list.handles()[q]).parent_link() is None by {
                    assert(l1.handles().contains(list.handles()[q]));
                }
                if h == 0 || items_sorted(items@) {
                    lemma_insert_above_all(mid.last(), new_node@, k, v, r);
                    assert(node_views(list) =~= mid.update(mid.len() - 1, mid.last().push(e)));
                }
                assert(es[i as int] == e);
                assert(es.subrange(0, i as int + 1) =~= es.subrange(0, i as int).push(e));
                if h >= 1 && items_sorted(items@) {
                    lemma_flatten_last_push(mid, e);
                    assert forall|j: int| 0 <= j < node_views(list).len() - 1 implies (#[trigger] node_views(list)[j]).len() == h by {
                        assert(node_views(list)[j] == mid[j]);
                        if fresh && j == before.len() - 1 {
                            assert(mid[j] == before.last());
                        } else {
                            assert(mid[j] == before[j]);
                        }
                    }
                    assert(chunked(node_views(list), es.subrange(0, i as int + 1), h));
                }
                if h == 0 {
                    assert forall|j: int| 0 <= j < i + 1 implies #[trigger] node_views(list)[j + 1] == seq![es[j]] by {
                        if j < i {
                            assert(node_views(list)[j + 1] == mid[j + 1]);
                        } else {
                            assert(mid.last().push(e) =~= seq![e]);
                        }
                    }
                }
                Self::lemma_targets(hs0, list.handles(), t0, targets@, i as int, h, fresh, items_sorted(items@), before.last().len() as int, mid.last().len() as int);
            }
            i += 1;
        }
        self.inner = Some(list);
        proof {
            assert(item_entries(items@).subrange(0, items@.len() as int) =~= item_entries(items@));
            self.lemma_wf_of_list();
        }
        targets
    }

    /// How the handles of the nodes that took the items grow by one step.
    proof fn lemma_targets(
        hs0: Seq<Index>,
        hs1: Seq<Index>,
        t0: Seq<Index>,
        t1: Seq<Index>,
        i: int,
        h: int,
        fresh: bool,
        sorted: bool,
        last0: int,
        last1: int,
    )
        requires
            hs0.len() >= 1,
            hs1 == (if fresh { hs0.push(hs1.last()) } else { hs0 }),
            hs1.len() >= 1,
            t1 == t0.push(hs1.last()),
            t0.len() == i,
            h >= 0,
            forall|j: int| 0 <= j < i ==> hs0.contains(#[trigger] t0[j]),
            h >= 1 && sorted ==> i == (hs0.len() - 1) * h + last0,
            h >= 1 && sorted ==> forall|j: int| 0 <= j < i ==> #[trigger] t0[j] == hs0[j / h],
            h == 0 ==> forall|j: int| 0 <= j < i ==> #[trigger] t0[j] == hs0[j + 1],
            h == 0 ==> fresh && hs0.len() == i + 1,
            h >= 1 && sorted ==> 0 <= last0 <= h,
            h >= 1 && sorted && fresh ==> last0 == h,
            h >= 1 && sorted && !fresh ==> last0 < h,
            last1 == (if fresh { 0 } else { last0 }),
        ensures
            forall|j: int| 0 <= j < i + 1 ==> hs1.contains(#[trigger] t1[j]),
            h >= 1 && sorted ==> i + 1 == (hs1.len() - 1) * h + last1 + 1,
            h >= 1 && sorted ==> forall|j: int| 0 <= j < i + 1 ==> #[trigger] t1[j] == hs1[j / h],
            h == 0 ==> forall|j: int| 0 <= j < i + 1 ==> #[trigger] t1[j] == hs1[j + 1],
    {
        assert forall|j: int| 0 <= j < i + 1 implies hs1.contains(#[trigger] t1[j]) by {
            if j < i {
                let q = choose|q: int| 0 <= q < hs0.len() && hs0[q] == t0[j];
                assert(hs1[q] == t0[j]);
            } else {
                assert(hs1[hs1.len() - 1] == t1[j]);
            }
        }
        if h >= 1 && sorted {
            if fresh {
                assert((hs0.len() - 1) * h + h == hs0.len() * h) by (nonlinear_arith);
            }
            assert(i == (hs1.len() - 1) * h + last1);
            lemma_fundamental_div_mod_converse(i, h, hs1.len() - 1, last1);
            assert forall|j: int| 0 <= j < i + 1 implies #[trigger] t1[j] == hs1[j / h] by {
                if j < i {
                    assert(j / h <= i / h) by {
                        lemma_div_is_ordered(j, i, h);
                    }
                    if fresh {
                        assert(i - 1 == (hs0.len() - 1) * h + (h - 1));
                        lemma_fundamental_div_mod_converse(i - 1, h, hs0.len() - 1, h - 1);
                        lemma_div_is_ordered(j, i - 1, h);
                        assert(0 <= j / h < hs0.len()) by {
                            lemma_div_pos_is_pos(j, h);
                        }
                        assert(hs1[j / h] == hs0[j / h]);
                    }
                }
            }
        }
        if h == 0 {
            assert forall|j: int| 0 <= j < i + 1 implies #[trigger] t1[j] == hs1[j + 1] by {
                if j < i {
                    assert(hs1[j + 1] == hs0[j + 1]);
                }
            }
        }
    }

    /// In a chunked prefix of sorted items, the last node's keys are below the
    /// next item's key.
    proof fn lemma_last_below(nodes: Seq<Seq<Entry<K, V>>>, items: Seq<(K, V)>, i: int)
        requires
            0 <= i < items.len(),
            items_sorted(items),
            nodes.len() >= 1,
            nodes.flatten() == item_entries(items).subrange(0, i),
        ensures
            forall|m: int| 0 <= m < nodes.last().len() ==> #[trigger] nodes.last()[m].key.key_int() < items[i].0.key_int(),
    {
        let rest = nodes.drop_last();
        let l = nodes.last();
        assert(nodes =~= rest.push(l));
        Seq::lemma_flatten_push(rest, l);
        let d = rest.flatten().len();
        assert forall|m: int| 0 <= m < l.len() implies #[trigger] l[m].key.key_int() < items[i].0.key_int() by {
            assert(nodes.flatten()[d + m] == l[m]);
            assert(item_entries(items).subrange(0, i)[d + m] == l[m]);
            assert(items[d + m].0 == l[m].key);
        }
    }
}

impl<K: StaticBounded, const FANOUT: usize, PA> MemoryBTreeLayer<K, Index, FANOUT, PA> {
    /// The parent that an insert with parents gives the node `h` of the base
    /// layer: the node that takes the inserted value, for the value itself;
    /// the new node, for the values of the upper half of a split node; as
    /// before, for the others.
    pub open spec fn parent_after_insert<B: NodeLayer<K, Index>>(
        s0: Self,
        base0: B,
        key: K,
        value: Index,
        ptr: Index,
        r: Option<(K, Index, PA)>,
        h: Index,
    ) -> Option<Index> {
        let n = s0.node_view(ptr);
        let m = (n.len() / 2) as int;
        if h == value {
            match r {
                Some(t) => if key.key_int() < n[m].key.key_int() {
                    Some(ptr)
                } else {
                    Some(t.1)
                },
                None => Some(ptr),
            }
        } else {
            match r {
                Some(t) => if exists|i: int| m <= i < n.len() && #[trigger] n[i].value == h {
                    Some(t.1)
                } else {
                    base0.parent_at(h)
                },
                None => base0.parent_at(h),
            }
        }
    }

    /// Fills the layer from the nodes of `base`, as `fill` does with their
    /// smallest keys and handles, and makes each node of `base` point to the
    /// node of this layer that took it.
    pub fn fill_with_parent<B: NodeLayer<K, Index>>(&mut self, base: &mut B)
        requires
            old(base).layer_wf(),
            old(base).layer_handles().len() > 0,
            FANOUT >= 1,
            old(base).layer_handles().len() < usize::MAX,
        ensures
            Self::filled(*final(self), layer_items(*old(base))),
            final(base).layer_wf(),
            final(base).same_nodes(old(base)),
            forall|j: int|
                0 <= j < old(base).layer_handles().len() ==> (final(base).parent_at(#[trigger] old(base).layer_handles()[j]) matches Some(
                    q,
                ) && final(self).handles().contains(q)),
            FANOUT / 2 >= 1 && items_sorted(layer_items(*old(base))) ==> forall|j: int|
                0 <= j < old(base).layer_handles().len() ==> final(base).parent_at(#[trigger] old(base).layer_handles()[j])
                    == Some(final(self).handles()[j / (FANOUT as int / 2)]),
            FANOUT / 2 == 0 ==> forall|j: int|
                0 <= j < old(base).layer_handles().len() ==> final(base).parent_at(#[trigger] old(base).layer_handles()[j])
                    == Some(final(self).handles()[j + 1]),
    {
        let ghost bh = base.layer_handles();
        let ghost n = bh.len();
        let ghost want = layer_items(*base);
        let mut items: Vec<(K, Index)> = Vec::new();
        let mut addrs: Vec<Index> = Vec::new();
        let mut cur: Option<Index> = Some(base.first());
        proof {
            base.lemma_handles_distinct();
        }
        loop
            invariant_except_break
                base.layer_wf(),
                bh == base.layer_handles(),
                bh.no_duplicates(),
                n == bh.len(),
                want == layer_items(*base),
                items@.len() <= n,
                addrs@.len() == items@.len(),
                forall|q: int| 0 <= q < items@.len() ==> #[trigger] items@[q] == want[q],
                forall|q: int| 0 <= q < addrs@.len() ==> #[trigger] addrs@[q] == bh[q],
                cur == (if items@.len() < n { Some(bh[items@.len() as int]) } else { None::<Index> }),
            ensures
                items@ == want,
                addrs@ == bh,
            decreases n - items@.len(),
        {
            match cur {
                Some(c) => {
                    let ghost k = items@.len() as int;
                    proof {
                        assert(bh[k] == c);
                    }
                    let key = base.lower_bound(c);
                    items.push((key, c));
                    addrs.push(c);
                    cur = base.next_node(c);
                },
                None => {
                    proof {
                        assert(items@ =~= want);
                        assert(addrs@ =~= bh);
                    }
                    break;
                },
            }
        }
        let targets = self.fill_tracked(items);
        let ghost b0 = *base;
        proof {
            B::lemma_same_nodes(&b0, &b0, &b0);
        }
        let mut j: usize = 0;
        while j < addrs.len()
            invariant
                addrs@ == bh,
                bh == b0.layer_handles(),
                bh.no_duplicates(),
                targets@.len() == bh.len(),
                b0 == *old(base),
                base.layer_wf(),
                base.same_nodes(&b0),
                base.layer_handles() == bh,
                0 <= j <= bh.len(),
                forall|q: int| 0 <= q < j ==> base.parent_at(#[trigger] bh[q]) == Some(targets@[q]),
            decreases bh.len() - j,
        {
            let ghost b1 = *base;
            proof {
                assert(b1.layer_handles().contains(bh[j as int]));
            }
            base.set_parent(addrs[j], targets[j]);
            proof {
                B::lemma_same_nodes(&*base, &b1, &b0);
                assert forall|q: int| 0 <= q < j + 1 implies base.parent_at(#[trigger] bh[q]) == Some(targets@[q]) by {
                    if q < j {
                        assert(bh[q] != bh[j as int]);
                        assert(b1.layer_handles().contains(bh[q]));
                    }
                }
            }
            j += 1;
        }
    }

    /// Inserts an entry whose value is the handle of a node of `base`, as
    /// `insert` does, and makes each node of `base` whose entry is now in
    /// another node of this layer, and the node `value`, point to its new
    /// parent.
    pub fn insert_with_parent<B: NodeLayer<K, Index>>(&mut self, key: K, value: Index, base: &mut B, ptr: Index) -> (r:
        Option<(K, Index, PA)>)
        where
            PA: Copy,
        requires
            old(self).can_insert(key, ptr),
            old(base).layer_wf(),
            old(base).layer_handles().contains(value),
            forall|i: int|
                0 <= i < old(self).node_view(ptr).len() ==> old(base).layer_handles().contains(
                    #[trigger] old(self).node_view(ptr)[i].value,
                ),
        ensures
            Self::inserted_into(*old(self), *final(self), key, value, ptr, r),
            final(base).layer_wf(),
            final(base).same_nodes(old(base)),
            forall|h: Index|
                old(base).layer_handles().contains(h) ==> final(base).parent_at(h) == Self::parent_after_insert(
                    *old(self),
                    *old(base),
                    key,
                    value,
                    ptr,
                    r,
                    h,
                ),
    {
        let ghost n = self.node_view(ptr);
        let ghost m = (n.len() / 2) as int;
        let full = self.deref(ptr).is_full();
        let mut moved: Vec<Index> = Vec::new();
        let mut goes_left = true;
        if full {
            let entries = self.deref(ptr).entries();
            let half = entries.len() / 2;
            proof {
                assert(entries@ == n);
                assert(n.len() > 0);
            }
            goes_left = key.key_lt(&entries[half].key);
            let mut j = half;
            while j < entries.len()
                invariant
                    entries@ == n,
                    half == m,
                    half <= j <= n.len(),
                    moved@.len() == j - half,
                    forall|q: int| 0 <= q < moved@.len() ==> #[trigger] moved@[q] == n[half + q].value,
                decreases n.len() - j,
            {
                moved.push(entries[j].value);
                j += 1;
            }
        }
        let r = self.insert(key, value, ptr);
        let ghost base0 = *base;
        proof {
            B::lemma_same_nodes(&base0, &base0, &base0);
        }
        match r {
            Some(t) => {
                let np = t.1;
                let mut j: usize = 0;
                while j < moved.len()
                    invariant
                        full,
                        m == (n.len() / 2) as int,
                        moved@.len() == n.len() - m,
                        forall|q: int| 0 <= q < moved@.len() ==> #[trigger] moved@[q] == n[m + q].value,
                        forall|i: int| 0 <= i < n.len() ==> base0.layer_handles().contains(#[trigger] n[i].value),
                        0 <= j <= moved@.len(),
                        base.layer_wf(),
                        base.same_nodes(&base0),
                        base.layer_handles() == base0.layer_handles(),
                        forall|h: Index|
                            base0.layer_handles().contains(h) ==> base.parent_at(h) == (if exists|q: int|
                                0 <= q < j && #[trigger] moved@[q] == h {
                                Some(np)
                            } else {
                                base0.parent_at(h)
                            }),
                    decreases moved@.len() - j,
                {
                    let ghost b1 = *base;
                    proof {
                        assert(0 <= m + j < n.len());
                        assert(moved@[j as int] == n[m + j].value);
                        assert(base0.layer_handles().contains(n[m + j].value));
                        assert(base.layer_handles().contains(moved@[j as int]));
                    }
                    base.set_parent(moved[j], np);
                    proof {
                        B::lemma_same_nodes(&*base, &b1, &base0);
                        assert forall|h: Index| base0.layer_handles().contains(h) implies base.parent_at(h) == (if exists|q: int|
                            0 <= q < j + 1 && #[trigger] moved@[q] == h {
                            Some(np)
                        } else {
                            base0.parent_at(h)
                        }) by {
                            if h != moved@[j as int] {
                                if exists|q: int| 0 <= q < j + 1 && #[trigger] moved@[q] == h {
                                    let q = choose|q: int| 0 <= q < j + 1 && #[trigger] moved@[q] == h;
                                    assert(q < j);
                                }
                            }
                        }
                    }
                    j += 1;
                }
                let target = if goes_left { ptr } else { np };
                let ghost b2 = *base;
                base.set_parent(value, target);
                proof {
                    B::lemma_same_nodes(&*base, &b2, &base0);
                    assert forall|h: Index| old(base).layer_handles().contains(h) implies base.parent_at(h)
                        == Self::parent_after_insert(*old(self), *old(base), key, value, ptr, r, h) by {
                        if h != value {
                            if exists|i: int| m <= i < n.len() && #[trigger] n[i].value == h {
                                let i = choose|i: int| m <= i < n.len() && #[trigger] n[i].value == h;
                                assert(moved@[i - m] == h);
                            }
                            if exists|q: int| 0 <= q < moved@.len() && #[trigger] moved@[q] == h {
                                let q = choose|q: int| 0 <= q < moved@.len() && #[trigger] moved@[q] == h;
                                assert(n[m + q].value == h);
                            }
                        }
                    }
                }
            },
            None => {
                base.set_parent(value, ptr);
            },
        }
        r
    }
}

impl<K: StaticBounded, V, const FANOUT: usize, PA: Copy> NodeLayer<K, PA> for MemoryBTreeLayer<K, V, FANOUT, PA> {
    open spec fn layer_wf(&self) -> bool {
        self.wf()
    }

    open spec fn layer_handles(&self) -> Seq<Index> {
        self.handles()
    }

    open spec fn key_at(&self, h: Index) -> K {
        if self.node_view(h).len() == 0 {
            K::min_key()
        } else {
            self.node_view(h)[0].key
        }
    }

    open spec fn parent_at(&self, h: Index) -> Option<PA> {
        self.parent_of(h)
    }

    open spec fn same_nodes(&self, other: &Self) -> bool {
        &&& self.handles() == other.handles()
        &&& forall|h: Index| self.handles().contains(h) ==> #[trigger] self.node_view(h) == other.node_view(h)
    }

    proof fn lemma_same_nodes(a: &Self, b: &Self, c: &Self) {
    }

    proof fn lemma_handles_distinct(&self) {
    }

    fn first(&self) -> (r: Index) {
        MemoryBTreeLayer::first(self)
    }

    fn last(&self) -> (r: Index) {
        MemoryBTreeLayer::last(self)
    }

    fn next_node(&self, ptr: Index) -> (r: Option<Index>) {
        proof {
            let hs = self.handles();
            assert forall|k: int| 0 <= k < hs.len() && #[trigger] hs[k] == ptr implies k == self.pos_of(ptr) by {
                let q = self.pos_of(ptr);
                assert(hs[q] == ptr);
            }
        }
        self.next(ptr)
    }

    fn lower_bound(&self, ptr: Index) -> (r: K) {
        self.deref(ptr).min()
    }

    fn parent(&self, ptr: Index) -> (r: Option<PA>) {
        MemoryBTreeLayer::parent(self, ptr)
    }

    fn set_parent(&mut self, ptr: Index, parent: PA) {
        MemoryBTreeLayer::set_parent(self, ptr, parent);
        proof {
            assert forall|h: Index| self.handles().contains(h) implies #[trigger] self.node_view(h) == old(self).node_view(h) by {
                let k = choose|k: int| 0 <= k < self.handles().len() && self.handles()[k] == h;
                assert(self@[k] == old(self)@[k]);
            }
        }
    }
}

/// After an insert of a key above all keys of a node, the entry is last.
proof fn lemma_insert_above_all<K: StaticBounded, V>(o: Seq<Entry<K, V>>, n: Seq<Entry<K, V>>, k: K, v: V, r: Option<V>)
    requires
        inserted(o, n, k, v, r),
        sorted_keys(entry_keys(n)),
        forall|m: int| 0 <= m < o.len() ==> #[trigger] o[m].key.key_int() < k.key_int(),
    ensures
        n == o.push(Entry { key: k, value: v }),
{
    let e = Entry { key: k, value: v };
    match r {
        Some(_) => {
            let idx = choose|idx: int|
                0 <= idx < o.len() && #[trigger] o[idx].key.key_int() == k.key_int() && r->0 == o[idx].value
                    && n == o.update(idx, e);
            assert(o[idx].key.key_int() < k.key_int());
        },
        None => {
            let p = choose|p: int| 0 <= p <= o.len() && #[trigger] o.insert(p, e) == n;
            if p < o.len() {
                assert(n[p] == e);
                assert(n[p + 1] == o[p]);
                assert(entry_keys(n)[p] < entry_keys(n)[p + 1]);
                assert(o[p].key.key_int() < k.key_int());
            }
            assert(n =~= o.push(e));
        },
    }
}

/// Appending to the last of a sequence of sequences appends to its flattening.
proof fn lemma_flatten_last_push<A>(s: Seq<Seq<A>>, e: A)
    requires
        s.len() >= 1,
    ensures
        s.update(s.len() - 1, s.last().push(e)).flatten() == s.flatten().push(e),
{
    let rest = s.drop_last();
    assert(s =~= rest.push(s.last()));
    assert(s.update(s.len() - 1, s.last().push(e)) =~= rest.push(s.last().push(e)));
    Seq::lemma_flatten_push(rest, s.last());
    Seq::lemma_flatten_push(rest, s.last().push(e));
    assert(rest.flatten() + s.last().push(e) =~= (rest.flatten() + s.last()).push(e));
}

} // verus!
