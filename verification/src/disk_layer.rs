//! A layer of B-tree nodes kept in the pages of a store, the lowest one that a
//! store holds: the catalog of its pages, and the parents of its nodes, which
//! stay in memory. The store reads and writes the pages; the layer decides
//! what goes into them.
use vstd::prelude::*;
use std::collections::HashMap;
use std::marker::PhantomData;
use crate::disk_list::{link_at, DiskCatalog};
use crate::disk_node::StoreId;
use crate::entry::Entry;
use crate::memory_layer::{fill_layout, MemoryBTreeLayer};
use crate::node::{entry_keys, finds, inserted, lemma_finds_entry, lemma_inserted_lookup, lemma_split_routes, BTreeNode};
use crate::search::sorted_keys;
use crate::traits::StaticBounded;

verus! {

broadcast use vstd::std_specs::hash::group_hash_axioms;

/// Each page to write with the entries of its node.
pub open spec fn page_views<K, V, const FANOUT: usize>(w: Seq<(StoreId, BTreeNode<K, V, FANOUT>)>) -> Seq<
    (StoreId, Seq<Entry<K, V>>),
> {
    w.map_values(|p: (StoreId, BTreeNode<K, V, FANOUT>)| (p.0, p.1@))
}

/// The entries of the node of each page to write.
pub open spec fn page_nodes<K, V, const FANOUT: usize>(w: Seq<(StoreId, BTreeNode<K, V, FANOUT>)>) -> Seq<Seq<Entry<K, V>>> {
    w.map_values(|p: (StoreId, BTreeNode<K, V, FANOUT>)| p.1@)
}


/// A layer of B-tree nodes, one per page of a store, linked in key order by
/// the catalog; the address of each node's parent in the layer above is kept
/// in memory once it is known.
pub struct BoundaryDiskBTreeLayer<K, V, const FANOUT: usize, PA> {
    /// The pages of the nodes, in key order.
    pub catalog: DiskCatalog,
    /// The parent of each node whose parent is known.
    pub parents: HashMap<StoreId, PA>,
    /// The types of the keys and values of the nodes.
    pub marker: PhantomData<(K, V)>,
}

impl<K: StaticBounded, V, const FANOUT: usize, PA> BoundaryDiskBTreeLayer<K, V, FANOUT, PA> {
    /// The pages of the nodes, in key order.
    pub open spec fn order(&self) -> Seq<StoreId> {
        self.catalog.order()
    }

    /// The address of the parent of the node in page `id`.
    pub closed spec fn parent_of(&self, id: StoreId) -> Option<PA> {
        if self.parents@.contains_key(id) {
            Some(self.parents@[id])
        } else {
            None
        }
    }

    /// The catalog is consistent and only pages of the layer have a parent.
    pub closed spec fn wf(&self) -> bool {
        &&& self.catalog.wf()
        &&& forall|id: StoreId| #[trigger] self.parents@.contains_key(id) ==> self.order().contains(id)
    }

    /// The position of the page `id` in the layer.
    pub open spec fn pos_of(&self, id: StoreId) -> int {
        self.catalog.pos_of(id)
    }

    /// A consistent layer has a consistent catalog, and a page outside it
    /// has no parent.
    pub proof fn lemma_wf(&self)
        requires
            self.wf(),
        ensures
            self.catalog.wf(),
            forall|id: StoreId| !self.order().contains(id) ==> #[trigger] self.parent_of(id) is None,
    {
    }

    /// The layer of the catalog `stored` that the store read, or, when the
    /// store had none, of the one page `fresh` (which the store then writes
    /// with an empty node). No node has a parent yet.
    pub fn load(stored: Option<DiskCatalog>, fresh: StoreId) -> (r: Self)
        requires
            stored matches Some(c) ==> c.wf(),
        ensures
            r.wf(),
            stored matches Some(c) ==> r.catalog == c,
            stored is None ==> r.order() == seq![fresh],
            forall|id: StoreId| #[trigger] r.parent_of(id) is None,
    {
        let catalog = match stored {
            Some(c) => c,
            None => DiskCatalog::new(fresh),
        };
        let r = Self { catalog, parents: HashMap::new(), marker: PhantomData };
        proof {
            assert forall|id: StoreId| #[trigger] r.parents@.contains_key(id) implies r.order().contains(id) by {}
        }
        r
    }

    /// The first page.
    pub fn first(&self) -> (r: StoreId)
        ensures
            r == self.catalog.first,
    {
        self.catalog.first()
    }

    /// The last page.
    pub fn last(&self) -> (r: StoreId)
        ensures
            r == self.catalog.last,
    {
        self.catalog.last()
    }

    /// The page after the page `ptr`, if any.
    pub fn next(&self, ptr: StoreId) -> (r: Option<StoreId>)
        requires
            self.wf(),
            self.order().contains(ptr),
        ensures
            r == link_at(self.order(), self.pos_of(ptr)).next,
    {
        self.catalog.next(ptr)
    }

    /// The address of the parent of the node in page `ptr`, if known.
    pub fn parent(&self, ptr: StoreId) -> (r: Option<PA>)
        where
            PA: Copy,
        ensures
            r == self.parent_of(ptr),
    {
        match self.parents.get(&ptr) {
            Some(p) => Some(*p),
            None => None,
        }
    }

    /// Records `parent` as the parent of the node in page `ptr`.
    pub fn set_parent(&mut self, ptr: StoreId, parent: PA)
        requires
            old(self).wf(),
            old(self).order().contains(ptr),
        ensures
            final(self).wf(),
            final(self).catalog == old(self).catalog,
            final(self).parent_of(ptr) == Some(parent),
            forall|id: StoreId| id != ptr ==> #[trigger] final(self).parent_of(id) == old(self).parent_of(id),
    {
        self.parents.insert(ptr, parent);
    }

    /// An insert of `key` into the node `n` of page `ptr` is possible: a full
    /// node has a parent and an entry, the half that the entry goes to has
    /// room for it or holds its key already, and `fresh` is a page outside the
    /// layer for the new node.
    pub open spec fn can_insert(&self, n: Seq<Entry<K, V>>, key: K, ptr: StoreId, fresh: StoreId) -> bool {
        &&& self.wf()
        &&& self.order().contains(ptr)
        &&& n.len() >= FANOUT ==> {
            &&& self.parent_of(ptr) is Some
            &&& n.len() > 0
            &&& (n.len() >= 2 || key.key_int() < n[(n.len() / 2) as int].key.key_int() || exists|i: int|
                0 <= i < n.len() && #[trigger] n[i].key.key_int() == key.key_int())
            &&& !self.order().contains(fresh)
        }
    }

    /// `s1`, the pages `writes` and `r` are what an insert of `key` and
    /// `value` into the node `n` of page `ptr` of `s0` gives: the node with the
    /// entry written back to `ptr`; or, for a full node, its lower half written
    /// to `ptr` and its upper half to `fresh`, linked in right after `ptr`, the
    /// entry in the half among whose keys it falls, and the new node's
    /// smallest key and page and the split node's parent returned.
    pub open spec fn inserted_into(
        s0: Self,
        s1: Self,
        n: Seq<Entry<K, V>>,
        key: K,
        value: V,
        ptr: StoreId,
        fresh: StoreId,
        writes: Seq<(StoreId, Seq<Entry<K, V>>)>,
        r: Option<(K, StoreId, PA)>,
    ) -> bool {
        let m = (n.len() / 2) as int;
        &&& s1.wf()
        &&& forall|id: StoreId| s0.order().contains(id) ==> #[trigger] s1.parent_of(id) == s0.parent_of(id)
        &&& n.len() < FANOUT ==> {
            &&& r is None
            &&& s1.catalog == s0.catalog
            &&& writes.len() == 1
            &&& writes[0].0 == ptr
            &&& exists|rv: Option<V>| #[trigger] inserted(n, writes[0].1, key, value, rv)
        }
        &&& n.len() >= FANOUT ==> {
            &&& s1.order() == s0.order().insert(s0.pos_of(ptr) + 1, fresh)
            &&& s1.catalog.first == s0.catalog.first
            &&& s1.catalog.last == (if ptr == s0.catalog.last { fresh } else { s0.catalog.last })
            &&& s1.parent_of(fresh) is None
            &&& writes.len() == 2
            &&& writes[0].0 == ptr
            &&& writes[1].0 == fresh
            &&& key.key_int() < n[m].key.key_int() ==> {
                &&& exists|rv: Option<V>| #[trigger] inserted(n.take(m), writes[0].1, key, value, rv)
                &&& writes[1].1 == n.skip(m)
            }
            &&& key.key_int() >= n[m].key.key_int() ==> {
                &&& writes[0].1 == n.take(m)
                &&& exists|rv: Option<V>| #[trigger] inserted(n.skip(m), writes[1].1, key, value, rv)
            }
            &&& writes[1].1.len() > 0
            &&& r matches Some(t) && t.0 == writes[1].1[0].key && t.1 == fresh && Some(t.2) == s0.parent_of(ptr)
        }
    }


    /// The law of an insert into a stored node. Without a split, the node's
    /// page holds the new entry and every other entry of the node. With a
    /// split, the returned key is a fence: every key of the lower page (the
    /// node's) is below it and every key of the upper page (the new one) is at
    /// least it; a lookup of the inserted key in the page its key falls to by
    /// the fence finds the inserted value, and a lookup of any other key of
    /// the node in the page its key falls to finds the value it had.
    pub proof fn lemma_insert_routes(
        s0: Self,
        s1: Self,
        n: Seq<Entry<K, V>>,
        key: K,
        value: V,
        ptr: StoreId,
        fresh: StoreId,
        writes: Seq<(StoreId, Seq<Entry<K, V>>)>,
        r: Option<(K, StoreId, PA)>,
    )
        requires
            s0.can_insert(n, key, ptr, fresh),
            sorted_keys(entry_keys(n)),
            forall|i: int| 0 <= i < writes.len() ==> sorted_keys(entry_keys(#[trigger] writes[i].1)),
            Self::inserted_into(s0, s1, n, key, value, ptr, fresh, writes, r),
        ensures
            r is None ==> {
                &&& writes.len() == 1
                &&& writes[0].0 == ptr
                &&& finds(writes[0].1, key.key_int(), Some(value))
                &&& forall|i: int|
                    0 <= i < n.len() && n[i].key.key_int() != key.key_int() ==> finds(
                        writes[0].1,
                        #[trigger] n[i].key.key_int(),
                        Some(n[i].value),
                    )
            },
            r matches Some(t) ==> {
                &&& writes.len() == 2
                &&& writes[0].0 == ptr
                &&& writes[1].0 == fresh
                &&& t.1 == fresh
                &&& forall|i: int| 0 <= i < writes[0].1.len() ==> (#[trigger] writes[0].1[i]).key.key_int() < t.0.key_int()
                &&& forall|i: int| 0 <= i < writes[1].1.len() ==> (#[trigger] writes[1].1[i]).key.key_int() >= t.0.key_int()
                &&& finds(
                    if key.key_int() < t.0.key_int() { writes[0].1 } else { writes[1].1 },
                    key.key_int(),
                    Some(value),
                )
                &&& forall|i: int|
                    0 <= i < n.len() && n[i].key.key_int() != key.key_int() ==> finds(
                        if n[i].key.key_int() < t.0.key_int() { writes[0].1 } else { writes[1].1 },
                        #[trigger] n[i].key.key_int(),
                        Some(n[i].value),
                    )
            },
    {
        let m = (n.len() / 2) as int;
        if n.len() < FANOUT {
            let rv = choose|rv: Option<V>| #[trigger] inserted(n, writes[0].1, key, value, rv);
            lemma_inserted_lookup(n, writes[0].1, key, value, rv, key.key_int(), None);
            assert forall|i: int|
                0 <= i < n.len() && n[i].key.key_int() != key.key_int() implies finds(
                writes[0].1,
                #[trigger] n[i].key.key_int(),
                Some(n[i].value),
            ) by {
                lemma_finds_entry(n, i);
                lemma_inserted_lookup(n, writes[0].1, key, value, rv, n[i].key.key_int(), Some(n[i].value));
            }
        } else {
            let t = r->Some_0;
            lemma_split_routes(n, key, value, writes[0].1, writes[1].1);
        }
    }

    /// Inserts an entry into `node`, the node that the store read from page
    /// `ptr`, and returns the pages for the store to write. A full node is
    /// first split in two halves, the upper one going to the page `fresh`,
    /// linked in right after `ptr`, and the entry goes into the half among
    /// whose keys it falls; the new node's smallest key and page, and the
    /// split node's parent, are then returned so that the layer above can take
    /// the new node.
    #[verifier::rlimit(30)]
    pub fn insert(&mut self, node: BTreeNode<K, V, FANOUT>, key: K, value: V, ptr: StoreId, fresh: StoreId) -> (r: (
        Vec<(StoreId, BTreeNode<K, V, FANOUT>)>,
        Option<(K, StoreId, PA)>,
    ))
        where
            PA: Copy,
        requires
            node.wf(),
            old(self).can_insert(node@, key, ptr, fresh),
        ensures
            Self::inserted_into(*old(self), *final(self), node@, key, value, ptr, fresh, page_views(r.0@), r.1),
            forall|i: int| 0 <= i < r.0@.len() ==> (#[trigger] r.0@[i]).1.wf(),
            r.1 is None ==> {
                &&& r.0@.len() == 1
                &&& r.0@[0].0 == ptr
                &&& finds(r.0@[0].1@, key.key_int(), Some(value))
                &&& forall|i: int|
                    0 <= i < node@.len() && node@[i].key.key_int() != key.key_int() ==> finds(
                        r.0@[0].1@,
                        #[trigger] node@[i].key.key_int(),
                        Some(node@[i].value),
                    )
            },
            r.1 matches Some(t) ==> {
                &&& r.0@.len() == 2
                &&& r.0@[0].0 == ptr
                &&& r.0@[1].0 == fresh
                &&& t.1 == fresh
                &&& forall|i: int| 0 <= i < r.0@[0].1@.len() ==> (#[trigger] r.0@[0].1@[i]).key.key_int() < t.0.key_int()
                &&& forall|i: int| 0 <= i < r.0@[1].1@.len() ==> (#[trigger] r.0@[1].1@[i]).key.key_int() >= t.0.key_int()
                &&& finds(
                    if key.key_int() < t.0.key_int() { r.0@[0].1@ } else { r.0@[1].1@ },
                    key.key_int(),
                    Some(value),
                )
                &&& forall|i: int|
                    0 <= i < node@.len() && node@[i].key.key_int() != key.key_int() ==> finds(
                        if node@[i].key.key_int() < t.0.key_int() { r.0@[0].1@ } else { r.0@[1].1@ },
                        #[trigger] node@[i].key.key_int(),
                        Some(node@[i].value),
                    )
            },
    {
        let ghost n = node@;
        let ghost s0 = *self;
        let mut writes: Vec<(StoreId, BTreeNode<K, V, FANOUT>)> = Vec::new();
        if node.is_full() {
            let parent = *self.parents.get(&ptr).unwrap();
            let mut left = node;
            let (split_point, mut right) = left.split();
            let ghost rv: Option<V>;
            if key.key_lt(&split_point) {
                let got = left.insert(key, value);
                proof {
                    rv = got;
                }
            } else {
                proof {
                    if n.len() < 2 {
                        assert(right@ =~= n);
                        let i = choose|i: int| 0 <= i < n.len() && #[trigger] n[i].key.key_int() == key.key_int();
                        assert(right@[i].key.key_int() == key.key_int());
                    }
                }
                let got = right.insert(key, value);
                proof {
                    rv = got;
                }
            }
            self.catalog.insert_after(ptr, fresh);
            let k2 = right.min();
            proof {
                assert(n.skip((n.len() / 2) as int).len() > 0);
                assert(right@.len() > 0);
            }
            writes.push((ptr, left));
            writes.push((fresh, right));
            proof {
                let pv = page_views(writes@);
                assert(pv[0] == (ptr, left@));
                assert(pv[1] == (fresh, right@));
                if key.key_int() < n[(n.len() / 2) as int].key.key_int() {
                    assert(inserted(n.take((n.len() / 2) as int), pv[0].1, key, value, rv));
                } else {
                    assert(inserted(n.skip((n.len() / 2) as int), pv[1].1, key, value, rv));
                }
                assert forall|id: StoreId| #[trigger] self.parents@.contains_key(id) implies self.order().contains(id) by {
                    assert(s0.order().contains(id));
                    let k = choose|k: int| 0 <= k < s0.order().len() && s0.order()[k] == id;
                    if k <= s0.pos_of(ptr) {
                        assert(self.order()[k] == id);
                    } else {
                        assert(self.order()[k + 1] == id);
                    }
                }
            }
            let res = (writes, Some((k2, fresh, parent)));
            proof {
                let pv = page_views(res.0@);
                assert(Self::inserted_into(s0, *self, n, key, value, ptr, fresh, pv, res.1));
                assert forall|i: int| 0 <= i < pv.len() implies sorted_keys(entry_keys(#[trigger] pv[i].1)) by {
                    assert(pv[i].1 == res.0@[i].1@);
                }
                Self::lemma_insert_routes(s0, *self, n, key, value, ptr, fresh, pv, res.1);
                assert(pv[0].1 == res.0@[0].1@ && pv[1].1 == res.0@[1].1@);
            }
            res
        } else {
            let mut node = node;
            let got = node.insert(key, value);
            writes.push((ptr, node));
            proof {
                let pv = page_views(writes@);
                assert(pv[0] == (ptr, node@));
                assert(inserted(n, pv[0].1, key, value, got));
            }
            let res = (writes, None);
            proof {
                let pv = page_views(res.0@);
                assert(Self::inserted_into(s0, *self, n, key, value, ptr, fresh, pv, res.1));
                assert forall|i: int| 0 <= i < pv.len() implies sorted_keys(entry_keys(#[trigger] pv[i].1)) by {
                    assert(pv[i].1 == res.0@[i].1@);
                }
                Self::lemma_insert_routes(s0, *self, n, key, value, ptr, fresh, pv, res.1);
                assert(pv[0].1 == res.0@[0].1@);
            }
            res
        }
    }

    /// Refills the layer with `items` in order, as an in-memory layer is
    /// filled: a node takes entries until it holds half of `FANOUT`, then a
    /// new node is started. The nodes go to the first pages of `pages`, which
    /// are linked in that order; the pages to write are returned, and no node
    /// has a parent yet.
    pub fn fill(&mut self, items: Vec<(K, V)>, pages: &Vec<StoreId>) -> (r: Vec<(StoreId, BTreeNode<K, V, FANOUT>)>)
        where
            V: Copy,
        requires
            FANOUT >= 1 || items@.len() == 0,
            items@.len() < usize::MAX,
            pages@.len() > items@.len(),
            pages@.no_duplicates(),
        ensures
            final(self).wf(),
            final(self).order() == pages@.take(r@.len() as int),
            forall|id: StoreId| #[trigger] final(self).parent_of(id) is None,
            forall|j: int| 0 <= j < r@.len() ==> (#[trigger] r@[j]).0 == pages@[j] && r@[j].1.wf(),
            fill_layout(page_nodes(r@), items@, FANOUT as int),
    {
        let ghost its = items@;
        let mut mem: MemoryBTreeLayer<K, V, FANOUT, PA> = MemoryBTreeLayer::empty();
        mem.fill(items);
        let ghost filled = mem@;
        let mut rest = mem.take_nodes();
        let ghost nodes = rest@;
        let count = rest.len();
        let mut ids: Vec<StoreId> = Vec::new();
        let mut writes: Vec<(StoreId, BTreeNode<K, V, FANOUT>)> = Vec::new();
        let mut j: usize = 0;
        while j < count
            invariant
                count == nodes.len(),
                nodes.len() == filled.len(),
                1 <= count <= its.len() + 1,
                its.len() < pages@.len(),
                0 <= j <= count,
                rest@ == nodes.skip(j as int),
                ids@ == pages@.take(j as int),
                writes@.len() == j,
                forall|q: int| 0 <= q < j ==> (#[trigger] writes@[q]).0 == pages@[q] && writes@[q].1 == nodes[q],
            decreases count - j,
        {
            let node = rest.remove(0);
            proof {
                assert(node == nodes[j as int]);
                assert(rest@ =~= nodes.skip(j + 1));
            }
            ids.push(pages[j]);
            writes.push((pages[j], node));
            proof {
                assert(ids@ =~= pages@.take(j + 1));
            }
            j += 1;
        }
        proof {
            assert forall|a: int, b: int| 0 <= a < b < ids@.len() implies ids@[a] != ids@[b] by {
                assert(ids@[a] == pages@[a] && ids@[b] == pages@[b]);
            }
            assert(page_nodes(writes@) =~= filled);
        }
        self.catalog = DiskCatalog::chain(&ids);
        self.parents = HashMap::new();
        proof {
            assert forall|id: StoreId| #[trigger] self.parents@.contains_key(id) implies self.order().contains(id) by {}
        }
        writes
    }
}

} // verus!
