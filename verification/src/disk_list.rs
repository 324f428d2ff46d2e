//! The catalog of a list of pages in a store: its first and last page and,
//! for each of its pages, the ids of the pages before and after it. The
//! pages themselves are read and written by the store.
use vstd::prelude::*;
use std::collections::HashMap;
use crate::disk_node::StoreId;

verus! {

broadcast use vstd::std_specs::hash::group_hash_axioms;

/// The neighbours of a page of a list.
#[derive(Clone, Copy, Debug)]
pub struct Link {
    pub next: Option<StoreId>,
    pub prev: Option<StoreId>,
}

/// The link that the page at position `k` of `order` has.
pub open spec fn link_at(order: Seq<StoreId>, k: int) -> Link {
    Link {
        next: if k + 1 < order.len() { Some(order[k + 1]) } else { None },
        prev: if k > 0 { Some(order[k - 1]) } else { None },
    }
}

/// The catalog of a list of pages.
pub struct DiskCatalog {
    /// The first page.
    pub first: StoreId,
    /// The last page.
    pub last: StoreId,
    /// The neighbours of each page.
    pub links: HashMap<StoreId, Link>,
    /// The pages, from first to last.
    pub pages: Ghost<Seq<StoreId>>,
}

impl DiskCatalog {
    /// The pages of the list, from first to last.
    pub closed spec fn order(&self) -> Seq<StoreId> {
        self.pages@
    }

    /// The first page.
    pub fn first(&self) -> (r: StoreId)
        ensures
            r == self.first,
    {
        self.first
    }

    /// The last page.
    pub fn last(&self) -> (r: StoreId)
        ensures
            r == self.last,
    {
        self.last
    }

    /// The link kept for the page `id`.
    pub closed spec fn link_of(&self, id: StoreId) -> Option<Link> {
        if self.links@.contains_key(id) {
            Some(self.links@[id])
        } else {
            None
        }
    }

    /// The position of the page `id` in the list.
    pub open spec fn pos_of(&self, id: StoreId) -> int {
        choose|k: int| 0 <= k < self.order().len() && self.order()[k] == id
    }

    /// The catalog is consistent: at least one page, each once, the first and
    /// last ones named, and each page's link naming its neighbours; no other
    /// page has a link.
    pub closed spec fn wf(&self) -> bool {
        let o = self.pages@;
        &&& o.len() >= 1
        &&& o.no_duplicates()
        &&& self.first == o[0]
        &&& self.last == o.last()
        &&& forall|id: StoreId| #[trigger] self.links@.contains_key(id) <==> o.contains(id)
        &&& forall|k: int| 0 <= k < o.len() ==> #[trigger] self.links@[o[k]] == link_at(o, k)
    }

    /// In a consistent catalog the first and last pages are the ends of the
    /// order, no page occurs twice, and each page's link names its
    /// neighbours.
    pub proof fn lemma_wf(&self)
        requires
            self.wf(),
        ensures
            self.order().len() >= 1,
            self.order().no_duplicates(),
            self.first == self.order()[0],
            self.last == self.order().last(),
            forall|k: int| 0 <= k < self.order().len() ==> #[trigger] self.link_of(self.order()[k]) == Some(link_at(self.order(), k)),
            forall|id: StoreId| !self.order().contains(id) ==> #[trigger] self.link_of(id) is None,
    {
        assert forall|k: int| 0 <= k < self.order().len() implies #[trigger] self.link_of(self.order()[k]) == Some(
            link_at(self.order(), k),
        ) by {
            assert(self.pages@.contains(self.pages@[k]));
        }
    }

    /// The catalog of a list of the one page `first`.
    pub fn new(first: StoreId) -> (r: Self)
        ensures
            r.wf(),
            r.order() == seq![first],
            r.first == first,
            r.last == first,
    {
        let mut links: HashMap<StoreId, Link> = HashMap::new();
        links.insert(first, Link { next: None, prev: None });
        let ghost one = seq![first];
        let r = Self { first, last: first, links, pages: Ghost(one) };
        proof {
            assert forall|id: StoreId| #[trigger] r.links@.contains_key(id) <==> r.pages@.contains(id) by {
                if id == first {
                    assert(r.pages@[0] == first);
                }
            }
            assert(r.links@[first] == link_at(seq![first], 0));
        }
        r
    }

    /// The page after the page `ptr`, if any.
    pub fn next(&self, ptr: StoreId) -> (r: Option<StoreId>)
        requires
            self.wf(),
            self.order().contains(ptr),
        ensures
            r == link_at(self.order(), self.pos_of(ptr)).next,
    {
        let ghost p = self.pos_of(ptr);
        proof {
            assert(self.pages@[p] == ptr);
        }
        self.links.get(&ptr).unwrap().next
    }

    /// Links the new page `fresh` into the list just after the page `ptr`.
    pub fn insert_after(&mut self, ptr: StoreId, fresh: StoreId)
        requires
            old(self).wf(),
            old(self).order().contains(ptr),
            !old(self).order().contains(fresh),
        ensures
            final(self).wf(),
            final(self).order() == old(self).order().insert(old(self).pos_of(ptr) + 1, fresh),
            final(self).first == old(self).first,
            final(self).last == (if ptr == old(self).last { fresh } else { old(self).last }),
    {
        let ghost o = self.pages@;
        let ghost p = self.pos_of(ptr);
        let ghost l0 = self.links@;
        proof {
            assert(o[p] == ptr);
        }
        let link = *self.links.get(&ptr).unwrap();
        let next_ptr = link.next;
        self.links.insert(fresh, Link { next: next_ptr, prev: Some(ptr) });
        self.links.insert(ptr, Link { next: Some(fresh), prev: link.prev });
        match next_ptr {
            Some(nx) => {
                proof {
                    assert(o[p + 1] == nx);
                    assert(nx != fresh);
                    assert(nx != ptr);
                }
                let nl = *self.links.get(&nx).unwrap();
                self.links.insert(nx, Link { next: nl.next, prev: Some(fresh) });
            },
            None => {
                self.last = fresh;
            },
        }
        let ghost n = o.insert(p + 1, fresh);
        self.pages = Ghost(n);
        proof {
            assert(n.len() == o.len() + 1);
            assert forall|i: int, j: int| 0 <= i < j < n.len() implies n[i] != n[j] by {
                if i == p + 1 {
                    assert(o.contains(n[j]));
                } else if j == p + 1 {
                    assert(o.contains(n[i]));
                }
            }
            assert(n.no_duplicates());
            assert forall|id: StoreId| #[trigger] self.links@.contains_key(id) <==> n.contains(id) by {
                if id == fresh {
                    assert(n[p + 1] == id);
                } else if self.links@.contains_key(id) {
                    assert(l0.contains_key(id));
                    assert(o.contains(id));
                }
                if n.contains(id) {
                    let k = choose|k: int| 0 <= k < n.len() && n[k] == id;
                    if k < p + 1 {
                        assert(o[k] == id);
                    } else if k > p + 1 {
                        assert(o[k - 1] == id);
                    }
                }
                if o.contains(id) {
                    let k = choose|k: int| 0 <= k < o.len() && o[k] == id;
                    if k <= p {
                        assert(n[k] == id);
                    } else {
                        assert(n[k + 1] == id);
                    }
                }
            }
            assert forall|k: int| 0 <= k < n.len() implies #[trigger] self.links@[n[k]] == link_at(n, k) by {
                if k < p {
                    assert(n[k] == o[k]);
                    assert(o[k] != ptr && o[k] != fresh);
                    if next_ptr is Some {
                        assert(o[k] != o[p + 1]);
                    }
                    assert(link_at(n, k) == link_at(o, k));
                } else if k == p {
                    assert(link.prev == link_at(o, p).prev);
                } else if k == p + 1 {
                } else if k == p + 2 {
                    assert(n[k] == o[p + 1]);
                } else {
                    assert(n[k] == o[k - 1]);
                    assert(o[k - 1] != ptr && o[k - 1] != fresh);
                    assert(o[k - 1] != o[p + 1]);
                    assert(link_at(n, k) == link_at(o, k - 1));
                }
            }
        }
    }

    /// The catalog of the list of the pages `ids`, in order.
    pub fn chain(ids: &Vec<StoreId>) -> (r: Self)
        requires
            ids@.len() >= 1,
            ids@.no_duplicates(),
        ensures
            r.wf(),
            r.order() == ids@,
    {
        let mut r = Self::new(ids[0]);
        let mut i: usize = 1;
        proof {
            assert(ids@.subrange(0, 1) =~= seq![ids@[0]]);
        }
        while i < ids.len()
            invariant
                1 <= i <= ids@.len(),
                ids@.no_duplicates(),
                r.wf(),
                r.order() == ids@.subrange(0, i as int),
                r.last == ids@[i - 1],
            decreases ids@.len() - i,
        {
            let ghost o = r.order();
            proof {
                assert(o[i - 1] == ids@[i - 1]);
                assert(o.contains(r.last));
                assert(r.pos_of(r.last) == i - 1) by {
                    r.lemma_wf();
                    let k = r.pos_of(r.last);
                    assert(o[k] == o[i - 1]);
                }
                assert(!o.contains(ids@[i as int])) by {
                    if o.contains(ids@[i as int]) {
                        let k = choose|k: int| 0 <= k < o.len() && o[k] == ids@[i as int];
                        assert(ids@[k] == ids@[i as int]);
                    }
                }
            }
            let last = r.last;
            r.insert_after(last, ids[i]);
            proof {
                assert(r.order() =~= ids@.subrange(0, i + 1));
            }
            i += 1;
        }
        proof {
            assert(ids@.subrange(0, i as int) =~= ids@);
        }
        r
    }
}


/// A list of pages kept whole in a store, the parents of its nodes included:
/// the catalog of the pages and the parent of each node whose parent is
/// known, both saved with the list.
pub struct DeepDiskList<PA> {
    /// The pages, in order.
    pub catalog: DiskCatalog,
    /// The parent of each node whose parent is known.
    pub parents: HashMap<StoreId, PA>,
}

impl<PA> DeepDiskList<PA> {
    /// The parent of the node in page `id`.
    pub closed spec fn parent_of(&self, id: StoreId) -> Option<PA> {
        if self.parents@.contains_key(id) {
            Some(self.parents@[id])
        } else {
            None
        }
    }

    /// The catalog is consistent and only pages of the list have a parent.
    pub closed spec fn wf(&self) -> bool {
        &&& self.catalog.wf()
        &&& forall|id: StoreId| #[trigger] self.parents@.contains_key(id) ==> self.catalog.order().contains(id)
    }

    /// The list of the catalog and the parents that the store read.
    pub fn load(catalog: DiskCatalog, parents: HashMap<StoreId, PA>) -> (r: Self)
        requires
            catalog.wf(),
            forall|id: StoreId| #[trigger] parents@.contains_key(id) ==> catalog.order().contains(id),
        ensures
            r.wf(),
            r.catalog == catalog,
            forall|id: StoreId| #[trigger] r.parent_of(id) == (if parents@.contains_key(id) { Some(parents@[id]) } else { None }),
    {
        Self { catalog, parents }
    }

    /// The first page.
    pub fn first(&self) -> (r: StoreId)
        ensures
            r == self.catalog.first,
    {
        self.catalog.first
    }

    /// The last page.
    pub fn last(&self) -> (r: StoreId)
        ensures
            r == self.catalog.last,
    {
        self.catalog.last
    }

    /// The page after the page `ptr`, if any.
    pub fn next(&self, ptr: StoreId) -> (r: Option<StoreId>)
        requires
            self.wf(),
            self.catalog.order().contains(ptr),
        ensures
            r == link_at(self.catalog.order(), self.catalog.pos_of(ptr)).next,
    {
        self.catalog.next(ptr)
    }

    /// The parent of the node in page `ptr`, if known.
    pub fn parent(&self, ptr: StoreId) -> (r: Option<PA>)
        where
            PA: Copy,
        ensures
            r == self.parent_of(ptr),
    {
        match self.parents.get(&ptr) {
            Some(p) => Some(*p),
            None => None,
        }
    }

    /// Records `parent` as the parent of the node in page `ptr`, a page of
    /// the list.
    pub fn set_parent(&mut self, ptr: StoreId, parent: PA)
        requires
            old(self).wf(),
            old(self).catalog.order().contains(ptr),
        ensures
            final(self).wf(),
            final(self).catalog == old(self).catalog,
            final(self).parent_of(ptr) == Some(parent),
            forall|id: StoreId| id != ptr ==> #[trigger] final(self).parent_of(id) == old(self).parent_of(id),
    {
        self.parents.insert(ptr, parent);
    }
}

} // verus!
