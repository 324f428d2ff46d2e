//! The B-tree components of a hybrid index: the base layer, which holds the
//! entries, the internal layers above it, and what an insert into a layer
//! hands to the layer above.
use vstd::prelude::*;
use crate::entry::Entry;
use crate::linked_list::Index;
use crate::memory_layer::{items_sorted, MemoryBTreeLayer};
use crate::node::{entry_keys, insert_sorted, inserted, lub_at};
use crate::search::{sorted_keys, BinarySearch, Search};
use crate::node_layer::{layer_items, NodeLayer};
use crate::traits::StaticBounded;
use std::marker::PhantomData;

verus! {

/// What an insert into a layer hands to the layer above.
pub enum PropogateInsert<K, SA, PA> {
    /// A new node, with its smallest key, its handle, and the parent of the
    /// node it was split from.
    Single(K, SA, PA),
    /// A run of nodes, from the first to the last parent, to be rebuilt.
    Replace(PA, PA),
}

/// The result of a layer's insert as what it hands to the layer above.
pub open spec fn as_propagation<K, PA>(r: Option<(K, Index, PA)>) -> Option<PropogateInsert<K, Index, PA>> {
    match r {
        None => None,
        Some(t) => Some(PropogateInsert::Single(t.0, t.1, t.2)),
    }
}

/// Item `j` is the last of `items` with key `x`, and its handle is `v`.
pub open spec fn last_item_at<K: StaticBounded>(items: Seq<(K, Index)>, j: int, x: int, v: Index) -> bool {
    &&& 0 <= j < items.len()
    &&& items[j].0.key_int() == x
    &&& items[j].1 == v
    &&& forall|j2: int| #![trigger items[j2]] j < j2 < items.len() ==> items[j2].0.key_int() != x
}

/// The entry `e` is the last item of its key, with its handle.
pub open spec fn last_of_key<K: StaticBounded>(items: Seq<(K, Index)>, e: Entry<K, Index>) -> bool {
    exists|j: int| #[trigger] last_item_at(items, j, e.key.key_int(), e.value)
}

/// Some entry of `t` has the key `x`.
pub open spec fn has_key<K: StaticBounded>(t: Seq<Entry<K, Index>>, x: int) -> bool {
    exists|i: int| 0 <= i < t.len() && #[trigger] t[i].key.key_int() == x
}

/// `t` is what putting `items` in order into an empty map from keys to
/// handles gives: entries sorted by key, one for each key among the items,
/// with the handle of the last item of that key.
pub open spec fn top_of<K: StaticBounded>(items: Seq<(K, Index)>, t: Seq<Entry<K, Index>>) -> bool {
    &&& sorted_keys(entry_keys(t))
    &&& forall|i: int| 0 <= i < t.len() ==> last_of_key(items, #[trigger] t[i])
    &&& forall|j: int| 0 <= j < items.len() ==> has_key(t, #[trigger] items[j].0.key_int())
}

/// The last item of a key among all but the last item stays the last one of
/// its key when the last item has another key.
proof fn lemma_still_last<K: StaticBounded>(items: Seq<(K, Index)>, j: int, x: int, v: Index)
    requires
        items.len() >= 1,
        last_item_at(items.drop_last(), j, x, v),
        items.last().0.key_int() != x,
    ensures
        last_item_at(items, j, x, v),
{
    let p = items.drop_last();
    assert(items[j] == p[j]);
    assert forall|j2: int| j < j2 < items.len() implies items[j2].0.key_int() != x by {
        if j2 < items.len() - 1 {
            assert(items[j2] == p[j2]);
        }
    }
}

/// A key of the items so far stays a key of the items.
proof fn lemma_covered<K: StaticBounded>(
    items: Seq<(K, Index)>,
    t0: Seq<Entry<K, Index>>,
    t1: Seq<Entry<K, Index>>,
    q: int,
)
    requires
        items.len() >= 1,
        top_of(items.drop_last(), t0),
        t1.len() >= 1,
        forall|i: int| 0 <= i < t0.len() ==> has_key(t1, #[trigger] t0[i].key.key_int()),
        0 <= q < t1.len(),
        t1[q].key.key_int() == items.last().0.key_int(),
    ensures
        forall|j: int| 0 <= j < items.len() ==> has_key(t1, #[trigger] items[j].0.key_int()),
{
    let p = items.drop_last();
    assert forall|j: int| 0 <= j < items.len() implies has_key(t1, #[trigger] items[j].0.key_int()) by {
        if j < items.len() - 1 {
            assert(items[j] == p[j]);
            assert(has_key(t0, p[j].0.key_int()));
            let i = choose|i: int| 0 <= i < t0.len() && #[trigger] t0[i].key.key_int() == p[j].0.key_int();
            assert(has_key(t1, t0[i].key.key_int()));
        } else {
            assert(t1[q].key.key_int() == items[j].0.key_int());
        }
    }
}

/// After the last item of `items` is put into the map `t0` of the others, as
/// entry `q` of `t1`, each entry of `t1` is the last item of its key.
proof fn lemma_entry_last<K: StaticBounded>(
    items: Seq<(K, Index)>,
    t0: Seq<Entry<K, Index>>,
    t1: Seq<Entry<K, Index>>,
    q: int,
    i: int,
    old_of: spec_fn(int) -> int,
)
    requires
        items.len() >= 1,
        top_of(items.drop_last(), t0),
        0 <= q < t1.len(),
        t1[q] == (Entry { key: items.last().0, value: items.last().1 }),
        0 <= i < t1.len(),
        i != q ==> 0 <= old_of(i) < t0.len() && t1[i] == t0[old_of(i)] && t0[old_of(i)].key.key_int() != items.last().0.key_int(),
    ensures
        last_of_key(items, t1[i]),
{
    let n = items.len() - 1;
    if i == q {
        assert(last_item_at(items, n, t1[i].key.key_int(), t1[i].value));
    } else {
        let ii = old_of(i);
        assert(last_of_key(items.drop_last(), t0[ii]));
        let j = choose|j: int| #[trigger] last_item_at(items.drop_last(), j, t0[ii].key.key_int(), t0[ii].value);
        lemma_still_last(items, j, t0[ii].key.key_int(), t0[ii].value);
        assert(last_item_at(items, j, t1[i].key.key_int(), t1[i].value));
    }
}

/// Every key of `t0` is a key of `t0` with one more entry put in.
proof fn lemma_insert_covers<K: StaticBounded>(t0: Seq<Entry<K, Index>>, t1: Seq<Entry<K, Index>>, p0: int, e: Entry<K, Index>)
    requires
        0 <= p0 <= t0.len(),
        t1 == t0.insert(p0, e),
    ensures
        forall|i: int| 0 <= i < t0.len() ==> has_key(t1, #[trigger] t0[i].key.key_int()),
{
    assert forall|i: int| 0 <= i < t0.len() implies has_key(t1, #[trigger] t0[i].key.key_int()) by {
        let ii = if i < p0 { i } else { i + 1 };
        assert(t1[ii] == t0[i]);
    }
}

/// Putting one more item into the map keeps it the map of the items so far.
proof fn lemma_top_step<K: StaticBounded>(
    items: Seq<(K, Index)>,
    t0: Seq<Entry<K, Index>>,
    t1: Seq<Entry<K, Index>>,
    r: Option<Index>,
)
    requires
        items.len() >= 1,
        top_of(items.drop_last(), t0),
        sorted_keys(entry_keys(t1)),
        inserted(t0, t1, items.last().0, items.last().1, r),
    ensures
        top_of(items, t1),
{
    let key = items.last().0;
    let e = Entry { key, value: items.last().1 };
    let x = key.key_int();
    if r is Some {
        let idx = choose|idx: int|
            0 <= idx < t0.len() && #[trigger] t0[idx].key.key_int() == x && r->0 == t0[idx].value && t1 == t0.update(
                idx,
                e,
            );
        assert forall|i: int| 0 <= i < t0.len() && i != idx implies t0[i].key.key_int() != x by {
            assert(entry_keys(t0)[i] != entry_keys(t0)[idx]);
        }
        assert forall|i: int| 0 <= i < t0.len() implies has_key(t1, #[trigger] t0[i].key.key_int()) by {
            assert(t1[i].key.key_int() == t0[i].key.key_int());
        }
        let old_of = |i: int| i;
        assert forall|i: int| 0 <= i < t1.len() && i != idx implies 0 <= #[trigger] old_of(i) < t0.len() && t1[i] == t0[old_of(i)]
            && t0[old_of(i)].key.key_int() != x by {}
        assert(t1[idx] == e);
        lemma_top_finish(items, t0, t1, idx, old_of);
    } else {
        let p0 = choose|p0: int| 0 <= p0 <= t0.len() && #[trigger] t0.insert(p0, e) == t1;
        assert forall|i: int| 0 <= i < t0.len() implies t0[i].key.key_int() != x by {}
        lemma_insert_covers(t0, t1, p0, e);
        let old_of = |i: int| if i < p0 { i } else { i - 1 };
        assert forall|i: int| 0 <= i < t1.len() && i != p0 implies 0 <= #[trigger] old_of(i) < t0.len() && t1[i] == t0[old_of(i)]
            && t0[old_of(i)].key.key_int() != x by {}
        assert(t1[p0] == e);
        lemma_top_finish(items, t0, t1, p0, old_of);
    }
}

/// The map after putting the last item in place `q` of `t1`, where every
/// other entry `i` of `t1` is entry `old_of(i)` of `t0`, is the map of the
/// items.
proof fn lemma_top_finish<K: StaticBounded>(
    items: Seq<(K, Index)>,
    t0: Seq<Entry<K, Index>>,
    t1: Seq<Entry<K, Index>>,
    q: int,
    old_of: spec_fn(int) -> int,
)
    requires
        items.len() >= 1,
        top_of(items.drop_last(), t0),
        sorted_keys(entry_keys(t1)),
        0 <= q < t1.len(),
        t1[q] == (Entry { key: items.last().0, value: items.last().1 }),
        forall|i: int|
            0 <= i < t1.len() && i != q ==> 0 <= #[trigger] old_of(i) < t0.len() && t1[i] == t0[old_of(i)] && t0[old_of(
                i,
            )].key.key_int() != items.last().0.key_int(),
        forall|i: int| 0 <= i < t0.len() ==> has_key(t1, #[trigger] t0[i].key.key_int()),
    ensures
        top_of(items, t1),
{
    assert forall|i: int| 0 <= i < t1.len() implies last_of_key(items, #[trigger] t1[i]) by {
        lemma_entry_last(items, t0, t1, q, i, old_of);
    }
    lemma_covered(items, t0, t1, q);
}

/// The top of a hybrid index: for each smallest key of a node of the layer
/// below, that node's handle, in key order.
pub struct BTreeTopComponent<K> {
    inner: Vec<Entry<K, Index>>,
}

impl<K> View for BTreeTopComponent<K> {
    type V = Seq<Entry<K, Index>>;

    closed spec fn view(&self) -> Seq<Entry<K, Index>> {
        self.inner@
    }
}

impl<K: StaticBounded> BTreeTopComponent<K> {
    /// The entries are sorted by key.
    pub open spec fn wf(&self) -> bool {
        sorted_keys(entry_keys(self@))
    }

    /// A top over the nodes of `base`: each node's handle under its smallest
    /// key.
    pub fn build<B: NodeLayer<K, Index>>(base: &B) -> (r: Self)
        requires
            base.layer_wf(),
            base.layer_handles().len() > 0,
        ensures
            r.wf(),
            top_of(layer_items(*base), r@),
    {
        let ghost items = layer_items(*base);
        let ghost bh = base.layer_handles();
        let mut inner: Vec<Entry<K, Index>> = Vec::new();
        let mut cur: Option<Index> = Some(base.first());
        let ghost mut k: int = 0;
        proof {
            base.lemma_handles_distinct();
            assert(items.take(0) =~= Seq::<(K, Index)>::empty());
        }
        loop
            invariant_except_break
                base.layer_wf(),
                bh == base.layer_handles(),
                bh.no_duplicates(),
                items == layer_items(*base),
                0 <= k <= bh.len(),
                top_of(items.take(k), inner@),
                cur == (if k < bh.len() { Some(bh[k]) } else { None::<Index> }),
            ensures
                top_of(items, inner@),
            decreases bh.len() - k,
        {
            match cur {
                Some(c) => {
                    assert(bh[k] == c);
                    let key = base.lower_bound(c);
                    let ghost t0 = inner@;
                    let r = insert_sorted(&mut inner, key, c);
                    proof {
                        assert(items.take(k + 1).drop_last() =~= items.take(k));
                        lemma_top_step(items.take(k + 1), t0, inner@, r);
                        k = k + 1;
                    }
                    cur = base.next_node(c);
                },
                None => {
                    proof {
                        assert(items.take(k) =~= items);
                    }
                    break;
                },
            }
        }
        Self { inner }
    }

    /// The handle under the greatest key that is at most `key`.
    pub fn search<B>(&self, base: &B, key: &K) -> (r: Index)
        requires
            self.wf(),
            self@.len() > 0,
            self@[0].key.key_int() <= key.key_int(),
        ensures
            exists|i: int|
                lub_at(entry_keys(self@), key.key_int(), i) && self@[i].key.key_int() <= key.key_int() && r
                    == self@[i].value,
    {
        let ghost s = entry_keys(self@);
        let res = BinarySearch::search_by_key(self.inner.as_slice(), key);
        let i = match res {
            Ok(i) => i,
            Err(i) => {
                proof {
                    if i == 0 {
                        assert(s[0] == self@[0].key.key_int());
                    }
                }
                i - 1
            },
        };
        proof {
            assert(s[i as int] == self@[i as int].key.key_int());
            assert(lub_at(s, key.key_int(), i as int));
        }
        self.inner[i].value
    }

    /// Takes a new node of the layer below: puts its handle under its smallest
    /// key; where a run of nodes below is to be rebuilt, builds the top again
    /// from `base`.
    pub fn insert<B: NodeLayer<K, Index>, P>(&mut self, base: &B, prop: PropogateInsert<K, Index, P>)
        requires
            old(self).wf(),
            base.layer_wf(),
            prop is Replace ==> base.layer_handles().len() > 0,
        ensures
            final(self).wf(),
            match prop {
                PropogateInsert::Single(key, address, _) => exists|rv: Option<Index>| #[trigger] inserted(
                    old(self)@,
                    final(self)@,
                    key,
                    address,
                    rv,
                ),
                PropogateInsert::Replace(..) => top_of(layer_items(*base), final(self)@),
            },
    {
        match prop {
            PropogateInsert::Single(key, address, _) => {
                let rv = insert_sorted(&mut self.inner, key, address);
                assert(inserted(old(self)@, self@, key, address, rv));
            },
            PropogateInsert::Replace(..) => {
                *self = Self::build(base);
            },
        }
    }
}

/// The base layer of a hybrid index: B-tree nodes holding the entries.
pub struct BTreeBaseComponent<K, V, const FANOUT: usize, PA> {
    inner: MemoryBTreeLayer<K, V, FANOUT, PA>,
}

impl<K: StaticBounded, V, const FANOUT: usize, PA> BTreeBaseComponent<K, V, FANOUT, PA> {
    /// The layer of nodes.
    pub closed spec fn layer(&self) -> MemoryBTreeLayer<K, V, FANOUT, PA> {
        self.inner
    }

    /// A base with one empty node.
    pub fn empty() -> (r: Self)
        where
            V: Copy,
        ensures
            MemoryBTreeLayer::filled(r.layer(), Seq::empty()),
            r.layer()@ == seq![Seq::<Entry<K, V>>::empty()],
    {
        let mut result: MemoryBTreeLayer<K, V, FANOUT, PA> = MemoryBTreeLayer::empty();
        result.fill(Vec::new());
        proof {
            let s = result@;
            if FANOUT / 2 >= 1 {
                assert(items_sorted(Seq::<(K, V)>::empty()));
                assert(s.flatten() == Seq::<Entry<K, V>>::empty());
                assert(s.len() == 1) by {
                    if s.len() > 1 {
                        assert(s[0].len() == FANOUT as int / 2);
                        s.lemma_flatten_length_ge_single_element_length(0);
                    }
                }
                assert(s[0].len() == 0) by {
                    s.lemma_flatten_length_ge_single_element_length(0);
                }
            }
            assert(s[0] =~= Seq::<Entry<K, V>>::empty());
            assert(s =~= seq![Seq::<Entry<K, V>>::empty()]);
        }
        Self { inner: result }
    }

    /// A base filled with `items`, as a layer's `fill` does.
    pub fn build(items: Vec<(K, V)>) -> (r: Self)
        where
            V: Copy,
        requires
            FANOUT >= 1 || items@.len() == 0,
            items@.len() < usize::MAX,
        ensures
            MemoryBTreeLayer::filled(r.layer(), items@),
    {
        let mut result: MemoryBTreeLayer<K, V, FANOUT, PA> = MemoryBTreeLayer::empty();
        result.fill(items);
        Self { inner: result }
    }

    /// Inserts an entry into the node `ptr`, as a layer's `insert` does, and
    /// hands a new node, if any, to the layer above.
    pub fn insert(&mut self, ptr: Index, key: K, value: V) -> (r: Option<PropogateInsert<K, Index, PA>>)
        where
            PA: Copy,
        requires
            old(self).layer().can_insert(key, ptr),
        ensures
            exists|t: Option<(K, Index, PA)>|
                MemoryBTreeLayer::inserted_into(old(self).layer(), final(self).layer(), key, value, ptr, t) && r
                    == #[trigger] as_propagation(t),
    {
        let t = self.inner.insert(key, value, ptr);
        let r = match t {
            Some((key, address, parent)) => Some(PropogateInsert::Single(key, address, parent)),
            None => None,
        };
        assert(r == as_propagation(t));
        r
    }

    /// The value of the entry with key `key` in the node `ptr`, if there is
    /// one.
    pub fn search(&self, ptr: Index, key: &K) -> (r: Option<&V>)
        requires
            self.layer().wf(),
            self.layer().handles().contains(ptr),
        ensures
            match r {
                Some(v) => exists|i: int|
                    0 <= i < self.layer().node_view(ptr).len() && #[trigger] self.layer().node_view(ptr)[i].key.key_int()
                        == key.key_int() && *v == self.layer().node_view(ptr)[i].value,
                None => forall|i: int|
                    0 <= i < self.layer().node_view(ptr).len() ==> #[trigger] self.layer().node_view(ptr)[i].key.key_int()
                        != key.key_int(),
            },
    {
        let node = self.inner.deref(ptr);
        proof {
            let k = self.inner.pos_of(ptr);
            assert(self.inner.handles()[k] == ptr);
            assert(self.inner@[k] == node@);
        }
        node.search_exact(key)
    }
}

/// An internal layer of a hybrid index: B-tree nodes whose entries are the
/// smallest keys of the nodes of the layer below, with their handles.
pub struct BTreeInternalComponent<K, X, const FANOUT: usize, PA> {
    inner: MemoryBTreeLayer<K, Index, FANOUT, PA>,
    _ph: PhantomData<X>,
}

impl<K: StaticBounded, X, const FANOUT: usize, PA> BTreeInternalComponent<K, X, FANOUT, PA> {
    /// The layer of nodes.
    pub closed spec fn layer(&self) -> MemoryBTreeLayer<K, Index, FANOUT, PA> {
        self.inner
    }

    /// A layer over the nodes of `base`, as a layer's `fill_with_parent`
    /// builds it; each node of `base` then points to its parent here.
    pub fn build<B: NodeLayer<K, Index>>(base: &mut B) -> (r: Self)
        requires
            old(base).layer_wf(),
            old(base).layer_handles().len() > 0,
            FANOUT >= 1,
            old(base).layer_handles().len() < usize::MAX,
        ensures
            MemoryBTreeLayer::filled(r.layer(), layer_items(*old(base))),
            final(base).layer_wf(),
            final(base).same_nodes(old(base)),
            forall|j: int|
                0 <= j < old(base).layer_handles().len() ==> (final(base).parent_at(#[trigger] old(base).layer_handles()[j]) matches Some(
                    q,
                ) && r.layer().handles().contains(q)),
            FANOUT / 2 >= 1 && items_sorted(layer_items(*old(base))) ==> forall|j: int|
                0 <= j < old(base).layer_handles().len() ==> final(base).parent_at(#[trigger] old(base).layer_handles()[j])
                    == Some(r.layer().handles()[j / (FANOUT as int / 2)]),
    {
        let mut result: MemoryBTreeLayer<K, Index, FANOUT, PA> = MemoryBTreeLayer::empty();
        result.fill_with_parent(base);
        Self { inner: result, _ph: PhantomData }
    }

    /// The handle of the node below where `key` belongs: that of the last
    /// entry of the node `ptr` whose key is at most `key` (the first entry's
    /// when every key is above it).
    pub fn search<B>(&self, base: &B, ptr: Index, key: &K) -> (r: Index)
        requires
            self.layer().wf(),
            self.layer().handles().contains(ptr),
            self.layer().node_view(ptr).len() > 0,
        ensures
            exists|i: int|
                lub_at(entry_keys(self.layer().node_view(ptr)), key.key_int(), i) && r == self.layer().node_view(
                    ptr,
                )[i].value,
    {
        let node = self.inner.deref(ptr);
        proof {
            let k = self.inner.pos_of(ptr);
            assert(self.inner.handles()[k] == ptr);
            assert(self.inner@[k] == node@);
        }
        *node.search_lub(key)
    }

    /// Takes a new node of the layer below: inserts its smallest key and
    /// handle into the node of this layer that `prop` names, as a layer's
    /// `insert_with_parent` does, and hands a new node of this layer, if any,
    /// to the layer above.
    pub fn insert<B: NodeLayer<K, Index>>(&mut self, base: &mut B, prop: PropogateInsert<K, Index, Index>) -> (r:
        Option<PropogateInsert<K, Index, PA>>)
        where
            PA: Copy,
        requires
            prop matches PropogateInsert::Single(key, address, ptr) && {
                &&& old(self).layer().can_insert(key, ptr)
                &&& old(base).layer_wf()
                &&& old(base).layer_handles().contains(address)
                &&& forall|i: int|
                    0 <= i < old(self).layer().node_view(ptr).len() ==> old(base).layer_handles().contains(
                        #[trigger] old(self).layer().node_view(ptr)[i].value,
                    )
            },
        ensures
            prop matches PropogateInsert::Single(key, address, ptr) && exists|t: Option<(K, Index, PA)>|
                {
                    &&& MemoryBTreeLayer::inserted_into(old(self).layer(), final(self).layer(), key, address, ptr, t)
                    &&& r == #[trigger] as_propagation(t)
                    &&& forall|h: Index|
                        old(base).layer_handles().contains(h) ==> final(base).parent_at(h)
                            == MemoryBTreeLayer::parent_after_insert(old(self).layer(), *old(base), key, address, ptr, t, h)
                },
            final(base).layer_wf(),
            final(base).same_nodes(old(base)),
    {
        match prop {
            PropogateInsert::Single(key, address, ptr) => {
                let t = self.inner.insert_with_parent(key, address, base, ptr);
                let r = match t {
                    Some((key, address, parent)) => Some(PropogateInsert::Single(key, address, parent)),
                    None => None,
                };
                assert(r == as_propagation(t));
                r
            },
            PropogateInsert::Replace(..) => {
                proof {
                    assert(false);
                }
                None
            },
        }
    }
}

impl<K: StaticBounded, V, const FANOUT: usize, PA: Copy> NodeLayer<K, PA> for BTreeBaseComponent<K, V, FANOUT, PA> {
    open spec fn layer_wf(&self) -> bool {
        self.layer().layer_wf()
    }

    open spec fn layer_handles(&self) -> Seq<Index> {
        self.layer().layer_handles()
    }

    open spec fn key_at(&self, h: Index) -> K {
        self.layer().key_at(h)
    }

    open spec fn parent_at(&self, h: Index) -> Option<PA> {
        self.layer().parent_at(h)
    }

    open spec fn same_nodes(&self, other: &Self) -> bool {
        self.layer().same_nodes(&other.layer())
    }

    proof fn lemma_same_nodes(a: &Self, b: &Self, c: &Self) {
    }

    proof fn lemma_handles_distinct(&self) {
    }

    fn first(&self) -> (r: Index) {
        self.inner.first()
    }

    fn last(&self) -> (r: Index) {
        self.inner.last()
    }

    fn next_node(&self, ptr: Index) -> (r: Option<Index>) {
        self.inner.next_node(ptr)
    }

    fn lower_bound(&self, ptr: Index) -> (r: K) {
        NodeLayer::lower_bound(&self.inner, ptr)
    }

    fn parent(&self, ptr: Index) -> (r: Option<PA>) {
        self.inner.parent(ptr)
    }

    fn set_parent(&mut self, ptr: Index, parent: PA) {
        NodeLayer::set_parent(&mut self.inner, ptr, parent);
    }
}

impl<K: StaticBounded, X, const FANOUT: usize, PA: Copy> NodeLayer<K, PA> for BTreeInternalComponent<K, X, FANOUT, PA> {
    open spec fn layer_wf(&self) -> bool {
        self.layer().layer_wf()
    }

    open spec fn layer_handles(&self) -> Seq<Index> {
        self.layer().layer_handles()
    }

    open spec fn key_at(&self, h: Index) -> K {
        self.layer().key_at(h)
    }

    open spec fn parent_at(&self, h: Index) -> Option<PA> {
        self.layer().parent_at(h)
    }

    open spec fn same_nodes(&self, other: &Self) -> bool {
        self.layer().same_nodes(&other.layer())
    }

    proof fn lemma_same_nodes(a: &Self, b: &Self, c: &Self) {
    }

    proof fn lemma_handles_distinct(&self) {
    }

    fn first(&self) -> (r: Index) {
        self.inner.first()
    }

    fn last(&self) -> (r: Index) {
        self.inner.last()
    }

    fn next_node(&self, ptr: Index) -> (r: Option<Index>) {
        self.inner.next_node(ptr)
    }

    fn lower_bound(&self, ptr: Index) -> (r: K) {
        NodeLayer::lower_bound(&self.inner, ptr)
    }

    fn parent(&self, ptr: Index) -> (r: Option<PA>) {
        self.inner.parent(ptr)
    }

    fn set_parent(&mut self, ptr: Index, parent: PA) {
        NodeLayer::set_parent(&mut self.inner, ptr, parent);
    }
}

} // verus!
