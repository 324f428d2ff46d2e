//! An in-memory layer of learned nodes: each node holds the segment that
//! places its keys and the entries (smallest key, handle of a node of the
//! layer below) that it covers.
use vstd::prelude::*;
use crate::entry::Entry;
use crate::linked_list::{Index, LinkedList};
use crate::memory_layer::{item_entries, items_sorted};
use crate::node_layer::{layer_items, NodeLayer};
use crate::pgm::{run_end, CanonicalSegment, PGMSegmentation, Point, KEY_LIMIT, RANK_LIMIT};
use crate::traits::{KeyBounded, StaticBounded};
use crate::pgm_fit::{fits_segment, lemma_segmentation_fits, segmentation_points};

verus! {

/// A learned node: the segment that places its keys, and its entries.
pub struct PGMNode<K> {
    pub segment: CanonicalSegment<K>,
    pub entries: Vec<Entry<K, Index>>,
}

impl<K: StaticBounded> KeyBounded<K> for PGMNode<K> {
    open spec fn bound_of(&self) -> K {
        self.segment.first
    }

    fn lower_bound(&self) -> (r: K) {
        self.segment.first
    }
}

/// The entries of each node of `nodes`, in order.
pub open spec fn node_entries<K>(nodes: Seq<PGMNode<K>>) -> Seq<Seq<Entry<K, Index>>> {
    nodes.map_values(|n: PGMNode<K>| n.entries@)
}

/// The segments of the nodes of `nodes`, in order.
pub open spec fn node_segments<K>(nodes: Seq<PGMNode<K>>) -> Seq<CanonicalSegment<K>> {
    nodes.map_values(|n: PGMNode<K>| n.segment)
}

/// The key-rank points of `items`: each key with its position.
pub open spec fn key_rank_points<K, V>(items: Seq<(K, V)>) -> Seq<(K, usize)> {
    Seq::new(items.len(), |i: int| (items[i].0, i as usize))
}

/// The position of the handle `h` in `hs`.
pub open spec fn handle_pos(hs: Seq<Index>, h: Index) -> int {
    choose|k: int| 0 <= k < hs.len() && hs[k] == h
}

/// The smallest keys and handles of the nodes of `base` from `head` to `tail`.
pub open spec fn data_run<K, B: NodeLayer<K, Index>>(base: B, head: Index, tail: Index) -> Seq<(K, Index)> {
    let hs = base.layer_handles();
    layer_items(base).subrange(handle_pos(hs, head), handle_pos(hs, tail) + 1)
}

/// The entry of the item `(k, h)`.
pub open spec fn item_entry<K>(item: (K, Index)) -> Entry<K, Index> {
    Entry { key: item.0, value: item.1 }
}

/// `nodes` lays out `items` over the segments `segs`: one node per segment,
/// holding that segment, and the nodes' entries, in order, are the items.
pub open spec fn laid_out<K>(nodes: Seq<PGMNode<K>>, segs: Seq<CanonicalSegment<K>>, items: Seq<(K, Index)>) -> bool {
    &&& node_segments(nodes) == segs
    &&& node_entries(nodes).flatten() == item_entries(items)
}

/// A layer of learned nodes, linked in key order, ending with a sentinel node.
pub struct MemoryPGMLayer<K, const EPSILON: usize, PA> {
    pub inner: LinkedList<PGMNode<K>, PA>,
}

impl<K: StaticBounded, const EPSILON: usize, PA: Copy> MemoryPGMLayer<K, EPSILON, PA> {
    /// The segments of `nodes` are those of the segmentation of `items`, with
    /// their positions as ranks: they start where it starts them and have the
    /// corners it gives them.
    pub open spec fn segmented(nodes: Seq<PGMNode<K>>, items: Seq<(K, Index)>) -> bool {
        let kr = key_rank_points(items);
        &&& PGMSegmentation::starts_at(node_segments(nodes), kr, PGMSegmentation::segmentation_starts(kr, EPSILON as int))
        &&& PGMSegmentation::corners_of(node_segments(nodes)) == PGMSegmentation::segmentation_rects(kr, EPSILON as int)
    }

    /// The law of a learned layer: the nodes of a layer segmented from
    /// `items` (as `fill` and `replace` leave it) have one segment each of
    /// the segmentation, and every point that a node's segment was cut from,
    /// a key with its position among the items, lies within `EPSILON` ranks
    /// of the segment's line through corners 1 and 3.
    pub proof fn lemma_nodes_fit(nodes: Seq<PGMNode<K>>, items: Seq<(K, Index)>)
        requires
            Self::segmented(nodes, items),
        ensures
            segmentation_points(key_rank_points(items), EPSILON as int).len() == nodes.len(),
            forall|k: int|
                0 <= k < nodes.len() ==> fits_segment(
                    (#[trigger] nodes[k]).segment.rect(),
                    segmentation_points(key_rank_points(items), EPSILON as int)[k],
                    EPSILON as int,
                ),
    {
        let kr = key_rank_points(items);
        lemma_segmentation_fits(kr, EPSILON as int);
        let cs = PGMSegmentation::corners_of(node_segments(nodes));
        assert(cs.len() == nodes.len());
        assert forall|k: int| 0 <= k < nodes.len() implies fits_segment(
            (#[trigger] nodes[k]).segment.rect(),
            segmentation_points(kr, EPSILON as int)[k],
            EPSILON as int,
        ) by {
            assert(cs[k] == nodes[k].segment.rect());
            assert(PGMSegmentation::segmentation_rects(kr, EPSILON as int)[k] == cs[k]);
        }
    }

    /// `n` is a sentinel node: the largest key and no entry.
    pub open spec fn is_sentinel(n: PGMNode<K>) -> bool {
        n.segment.first == K::max_key() && n.entries@.len() == 0
    }

    /// A sentinel node.
    fn sentinel() -> (r: PGMNode<K>)
        ensures
            Self::is_sentinel(r),
    {
        let max = K::max_ref();
        PGMNode {
            segment: CanonicalSegment::diagonal(Point { x: max, y: 0 }, Point { x: max, y: 0 }, max),
            entries: Vec::new(),
        }
    }

    /// A layer of a sentinel node alone.
    pub fn empty() -> (r: Self)
        ensures
            r.inner.wf(),
            r.inner.contents().len() == 1,
            Self::is_sentinel(r.inner.contents()[0]),
    {
        Self { inner: LinkedList::new(Self::sentinel()) }
    }

    /// Deals the items out to one node per segment, in order: an item opens
    /// the next node when its key reaches that node's first key. Returns the
    /// nodes and, for each item, the position of the node that took it.
    fn build_nodes(segs: &Vec<CanonicalSegment<K>>, items: &Vec<(K, Index)>) -> (r: (Vec<PGMNode<K>>, Vec<usize>))
        requires
            segs@.len() >= 1,
        ensures
            laid_out(r.0@, segs@, items@),
            r.1@.len() == items@.len(),
            forall|i: int|
                0 <= i < items@.len() ==> (#[trigger] r.1@[i]) < r.0@.len() && r.0@[r.1@[i] as int].entries@.contains(
                    item_entry(items@[i]),
                ),
    {
        let m = segs.len();
        let mut nodes: Vec<PGMNode<K>> = Vec::new();
        let mut cur: Vec<Entry<K, Index>> = Vec::new();
        let mut targets: Vec<usize> = Vec::new();
        let mut i: usize = 0;
        proof {
            assert(node_entries(nodes@).flatten() =~= Seq::<Entry<K, Index>>::empty()) by {
                assert(node_entries(nodes@) =~= Seq::<Seq<Entry<K, Index>>>::empty());
            }
            assert(item_entries(items@.subrange(0, 0)) =~= Seq::<Entry<K, Index>>::empty());
        }
        while i < items.len()
            invariant
                m == segs@.len(),
                m >= 1,
                0 <= i <= items@.len(),
                nodes@.len() < m,
                forall|k: int| 0 <= k < nodes@.len() ==> (#[trigger] nodes@[k]).segment == segs@[k],
                node_entries(nodes@).flatten() + cur@ == item_entries(items@.subrange(0, i as int)),
                targets@.len() == i,
                forall|q: int|
                    0 <= q < i ==> (#[trigger] targets@[q]) <= nodes@.len() && (targets@[q] < nodes@.len() ==> nodes@[targets@[q] as int].entries@.contains(
                        item_entry(items@[q]),
                    )) && (targets@[q] == nodes@.len() ==> cur@.contains(item_entry(items@[q]))),
            decreases items@.len() - i,
        {
            let (key, hnd) = items[i];
            if nodes.len() + 1 < m && segs[nodes.len() + 1].first.key_le(&key) {
                let ghost nodes0 = nodes@;
                let ghost cur0 = cur@;
                let node = PGMNode { segment: segs[nodes.len()], entries: cur };
                nodes.push(node);
                cur = Vec::new();
                proof {
                    assert(node_entries(nodes@) =~= node_entries(nodes0).push(cur0));
                    Seq::lemma_flatten_push(node_entries(nodes0), cur0);
                    assert(node_entries(nodes@).flatten() + cur@ =~= node_entries(nodes0).flatten() + cur0);
                    assert forall|q: int| 0 <= q < i implies (#[trigger] targets@[q]) <= nodes@.len() && (targets@[q]
                        < nodes@.len() ==> nodes@[targets@[q] as int].entries@.contains(item_entry(items@[q]))) && (
                    targets@[q] == nodes@.len() ==> cur@.contains(item_entry(items@[q]))) by {
                        if targets@[q] < nodes0.len() {
                            assert(nodes@[targets@[q] as int] == nodes0[targets@[q] as int]);
                        }
                    }
                }
            }
            let ghost cur1 = cur@;
            let e = Entry { key, value: hnd };
            cur.push(e);
            targets.push(nodes.len());
            proof {
                assert(e == item_entry(items@[i as int]));
                assert(item_entries(items@.subrange(0, i + 1)) =~= item_entries(items@.subrange(0, i as int)).push(e));
                assert(node_entries(nodes@).flatten() + cur@ =~= (node_entries(nodes@).flatten() + cur1).push(e));
                assert(cur@.contains(e)) by {
                    assert(cur@[cur@.len() - 1] == e);
                }
                assert forall|q: int| 0 <= q < i + 1 implies (#[trigger] targets@[q]) <= nodes@.len() && (targets@[q]
                    < nodes@.len() ==> nodes@[targets@[q] as int].entries@.contains(item_entry(items@[q]))) && (
                targets@[q] == nodes@.len() ==> cur@.contains(item_entry(items@[q]))) by {
                    if q < i && targets@[q] == nodes@.len() {
                        let w = choose|w: int| 0 <= w < cur1.len() && cur1[w] == item_entry(items@[q]);
                        assert(cur@[w] == cur1[w]);
                    }
                }
            }
            i += 1;
        }
        let ghost nodes0 = nodes@;
        let ghost cur0 = cur@;
        let node = PGMNode { segment: segs[nodes.len()], entries: cur };
        nodes.push(node);
        proof {
            assert(items@.subrange(0, i as int) =~= items@);
            assert(node_entries(nodes@) =~= node_entries(nodes0).push(cur0));
            Seq::lemma_flatten_push(node_entries(nodes0), cur0);
            assert forall|q: int| 0 <= q < items@.len() implies (#[trigger] targets@[q]) < nodes@.len() && nodes@[targets@[q] as int].entries@.contains(item_entry(items@[q])) by {
                if targets@[q] < nodes0.len() {
                    assert(nodes@[targets@[q] as int] == nodes0[targets@[q] as int]);
                }
            }
        }
        while nodes.len() < m
            invariant
                m == segs@.len(),
                1 <= nodes@.len() <= m,
                forall|k: int| 0 <= k < nodes@.len() ==> (#[trigger] nodes@[k]).segment == segs@[k],
                node_entries(nodes@).flatten() == item_entries(items@),
                targets@.len() == items@.len(),
                forall|q: int|
                    0 <= q < items@.len() ==> (#[trigger] targets@[q]) < nodes@.len() && nodes@[targets@[q] as int].entries@.contains(
                        item_entry(items@[q]),
                    ),
            decreases m - nodes@.len(),
        {
            let ghost nodes1 = nodes@;
            let node = PGMNode { segment: segs[nodes.len()], entries: Vec::new() };
            nodes.push(node);
            proof {
                assert(node_entries(nodes@) =~= node_entries(nodes1).push(Seq::<Entry<K, Index>>::empty()));
                Seq::lemma_flatten_push(node_entries(nodes1), Seq::<Entry<K, Index>>::empty());
                assert(node_entries(nodes1).flatten() + Seq::<Entry<K, Index>>::empty() =~= node_entries(nodes1).flatten());
                assert forall|q: int| 0 <= q < items@.len() implies (#[trigger] targets@[q]) < nodes@.len()
                    && nodes@[targets@[q] as int].entries@.contains(item_entry(items@[q])) by {
                    assert(nodes@[targets@[q] as int] == nodes1[targets@[q] as int]);
                }
            }
        }
        proof {
            assert(node_segments(nodes@) =~= segs@);
        }
        (nodes, targets)
    }

    /// The layer and `base` after a replace: the run of nodes of the layer
    /// from `poison_head` to `poison_tail` gave way to new nodes that lay out
    /// the run of `base` from `data_head` to `data_tail` over segments that
    /// the segmentation gives for it, and each node of that run of `base`
    /// points to the new node that took its entry.
    pub open spec fn replaced<B: NodeLayer<K, Index>>(
        s0: Self,
        s1: Self,
        b0: B,
        b1: B,
        poison_head: Index,
        poison_tail: Index,
        data_head: Index,
        data_tail: Index,
    ) -> bool {
        let c = s0.inner.handles();
        let v = s0.inner.contents();
        let n = c.len() as int;
        let h = s0.inner.pos_of(poison_head);
        let t = s0.inner.pos_of(poison_tail);
        let f = s1.inner.handles();
        let m = f.len() - (n - (t + 1 - h));
        let nodes = s1.inner.contents().subrange(h, h + m);
        let run = data_run(b0, data_head, data_tail);
        let bh = b0.layer_handles();
        &&& 1 <= m <= run.len()
        &&& f.subrange(0, h) == c.subrange(0, h)
        &&& f.subrange(h + m, f.len() as int) == c.subrange(t + 1, n)
        &&& s1.inner.contents() == v.subrange(0, h) + nodes + v.subrange(t + 1, n)
        &&& node_entries(nodes).flatten() == item_entries(run)
        &&& Self::segmented(nodes, run)
        &&& forall|i: int|
            0 <= i < run.len() ==> exists|k: int|
                0 <= k < m && b1.parent_at(#[trigger] run[i].1) == Some(f[h + k]) && nodes[k].entries@.contains(
                    item_entry(run[i]),
                )
        &&& forall|j: int|
            0 <= j < bh.len() && !(handle_pos(bh, data_head) <= j <= handle_pos(bh, data_tail)) ==> b1.parent_at(
                #[trigger] bh[j],
            ) == b0.parent_at(bh[j])
    }

    /// Replaces the nodes of this layer from `poison_head` to `poison_tail`
    /// (which cover a run of `base` that changed) with new nodes built from
    /// the nodes of `base` from `data_head` to `data_tail`: their smallest
    /// keys and handles are segmented, dealt out to one new node per segment,
    /// and each of those nodes of `base` is pointed to the new node that took
    /// it.
    pub fn replace<B: NodeLayer<K, Index>>(
        &mut self,
        base: &mut B,
        poison_head: Index,
        poison_tail: Index,
        data_head: Index,
        data_tail: Index,
    )
        requires
            old(self).inner.wf(),
            old(self).inner.handles().contains(poison_head),
            old(self).inner.handles().contains(poison_tail),
            old(self).inner.pos_of(poison_head) <= old(self).inner.pos_of(poison_tail) < old(self).inner.handles().len()
                - 1,
            old(base).layer_wf(),
            old(base).layer_handles().contains(data_head),
            old(base).layer_handles().contains(data_tail),
            handle_pos(old(base).layer_handles(), data_head) <= handle_pos(old(base).layer_handles(), data_tail),
            items_sorted(data_run(*old(base), data_head, data_tail)),
            forall|j: int|
                0 <= j < data_run(*old(base), data_head, data_tail).len() ==> -KEY_LIMIT <= #[trigger] data_run(
                    *old(base),
                    data_head,
                    data_tail,
                )[j].0.key_int() <= KEY_LIMIT,
            data_run(*old(base), data_head, data_tail).len() + EPSILON <= RANK_LIMIT,
            data_run(*old(base), data_head, data_tail).len() + EPSILON <= usize::MAX,
            old(self).inner.slot_count() + data_run(*old(base), data_head, data_tail).len() <= usize::MAX,
        ensures
            final(self).inner.wf(),
            final(base).layer_wf(),
            final(base).same_nodes(old(base)),
            Self::replaced(*old(self), *final(self), *old(base), *final(base), poison_head, poison_tail, data_head, data_tail),
    {
        let ghost s0 = *self;
        let ghost b0 = *base;
        let ghost bh = base.layer_handles();
        let ghost dh = handle_pos(bh, data_head);
        let ghost dt = handle_pos(bh, data_tail);
        let items = Self::collect_run(&*base, data_head, data_tail);
        let ghost run = items@;
        let (nodes, targets) = Self::segment_run(&items);
        let nseg = nodes.len();
        let ghost built = nodes@;
        let ghost m = nodes@.len() as int;
        let ghost c = self.inner.handles();
        let ghost h = self.inner.pos_of(poison_head);
        let ghost t = self.inner.pos_of(poison_tail);
        proof {
            self.inner.lemma_links(h);
        }
        let prev = self.inner.deref(poison_head).previous();
        self.inner.replace(poison_head, poison_tail, nodes);
        let ghost f = self.inner.handles();
        proof {
            assert(f.len() == c.len() - (t + 1 - h) + m);
            let v = s0.inner.contents();
            assert(self.inner.contents() == v.subrange(0, h) + built + v.subrange(t + 1, c.len() as int));
            assert(self.inner.contents().subrange(h, h + m) =~= built);
        }
        // The handle of the first new node
        let first_new = match prev {
            None => self.inner.first(),
            Some(p) => {
                proof {
                    assert(p == c[h - 1]);
                    assert(f[h - 1] == c[h - 1]) by {
                        assert(f.subrange(0, h)[h - 1] == c.subrange(0, h)[h - 1]);
                    }
                    self.inner.lemma_links(h - 1);
                }
                self.inner.deref(p).next().unwrap()
            },
        };
        proof {
            if h == 0 {
                assert(first_new == f[0]);
            }
        }
        // The handles of the new nodes, in order
        let mut fresh: Vec<Index> = Vec::new();
        let mut cur = first_new;
        loop
            invariant_except_break
                self.inner.wf(),
                f == self.inner.handles(),
                0 <= h,
                h + m < f.len(),
                m >= 1,
                fresh@.len() < m,
                nseg == m,
                cur == f[h + fresh@.len()],
                forall|q: int| 0 <= q < fresh@.len() ==> #[trigger] fresh@[q] == f[h + q],
            ensures
                fresh@.len() == m,
                forall|q: int| 0 <= q < m ==> #[trigger] fresh@[q] == f[h + q],
            decreases m - fresh@.len(),
        {
            let ghost k = h + fresh@.len();
            fresh.push(cur);
            if fresh.len() == nseg {
                break;
            }
            proof {
                self.inner.lemma_links(k);
            }
            cur = self.inner.deref(cur).next().unwrap();
        }
        // Point each node of the run of `base` to the new node that took it
        proof {
            base.lemma_handles_distinct();
            assert forall|q: int| 0 <= q < run.len() implies #[trigger] run[q].1 == bh[dh + q] by {
                assert(run[q] == layer_items(b0)[dh + q]);
            }
        }
        Self::point_parents(base, &items, &targets, &fresh, Ghost(dh));
        proof {
            let nodes_f = self.inner.contents().subrange(h, h + m);
            assert(nodes_f == built);
            assert forall|i: int| 0 <= i < run.len() implies exists|k: int|
                0 <= k < m && base.parent_at(#[trigger] run[i].1) == Some(f[h + k]) && nodes_f[k].entries@.contains(
                    item_entry(run[i]),
                ) by {
                let k = targets@[i] as int;
                assert(fresh@[k] == f[h + k]);
                assert(built[k].entries@.contains(item_entry(items@[i])));
            }
        }
    }

    /// `s` is the layer that a fill with `items` gives: new nodes that lay
    /// out the items over segments that the segmentation gives for them, none
    /// with a parent yet, then a sentinel node.
    pub open spec fn filled(s: Self, items: Seq<(K, Index)>) -> bool {
        let f = s.inner.handles();
        let m = f.len() - 1;
        let nodes = s.inner.contents().subrange(0, m);
        &&& s.inner.wf()
        &&& 1 <= m <= items.len()
        &&& Self::is_sentinel(s.inner.contents().last())
        &&& node_entries(nodes).flatten() == item_entries(items)
        &&& Self::segmented(nodes, items)
        &&& forall|k: int| 0 <= k < m ==> s.inner.node_of(#[trigger] f[k]).parent_link() is None
    }

    /// Rebuilds the layer from `items`, the smallest keys and handles of the
    /// nodes of the layer below, in order: they are segmented, with their
    /// positions as ranks, and dealt out to one new node per segment, before
    /// a new sentinel node.
    pub fn fill(&mut self, items: Vec<(K, Index)>)
        requires
            items@.len() >= 1,
            items_sorted(items@),
            forall|j: int| 0 <= j < items@.len() ==> -KEY_LIMIT <= #[trigger] items@[j].0.key_int() <= KEY_LIMIT,
            items@.len() + EPSILON <= RANK_LIMIT,
            items@.len() + EPSILON <= usize::MAX,
            items@.len() < usize::MAX,
        ensures
            Self::filled(*final(self), items@),
    {
        self.fill_tracked(&items);
    }

    /// Fills the layer as `fill` does, and returns the handles of the new
    /// nodes and, for each item, the position of the node that took it.
    fn fill_tracked(&mut self, items: &Vec<(K, Index)>) -> (r: (Vec<Index>, Vec<usize>))
        requires
            items@.len() >= 1,
            items_sorted(items@),
            forall|j: int| 0 <= j < items@.len() ==> -KEY_LIMIT <= #[trigger] items@[j].0.key_int() <= KEY_LIMIT,
            items@.len() + EPSILON <= RANK_LIMIT,
            items@.len() + EPSILON <= usize::MAX,
            items@.len() < usize::MAX,
        ensures
            Self::filled(*final(self), items@),
            r.0@ == final(self).inner.handles().subrange(0, final(self).inner.handles().len() - 1),
            r.1@.len() == items@.len(),
            forall|i: int|
                0 <= i < items@.len() ==> (#[trigger] r.1@[i]) < r.0@.len() && final(self).inner.contents()[r.1@[i] as int].entries@.contains(
                    item_entry(items@[i]),
                ),
    {
        let (mut nodes, targets) = Self::segment_run(items);
        let m = nodes.len();
        let ghost built = nodes@;
        let sentinel = Self::sentinel();
        let ghost sv = sentinel;
        let sent = self.inner.clear(sentinel);
        let mut fresh: Vec<Index> = Vec::new();
        let mut k: usize = 0;
        proof {
            assert(built.subrange(0, 0).push(sv) =~= seq![sv]);
            assert(fresh@.push(sent) =~= seq![sent]);
            assert(nodes@ =~= built.subrange(0, built.len() as int));
        }
        while k < m
            invariant
                m == built.len(),
                m <= items@.len(),
                items@.len() < usize::MAX,
                0 <= k <= m,
                self.inner.wf(),
                self.inner.handles() == fresh@.push(sent),
                self.inner.contents() == built.subrange(0, k as int).push(sv),
                nodes@ == built.subrange(k as int, m as int),
                self.inner.slot_count() == k + 1,
                fresh@.len() == k,
                forall|q: int| 0 <= q < k ==> self.inner.node_of(#[trigger] fresh@[q]).parent_link() is None,
            decreases m - k,
        {
            let ghost l0 = self.inner;
            let node = nodes.remove(0);
            let h = self.inner.append_before_sentinel(node);
            fresh.push(h);
            proof {
                assert(node == built[k as int]);
                assert(self.inner.handles() =~= fresh@.push(sent));
                assert(self.inner.contents() =~= built.subrange(0, k + 1).push(sv));
                assert(nodes@ =~= built.subrange(k + 1, m as int));
                assert forall|q: int| 0 <= q < k + 1 implies self.inner.node_of(#[trigger] fresh@[q]).parent_link() is None by {
                    if q < k {
                        assert(l0.handles().contains(fresh@[q])) by {
                            assert(l0.handles()[q] == fresh@[q]);
                        }
                    }
                }
            }
            k += 1;
        }
        proof {
            assert(built.subrange(0, m as int) =~= built);
            let f = self.inner.handles();
            assert(self.inner.contents().subrange(0, m as int) =~= built);
            assert(f.subrange(0, f.len() - 1) =~= fresh@);
            assert forall|i: int|
                0 <= i < items@.len() implies (#[trigger] targets@[i]) < fresh@.len() && self.inner.contents()[targets@[i] as int].entries@.contains(
                    item_entry(items@[i]),
                ) by {
                assert(self.inner.contents()[targets@[i] as int] == built[targets@[i] as int]);
            }
        }
        (fresh, targets)
    }

    /// The layer and `base` after a fill from beneath: the layer is what a
    /// fill with the smallest keys and handles of all the nodes of `base`
    /// gives, and each node of `base` points to the new node that took its
    /// entry.
    pub open spec fn filled_from<B: NodeLayer<K, Index>>(s1: Self, b0: B, b1: B) -> bool {
        let f = s1.inner.handles();
        let m = f.len() - 1;
        let nodes = s1.inner.contents().subrange(0, m);
        let run = layer_items(b0);
        &&& Self::filled(s1, run)
        &&& forall|i: int|
            0 <= i < run.len() ==> exists|k: int|
                0 <= k < m && b1.parent_at(#[trigger] run[i].1) == Some(f[k]) && nodes[k].entries@.contains(
                    item_entry(run[i]),
                )
    }

    /// Rebuilds the layer from all the nodes of `base`, as `fill` does with
    /// their smallest keys and handles, and points every node of `base` to
    /// the new node that took it.
    pub fn fill_from_beneath<B: NodeLayer<K, Index>>(&mut self, base: &mut B)
        requires
            old(base).layer_wf(),
            old(base).layer_handles().len() >= 1,
            items_sorted(layer_items(*old(base))),
            forall|j: int|
                0 <= j < old(base).layer_handles().len() ==> -KEY_LIMIT <= #[trigger] layer_items(*old(base))[j].0.key_int()
                    <= KEY_LIMIT,
            old(base).layer_handles().len() + EPSILON <= RANK_LIMIT,
            old(base).layer_handles().len() + EPSILON <= usize::MAX,
            old(base).layer_handles().len() < usize::MAX,
        ensures
            final(self).inner.wf(),
            final(base).layer_wf(),
            final(base).same_nodes(old(base)),
            Self::filled_from(*final(self), *old(base), *final(base)),
    {
        let ghost b0 = *base;
        let ghost bh = base.layer_handles();
        let ghost n = bh.len() as int;
        let head = base.first();
        let tail = base.last();
        proof {
            base.lemma_handles_distinct();
            assert(handle_pos(bh, head) == 0) by {
                let k = handle_pos(bh, head);
                assert(bh.contains(head));
                assert(bh[k] == bh[0]);
            }
            assert(handle_pos(bh, tail) == n - 1) by {
                let k = handle_pos(bh, tail);
                assert(bh[n - 1] == tail);
                assert(bh.contains(tail));
                assert(bh[k] == bh[n - 1]);
            }
            assert(data_run(b0, head, tail) =~= layer_items(b0));
        }
        let items = Self::collect_run(&*base, head, tail);
        let (fresh, targets) = self.fill_tracked(&items);
        proof {
            assert forall|q: int| 0 <= q < items@.len() implies #[trigger] items@[q].1 == bh[0 + q] by {
                assert(items@[q] == layer_items(b0)[q]);
            }
        }
        Self::point_parents(base, &items, &targets, &fresh, Ghost(0));
        proof {
            let f = self.inner.handles();
            let m = f.len() - 1;
            let nodes_f = self.inner.contents().subrange(0, m);
            assert forall|i: int| 0 <= i < items@.len() implies exists|j: int|
                0 <= j < m && base.parent_at(#[trigger] items@[i].1) == Some(f[j]) && nodes_f[j].entries@.contains(
                    item_entry(items@[i]),
                ) by {
                let j = targets@[i] as int;
                assert(fresh@[j] == f[j]);
                assert(nodes_f[j] == self.inner.contents()[j]);
            }
        }
    }

    /// Segments the items, with their positions as ranks, and deals them out
    /// to one node per segment. Returns the nodes and, for each item, the
    /// position of the node that took it.
    fn segment_run(items: &Vec<(K, Index)>) -> (r: (Vec<PGMNode<K>>, Vec<usize>))
        requires
            items@.len() >= 1,
            items_sorted(items@),
            forall|j: int| 0 <= j < items@.len() ==> -KEY_LIMIT <= #[trigger] items@[j].0.key_int() <= KEY_LIMIT,
            items@.len() + EPSILON <= RANK_LIMIT,
            items@.len() + EPSILON <= usize::MAX,
        ensures
            1 <= r.0@.len() <= items@.len(),
            node_entries(r.0@).flatten() == item_entries(items@),
            Self::segmented(r.0@, items@),
            r.1@.len() == items@.len(),
            forall|i: int|
                0 <= i < items@.len() ==> (#[trigger] r.1@[i]) < r.0@.len() && r.0@[r.1@[i] as int].entries@.contains(
                    item_entry(items@[i]),
                ),
    {
        let mut key_ranks: Vec<(K, usize)> = Vec::new();
        let mut i: usize = 0;
        while i < items.len()
            invariant
                0 <= i <= items@.len(),
                key_ranks@ == key_rank_points(items@).subrange(0, i as int),
            decreases items@.len() - i,
        {
            key_ranks.push((items[i].0, i));
            proof {
                assert(key_ranks@ =~= key_rank_points(items@).subrange(0, i + 1));
            }
            i += 1;
        }
        proof {
            assert(key_ranks@ =~= key_rank_points(items@));
            assert forall|j: int| 0 <= j < key_ranks@.len() implies -KEY_LIMIT <= #[trigger] key_ranks@[j].0.key_int()
                <= KEY_LIMIT by {
                assert(key_ranks@[j].0 == items@[j].0);
            }
            assert forall|j: int| #![trigger run_end(key_ranks@, j)] !run_end(key_ranks@, j) by {
                if 0 < j < key_ranks@.len() {
                    assert(key_ranks@[j].0 == items@[j].0);
                    assert(key_ranks@[j - 1].0 == items@[j - 1].0);
                }
            }
        }
        let segs = PGMSegmentation::make_segmentation::<K, EPSILON>(&key_ranks);
        let (nodes, targets) = Self::build_nodes(&segs, &items);
        proof {
            assert(node_segments(nodes@).len() == nodes@.len());
        }
        (nodes, targets)
    }

    /// Points the node `items[q].1` of `base`, which stands at position
    /// `start + q` there, to `fresh[targets[q]]`, for every `q`; the other
    /// nodes keep their parents.
    fn point_parents<B: NodeLayer<K, Index>>(
        base: &mut B,
        items: &Vec<(K, Index)>,
        targets: &Vec<usize>,
        fresh: &Vec<Index>,
        Ghost(start): Ghost<int>,
    )
        requires
            old(base).layer_wf(),
            old(base).layer_handles().no_duplicates(),
            0 <= start,
            start + items@.len() <= old(base).layer_handles().len(),
            forall|q: int| 0 <= q < items@.len() ==> #[trigger] items@[q].1 == old(base).layer_handles()[start + q],
            targets@.len() == items@.len(),
            forall|q: int| 0 <= q < items@.len() ==> (#[trigger] targets@[q]) < fresh@.len(),
        ensures
            final(base).layer_wf(),
            final(base).same_nodes(old(base)),
            forall|q: int|
                0 <= q < items@.len() ==> final(base).parent_at(#[trigger] items@[q].1) == Some(fresh@[targets@[q] as int]),
            forall|x: int|
                0 <= x < old(base).layer_handles().len() && !(start <= x < start + items@.len()) ==> final(base).parent_at(
                    #[trigger] old(base).layer_handles()[x],
                ) == old(base).parent_at(old(base).layer_handles()[x]),
    {
        let ghost b0 = *base;
        let ghost bh = base.layer_handles();
        proof {
            B::lemma_same_nodes(&b0, &b0, &b0);
        }
        let mut j: usize = 0;
        while j < items.len()
            invariant
                b0 == *old(base),
                bh == b0.layer_handles(),
                bh.no_duplicates(),
                0 <= start,
                start + items@.len() <= bh.len(),
                forall|q: int| 0 <= q < items@.len() ==> #[trigger] items@[q].1 == bh[start + q],
                targets@.len() == items@.len(),
                forall|q: int| 0 <= q < items@.len() ==> (#[trigger] targets@[q]) < fresh@.len(),
                base.layer_wf(),
                base.same_nodes(&b0),
                0 <= j <= items@.len(),
                forall|q: int| 0 <= q < j ==> base.parent_at(#[trigger] items@[q].1) == Some(fresh@[targets@[q] as int]),
                forall|x: int|
                    0 <= x < bh.len() && !(start <= x < start + j) ==> base.parent_at(#[trigger] bh[x]) == b0.parent_at(bh[x]),
            decreases items@.len() - j,
        {
            let ghost b1 = *base;
            proof {
                B::lemma_same_nodes(&b1, &b0, &b0);
                assert(b1.layer_handles().contains(bh[start + j]));
            }
            base.set_parent(items[j].1, fresh[targets[j]]);
            proof {
                B::lemma_same_nodes(&*base, &b1, &b0);
                assert forall|q: int| 0 <= q < j + 1 implies base.parent_at(#[trigger] items@[q].1) == Some(
                    fresh@[targets@[q] as int],
                ) by {
                    if q < j {
                        assert(bh[start + q] != bh[start + j]);
                        assert(b1.layer_handles().contains(items@[q].1));
                    }
                }
                assert forall|x: int| 0 <= x < bh.len() && !(start <= x < start + j + 1) implies base.parent_at(
                    #[trigger] bh[x],
                ) == b0.parent_at(bh[x]) by {
                    assert(bh[x] != bh[start + j]);
                    assert(b1.layer_handles().contains(bh[x]));
                }
            }
            j += 1;
        }
    }

    /// The smallest keys and handles of the nodes of `base` from `head` to
    /// `tail`, in order.
    fn collect_run<B: NodeLayer<K, Index>>(base: &B, head: Index, tail: Index) -> (r: Vec<(K, Index)>)
        requires
            base.layer_wf(),
            base.layer_handles().contains(head),
            base.layer_handles().contains(tail),
            handle_pos(base.layer_handles(), head) <= handle_pos(base.layer_handles(), tail),
        ensures
            r@ == data_run(*base, head, tail),
    {
        let ghost bh = base.layer_handles();
        let ghost dh = handle_pos(bh, head);
        let ghost dt = handle_pos(bh, tail);
        let ghost want = data_run(*base, head, tail);
        proof {
            base.lemma_handles_distinct();
            assert(want.len() == dt - dh + 1);
        }
        let mut items: Vec<(K, Index)> = Vec::new();
        let mut c = head;
        loop
            invariant_except_break
                base.layer_wf(),
                bh == base.layer_handles(),
                bh.no_duplicates(),
                0 <= dh <= dt < bh.len(),
                dh == handle_pos(bh, head),
                dt == handle_pos(bh, tail),
                bh[dt] == tail,
                want == data_run(*base, head, tail),
                want.len() == dt - dh + 1,
                items@.len() <= dt - dh,
                c == bh[dh + items@.len()],
                forall|q: int| 0 <= q < items@.len() ==> #[trigger] items@[q] == want[q],
            ensures
                items@ == want,
            decreases dt - dh - items@.len(),
        {
            let ghost k = dh + items@.len();
            let key = base.lower_bound(c);
            items.push((key, c));
            proof {
                assert(want[k - dh] == layer_items(*base)[k]);
                assert(layer_items(*base)[k] == (base.key_at(bh[k]), bh[k]));
                assert(items@.last() == want[items@.len() - 1]);
            }
            if c == tail {
                proof {
                    assert(bh[k] == bh[dt]);
                    assert(k == dt);
                    assert(items@ =~= want);
                }
                break;
            }
            proof {
                assert(k != dt);
            }
            let nx = base.next_node(c);
            c = nx.unwrap();
        }
        items
    }
}

} // verus!
