//! Walks over a run of the nodes of a list, from a start bound to an end
//! bound, giving each node's smallest key and handle.
use vstd::prelude::*;
use crate::linked_list::{Bound, Index, LinkedList};
use crate::traits::KeyBounded;
use std::marker::PhantomData;

verus! {

/// The node where a walk from `start` begins.
pub open spec fn start_cursor<N, PA>(layer: LinkedList<N, PA>, start: Bound) -> Option<Index> {
    match start {
        Bound::Excluded(h) => layer.node_of(h).next_link(),
        Bound::Included(h) => Some(h),
        Bound::Unbounded => Some(layer.head()),
    }
}

/// The node where a walk goes after `c`, towards `end`: none after the node
/// that `end` includes, else the next one.
pub open spec fn step_cursor<N, PA>(layer: LinkedList<N, PA>, c: Index, end: Bound) -> Option<Index> {
    if end == Bound::Included(c) {
        None
    } else {
        layer.node_of(c).next_link()
    }
}

/// The handles that a walk standing on `cur` towards `end` gives, taking at
/// most `fuel` steps.
pub open spec fn walk_from<N, PA>(layer: LinkedList<N, PA>, cur: Option<Index>, end: Bound, fuel: nat) -> Seq<Index>
    decreases fuel,
{
    match cur {
        None => Seq::empty(),
        Some(c) => if fuel == 0 || end == Bound::Excluded(c) {
            Seq::empty()
        } else {
            seq![c] + walk_from(layer, step_cursor(layer, c, end), end, (fuel - 1) as nat)
        },
    }
}

proof fn lemma_walk_to<N, PA>(layer: LinkedList<N, PA>, i: int, j: int, end: Bound, fuel: nat)
    requires
        layer.wf(),
        0 <= i <= j < layer.handles().len(),
        end == Bound::Included(layer.handles()[j]) || end == Bound::Excluded(layer.handles()[j]) || (end
            == Bound::Unbounded && j == layer.handles().len() - 1),
        fuel >= j - i + 1,
    ensures
        walk_from(layer, Some(layer.handles()[i]), end, fuel) == (if end == Bound::Excluded(layer.handles()[j]) {
            layer.handles().subrange(i, j)
        } else {
            layer.handles().subrange(i, j + 1)
        }),
    decreases j - i,
{
    let hs = layer.handles();
    layer.lemma_links(i);
    if i < j {
        assert(hs[i] != hs[j]);
        assert(end != Bound::Excluded(hs[i]));
        assert(end != Bound::Included(hs[i]));
        assert(step_cursor(layer, hs[i], end) == Some(hs[i + 1]));
        lemma_walk_to(layer, i + 1, j, end, (fuel - 1) as nat);
        assert(walk_from(layer, Some(hs[i]), end, fuel) == seq![hs[i]] + walk_from(
            layer,
            Some(hs[i + 1]),
            end,
            (fuel - 1) as nat,
        ));
        if end == Bound::Excluded(hs[j]) {
            assert(seq![hs[i]] + hs.subrange(i + 1, j) =~= hs.subrange(i, j));
        } else {
            assert(seq![hs[i]] + hs.subrange(i + 1, j + 1) =~= hs.subrange(i, j + 1));
        }
    } else {
        if end == Bound::Excluded(hs[j]) {
            assert(hs.subrange(i, j) =~= Seq::<Index>::empty());
        } else {
            let next = step_cursor(layer, hs[i], end);
            assert(next is None);
            assert(walk_from(layer, next, end, (fuel - 1) as nat) == Seq::<Index>::empty());
            assert(walk_from(layer, Some(hs[i]), end, fuel) == seq![hs[i]] + walk_from(layer, next, end, (fuel - 1) as nat));
            assert(hs.subrange(i, j + 1) =~= seq![hs[i]]);
            assert(seq![hs[i]] + Seq::<Index>::empty() =~= seq![hs[i]]);
        }
    }
}

/// A walk over a list from the node at position `i` gives the nodes in list
/// order: up to the node at position `j` where the end includes it, up to the
/// node before it where the end excludes it, and up to the last node where the
/// end is unbounded.
pub proof fn lemma_walk_in_order<N, PA>(layer: LinkedList<N, PA>, i: int, j: int)
    requires
        layer.wf(),
        0 <= i <= j < layer.handles().len(),
    ensures
        walk_from(layer, Some(layer.handles()[i]), Bound::Included(layer.handles()[j]), layer.handles().len() as nat)
            == layer.handles().subrange(i, j + 1),
        walk_from(layer, Some(layer.handles()[i]), Bound::Excluded(layer.handles()[j]), layer.handles().len() as nat)
            == layer.handles().subrange(i, j),
        j == layer.handles().len() - 1 ==> walk_from(
            layer,
            Some(layer.handles()[i]),
            Bound::Unbounded,
            layer.handles().len() as nat,
        ) == layer.handles().subrange(i, j + 1),
{
    let n = layer.handles().len() as nat;
    lemma_walk_to(layer, i, j, Bound::Included(layer.handles()[j]), n);
    lemma_walk_to(layer, i, j, Bound::Excluded(layer.handles()[j]), n);
    if j == layer.handles().len() - 1 {
        lemma_walk_to(layer, i, j, Bound::Unbounded, n);
    }
}

/// A walk over the nodes of a list.
pub struct Iter<'n, K, N, PA> {
    layer: &'n LinkedList<N, PA>,
    current: Option<Index>,
    end: Bound,
    _ph: PhantomData<K>,
}

impl<'n, K, N: KeyBounded<K>, PA> Iter<'n, K, N, PA> {
    /// The list walked over.
    pub closed spec fn layer_spec(&self) -> LinkedList<N, PA> {
        *self.layer
    }

    /// The node that the walk gives next, if any.
    pub closed spec fn cursor(&self) -> Option<Index> {
        self.current
    }

    /// Where the walk ends.
    pub closed spec fn end_bound(&self) -> Bound {
        self.end
    }

    /// The walk is over a consistent list and stands on one of its nodes, or
    /// on none.
    pub open spec fn valid(&self) -> bool {
        &&& self.layer_spec().wf()
        &&& (self.cursor() matches Some(c) ==> self.layer_spec().handles().contains(c))
    }

    /// A walk over `layer` from `start` to `end`.
    pub fn range(layer: &'n LinkedList<N, PA>, start: Bound, end: Bound) -> (r: Self)
        requires
            layer.wf(),
            layer.bound_ok(start),
        ensures
            r.layer_spec() == *layer,
            r.end_bound() == end,
            r.cursor() == start_cursor(*layer, start),
            r.valid(),
    {
        proof {
            match start {
                Bound::Excluded(h) => {
                    let k = layer.pos_of(h);
                    layer.lemma_links(k);
                    if k + 1 < layer.handles().len() {
                        assert(layer.handles().contains(layer.handles()[k + 1]));
                    }
                },
                Bound::Included(h) => {},
                Bound::Unbounded => {
                    assert(layer.handles().contains(layer.handles()[0]));
                },
            }
        }
        match start {
            Bound::Excluded(start) => Self { layer, current: layer.deref(start).next(), end, _ph: PhantomData },
            Bound::Included(start) => Self { layer, current: Some(start), end, _ph: PhantomData },
            Bound::Unbounded => Self { layer, current: Some(layer.first()), end, _ph: PhantomData },
        }
    }

    /// Gives the current node's smallest key and handle and moves on; gives
    /// nothing once the walk is past the end, or stands on the node that the
    /// end excludes.
    pub fn next(&mut self) -> (r: Option<(K, Index)>)
        requires
            old(self).valid(),
        ensures
            final(self).valid(),
            final(self).layer_spec() == old(self).layer_spec(),
            final(self).end_bound() == old(self).end_bound(),
            match old(self).cursor() {
                None => r is None && final(self).cursor() is None,
                Some(c) => if old(self).end_bound() == Bound::Excluded(c) {
                    r is None && final(self).cursor() == old(self).cursor()
                } else {
                    &&& r == Some((old(self).layer_spec().node_of(c).data().bound_of(), c))
                    &&& final(self).cursor() == step_cursor(old(self).layer_spec(), c, old(self).end_bound())
                },
            },
    {
        let current = match self.current {
            Some(c) => c,
            None => {
                return None;
            },
        };
        proof {
            let k = self.layer.pos_of(current);
            self.layer.lemma_links(k);
            if k + 1 < self.layer.handles().len() {
                assert(self.layer.handles().contains(self.layer.handles()[k + 1]));
            }
        }
        match self.end {
            Bound::Excluded(end) => {
                if current == end {
                    return None;
                }
            },
            Bound::Included(end) => {
                if current == end {
                    self.current = None;
                }
            },
            Bound::Unbounded => {},
        }
        if self.current.is_some() {
            self.current = self.layer.deref(current).next();
        }
        Some((self.layer.get(current).lower_bound(), current))
    }
}

/// A node met by a walk that sets parents: its smallest key and its handle.
pub struct MutNodeView<K> {
    key: K,
    current: Index,
}

impl<K: Copy> MutNodeView<K> {
    /// The node's smallest key.
    pub closed spec fn key_spec(&self) -> K {
        self.key
    }

    /// The node's handle.
    pub closed spec fn address_spec(&self) -> Index {
        self.current
    }

    /// The node's smallest key.
    pub fn key(&self) -> (r: K)
        ensures
            r == self.key_spec(),
    {
        self.key
    }

    /// The node's handle.
    pub fn address(&self) -> (r: Index)
        ensures
            r == self.address_spec(),
    {
        self.current
    }

    /// Sets the parent of the node in `layer`.
    pub fn set_parent<N, PA>(&self, layer: &mut LinkedList<N, PA>, parent: PA)
        requires
            old(layer).wf(),
            old(layer).handles().contains(self.address_spec()),
        ensures
            final(layer).wf(),
            final(layer).handles() == old(layer).handles(),
            final(layer).contents() == old(layer).contents(),
            final(layer).node_of(self.address_spec()).parent_link() == Some(parent),
            forall|h: Index|
                old(layer).handles().contains(h) && h != self.address_spec() ==> final(layer).node_of(h).parent_link()
                    == old(layer).node_of(h).parent_link(),
    {
        layer.set_parent(self.current, parent);
    }
}

/// A walk over the nodes of a list whose views can set the nodes' parents. It
/// holds no borrow of the list: each step reads the list it is given.
pub struct MutIter<K> {
    current: Option<Index>,
    end: Bound,
    _ph: PhantomData<K>,
}

impl<K: Copy> MutIter<K> {
    /// The node that the walk gives next, if any.
    pub closed spec fn cursor(&self) -> Option<Index> {
        self.current
    }

    /// Where the walk ends.
    pub closed spec fn end_bound(&self) -> Bound {
        self.end
    }

    /// The walk stands on one of the nodes of `layer`, or on none.
    pub open spec fn valid_on<N, PA>(&self, layer: LinkedList<N, PA>) -> bool {
        &&& layer.wf()
        &&& (self.cursor() matches Some(c) ==> layer.handles().contains(c))
    }

    /// A walk over `layer` from `start` to `end`.
    pub fn range<N: KeyBounded<K>, PA>(layer: &LinkedList<N, PA>, start: Bound, end: Bound) -> (r: Self)
        requires
            layer.wf(),
            layer.bound_ok(start),
        ensures
            r.end_bound() == end,
            r.cursor() == start_cursor(*layer, start),
            r.valid_on(*layer),
    {
        proof {
            match start {
                Bound::Excluded(h) => {
                    let k = layer.pos_of(h);
                    layer.lemma_links(k);
                    if k + 1 < layer.handles().len() {
                        assert(layer.handles().contains(layer.handles()[k + 1]));
                    }
                },
                Bound::Included(h) => {},
                Bound::Unbounded => {
                    assert(layer.handles().contains(layer.handles()[0]));
                },
            }
        }
        let current = match start {
            Bound::Excluded(start) => layer.deref(start).next(),
            Bound::Included(start) => Some(start),
            Bound::Unbounded => Some(layer.first()),
        };
        Self { current, end, _ph: PhantomData }
    }

    /// Gives a view of the current node of `layer` and moves on; gives nothing
    /// once the walk is past the end, or stands on the node that the end
    /// excludes.
    pub fn next<N: KeyBounded<K>, PA>(&mut self, layer: &LinkedList<N, PA>) -> (r: Option<MutNodeView<K>>)
        requires
            old(self).valid_on(*layer),
        ensures
            final(self).valid_on(*layer),
            final(self).end_bound() == old(self).end_bound(),
            match old(self).cursor() {
                None => r is None && final(self).cursor() is None,
                Some(c) => if old(self).end_bound() == Bound::Excluded(c) {
                    r is None && final(self).cursor() == old(self).cursor()
                } else {
                    &&& r matches Some(v) && v.key_spec() == layer.node_of(c).data().bound_of() && v.address_spec() == c
                    &&& final(self).cursor() == step_cursor(*layer, c, old(self).end_bound())
                },
            },
    {
        let current = match self.current {
            Some(c) => c,
            None => {
                return None;
            },
        };
        proof {
            let k = layer.pos_of(current);
            layer.lemma_links(k);
            if k + 1 < layer.handles().len() {
                assert(layer.handles().contains(layer.handles()[k + 1]));
            }
        }
        match self.end {
            Bound::Excluded(end) => {
                if current == end {
                    return None;
                }
            },
            Bound::Included(end) => {
                if current == end {
                    self.current = None;
                }
            },
            Bound::Unbounded => {},
        }
        if self.current.is_some() {
            self.current = layer.deref(current).next();
        }
        Some(MutNodeView { key: layer.get(current).lower_bound(), current })
    }
}

} // verus!
