//! Nodes of a layer linked in both directions, each named by a handle that
//! stays valid while the node is in the list.
use vstd::prelude::*;
use crate::traits::KeyBounded;
use crate::node_layer::NodeLayer;

verus! {

/// The handle of a node in a [`LinkedList`]: the slot that holds it.
#[derive(Debug, Copy, Clone, PartialEq, Eq, Structural)]
pub struct Index(usize);

impl Index {
    /// The slot that the handle names.
    pub closed spec fn slot(self) -> int {
        self.0 as int
    }
}

/// One end of a run of nodes.
#[derive(Debug, Copy, Clone, PartialEq, Eq, Structural)]
pub enum Bound {
    /// The run includes the node.
    Included(Index),
    /// The run stops short of the node.
    Excluded(Index),
    /// The run goes to the end of the list.
    Unbounded,
}

/// Inserting `x` at `h` and then cutting the positions `h + 1 ..= t + 1` leaves
/// `x` in place of the run `h ..= t`.
proof fn lemma_insert_then_cut<A>(a: Seq<A>, h: int, t: int, x: A)
    requires
        0 <= h <= t < a.len(),
    ensures
        a.insert(h, x).subrange(0, h + 1) + a.insert(h, x).subrange(t + 2, a.len() as int + 1) == a.subrange(0, h) + seq![x]
            + a.subrange(t + 1, a.len() as int),
{
    let b = a.insert(h, x);
    assert(b.subrange(0, h + 1) + b.subrange(t + 2, a.len() as int + 1) =~= a.subrange(0, h) + seq![x] + a.subrange(
        t + 1,
        a.len() as int,
    ));
}

/// The run `ins` put after `x` in `a[..h] + [x] + a[t + 1..]`.
proof fn lemma_splice_after<A>(a: Seq<A>, h: int, t: int, x: A, ins: Seq<A>)
    requires
        0 <= h <= t < a.len(),
    ensures
        ({
            let b = a.subrange(0, h) + seq![x] + a.subrange(t + 1, a.len() as int);
            b.subrange(0, h + 1) + ins + b.subrange(h + 1, b.len() as int) == a.subrange(0, h) + (seq![x] + ins)
                + a.subrange(t + 1, a.len() as int)
        }),
{
    let b = a.subrange(0, h) + seq![x] + a.subrange(t + 1, a.len() as int);
    assert(b.subrange(0, h + 1) + ins + b.subrange(h + 1, b.len() as int) =~= a.subrange(0, h) + (seq![x] + ins)
        + a.subrange(t + 1, a.len() as int));
}

/// A sequence that keeps the first `h + 1` items of `a[..h] + [x] + a[t + 1..]`
/// and, `m - 1` places later, its tail, keeps `a[..h]` and `a[t + 1..]`.
proof fn lemma_spliced_ends<A>(a: Seq<A>, b3: Seq<A>, h: int, t: int, x: A, m: int)
    requires
        0 <= h <= t < a.len(),
        m >= 1,
        ({
            let b = a.subrange(0, h) + seq![x] + a.subrange(t + 1, a.len() as int);
            &&& b3.len() == b.len() + m - 1
            &&& b3.subrange(0, h + 1) == b.subrange(0, h + 1)
            &&& b3.subrange(h + m, b3.len() as int) == b.subrange(h + 1, b.len() as int)
        }),
    ensures
        b3.subrange(0, h) == a.subrange(0, h),
        b3.subrange(h + m, b3.len() as int) == a.subrange(t + 1, a.len() as int),
        b3[h] == x,
{
    let b = a.subrange(0, h) + seq![x] + a.subrange(t + 1, a.len() as int);
    assert(b3.subrange(0, h) =~= b3.subrange(0, h + 1).subrange(0, h));
    assert(b.subrange(0, h) =~= b.subrange(0, h + 1).subrange(0, h));
    assert(b.subrange(0, h) =~= a.subrange(0, h));
    assert(b.subrange(h + 1, b.len() as int) =~= a.subrange(t + 1, a.len() as int));
    assert(b3[h] == b3.subrange(0, h + 1)[h]);
}

/// A node of a list: its data, its neighbours and the address of its parent.
pub struct LinkedNode<N, PA> {
    pub inner: N,
    next: Option<Index>,
    previous: Option<Index>,
    parent: Option<PA>,
}

impl<N, PA> LinkedNode<N, PA> {
    /// The node's data.
    pub closed spec fn data(&self) -> N {
        self.inner
    }

    /// The node after this one.
    pub closed spec fn next_link(&self) -> Option<Index> {
        self.next
    }

    /// The node before this one.
    pub closed spec fn previous_link(&self) -> Option<Index> {
        self.previous
    }

    /// The address of this node's parent.
    pub closed spec fn parent_link(&self) -> Option<PA> {
        self.parent
    }

    /// A node with no neighbour and no parent.
    pub fn new(node: N) -> (r: Self)
        ensures
            r.data() == node,
            r.next_link() is None,
            r.previous_link() is None,
            r.parent_link() is None,
    {
        Self { inner: node, next: None, previous: None, parent: None }
    }

    /// A node with the given neighbours and parent.
    pub fn init(node: N, next: Option<Index>, previous: Option<Index>, parent: Option<PA>) -> (r: Self)
        ensures
            r.data() == node,
            r.next_link() == next,
            r.previous_link() == previous,
            r.parent_link() == parent,
    {
        Self { inner: node, next, previous, parent }
    }

    /// The node after this one.
    pub fn next(&self) -> (r: Option<Index>)
        ensures
            r == self.next_link(),
    {
        self.next
    }

    /// Sets the node after this one.
    pub fn set_next(&mut self, next: Option<Index>)
        ensures
            final(self).next_link() == next,
            final(self).previous_link() == old(self).previous_link(),
            final(self).parent_link() == old(self).parent_link(),
            final(self).data() == old(self).data(),
    {
        self.next = next;
    }

    /// The node before this one.
    pub fn previous(&self) -> (r: Option<Index>)
        ensures
            r == self.previous_link(),
    {
        self.previous
    }

    /// Sets the node before this one.
    pub fn set_previous(&mut self, previous: Option<Index>)
        ensures
            final(self).previous_link() == previous,
            final(self).next_link() == old(self).next_link(),
            final(self).parent_link() == old(self).parent_link(),
            final(self).data() == old(self).data(),
    {
        self.previous = previous;
    }

    /// The address of this node's parent.
    pub fn parent(&self) -> (r: Option<PA>)
        where
            PA: Copy,
        ensures
            r == self.parent_link(),
    {
        self.parent
    }

    /// Sets the address of this node's parent.
    pub fn set_parent(&mut self, parent: PA)
        ensures
            final(self).parent_link() == Some(parent),
            final(self).next_link() == old(self).next_link(),
            final(self).previous_link() == old(self).previous_link(),
            final(self).data() == old(self).data(),
    {
        self.parent = Some(parent);
    }
}

impl<K, N: KeyBounded<K>, PA> KeyBounded<K> for LinkedNode<N, PA> {
    open spec fn bound_of(&self) -> K {
        self.data().bound_of()
    }

    fn lower_bound(&self) -> (r: K) {
        self.inner.lower_bound()
    }
}

/// Nodes linked in both directions, from `first` to `last`. The list is never
/// empty: it starts with one node, which layers use as their sentinel.
pub struct LinkedList<N, PA> {
    nodes: Vec<Option<LinkedNode<N, PA>>>,
    pub first: Index,
    pub last: Index,
    live: usize,
    chain: Ghost<Seq<Index>>,
    loose: Ghost<Seq<Index>>,
}

impl<N, PA> LinkedList<N, PA> {
    /// The handles of the linked nodes, from first to last.
    pub closed spec fn handles(&self) -> Seq<Index> {
        self.chain@
    }

    /// The handle in `first`.
    pub closed spec fn head(&self) -> Index {
        self.first
    }

    /// The handle in `last`.
    pub closed spec fn tail(&self) -> Index {
        self.last
    }

    /// The node that a handle names.
    pub closed spec fn node_of(&self, h: Index) -> LinkedNode<N, PA> {
        self.nodes@[h.slot()]->Some_0
    }

    /// The handle names a stored node.
    pub closed spec fn holds(&self, h: Index) -> bool {
        0 <= h.slot() < self.nodes@.len() && self.nodes@[h.slot()] is Some
    }

    /// The number of stored nodes.
    pub closed spec fn len_spec(&self) -> nat {
        self.chain@.len() + self.loose@.len()
    }

    /// The number of slots ever handed out since the list was made or cleared.
    pub closed spec fn slot_count(&self) -> nat {
        self.nodes@.len()
    }

    /// The data of the linked nodes, from first to last.
    pub open spec fn contents(&self) -> Seq<N> {
        Seq::new(self.handles().len(), |k: int| self.node_of(self.handles()[k]).data())
    }

    /// The position of a handle among the linked nodes.
    pub open spec fn pos_of(&self, h: Index) -> int {
        choose|k: int| 0 <= k < self.handles().len() && self.handles()[k] == h
    }

    /// The bookkeeping of the slots: the stored nodes are the linked ones and
    /// those unlinked by an empty deletion, each once, and they are counted.
    #[verifier::opaque]
    pub closed spec fn slots_ok(&self) -> bool {
        &&& self.loose@.no_duplicates()
        &&& forall|k: int| 0 <= k < self.loose@.len() ==> self.holds(#[trigger] self.loose@[k])
        &&& forall|k: int, m: int|
            0 <= k < self.chain@.len() && 0 <= m < self.loose@.len() ==> #[trigger] self.chain@[k]
                != #[trigger] self.loose@[m]
        &&& forall|i: int|
            0 <= i < self.nodes@.len() && #[trigger] self.nodes@[i] is Some ==> self.chain@.contains(Index(i as usize))
                || self.loose@.contains(Index(i as usize))
        &&& self.live == self.chain@.len() + self.loose@.len()
        &&& self.live <= self.nodes@.len()
        &&& self.nodes@.len() <= usize::MAX
    }

    /// The list is consistent: at least one node, each linked node stored,
    /// linked once, and pointing to its neighbours in the order of `handles`.
    pub open spec fn wf(&self) -> bool {
        let hs = self.handles();
        &&& hs.len() >= 1
        &&& hs.no_duplicates()
        &&& self.head() == hs[0]
        &&& self.tail() == hs.last()
        &&& self.linked()
        &&& self.slots_ok()
    }

    /// Each linked node is stored and points to its neighbours in the order
    /// of `handles`.
    #[verifier::opaque]
    pub closed spec fn linked(&self) -> bool {
        let hs = self.handles();
        &&& forall|k: int| 0 <= k < hs.len() ==> self.holds(#[trigger] hs[k])
        &&& forall|k: int|
            0 <= k < hs.len() ==> (#[trigger] self.node_of(hs[k])).next_link() == (if k + 1 < hs.len() {
                Some(hs[k + 1])
            } else {
                None
            })
        &&& forall|k: int|
            0 <= k < hs.len() ==> (#[trigger] self.node_of(hs[k])).previous_link() == (if k > 0 {
                Some(hs[k - 1])
            } else {
                None
            })
    }

    /// The node at position `k` is stored and points to its neighbours.
    pub proof fn lemma_links(&self, k: int)
        requires
            self.wf(),
            0 <= k < self.handles().len(),
        ensures
            self.holds(self.handles()[k]),
            self.node_of(self.handles()[k]).next_link() == (if k + 1 < self.handles().len() {
                Some(self.handles()[k + 1])
            } else {
                None
            }),
            self.node_of(self.handles()[k]).previous_link() == (if k > 0 {
                Some(self.handles()[k - 1])
            } else {
                None
            }),
    {
        reveal(LinkedList::linked);
    }

    /// A list of one node.
    pub fn new(inner: N) -> (r: Self)
        ensures
            r.wf(),
            r.handles() == seq![r.head()],
            r.contents() == seq![inner],
            r.node_of(r.head()).parent_link() is None,
            r.len_spec() == 1,
            r.slot_count() == 1,
    {
        reveal(LinkedList::linked);
        reveal(LinkedList::slots_ok);
        let mut nodes: Vec<Option<LinkedNode<N, PA>>> = Vec::new();
        nodes.push(Some(LinkedNode::new(inner)));
        let ptr = Index(0);
        let chain: Ghost<Seq<Index>> = Ghost(Seq::empty().push(ptr));
        let loose: Ghost<Seq<Index>> = Ghost(Seq::empty());
        let r = LinkedList { nodes, first: ptr, last: ptr, live: 1, chain, loose };
        assert(r.contents() =~= seq![inner]);
        assert(r.handles()[0] == ptr);
        assert(r.slots_ok());
        r
    }

    /// The first node's handle.
    pub fn first(&self) -> (r: Index)
        ensures
            r == self.head(),
    {
        self.first
    }

    /// The last node's handle.
    pub fn last(&self) -> (r: Index)
        ensures
            r == self.tail(),
    {
        self.last
    }

    /// Sets the next link of a stored node.
    fn set_next_at(&mut self, ptr: Index, next: Option<Index>)
        requires
            old(self).holds(ptr),
        ensures
            final(self).nodes@.len() == old(self).nodes@.len(),
            forall|i: int| 0 <= i < old(self).nodes@.len() && i != ptr.slot() ==> final(self).nodes@[i] == old(self).nodes@[i],
            final(self).holds(ptr),
            final(self).node_of(ptr).next_link() == next,
            final(self).node_of(ptr).previous_link() == old(self).node_of(ptr).previous_link(),
            final(self).node_of(ptr).parent_link() == old(self).node_of(ptr).parent_link(),
            final(self).node_of(ptr).data() == old(self).node_of(ptr).data(),
            final(self).first == old(self).first,
            final(self).last == old(self).last,
            final(self).live == old(self).live,
            final(self).chain == old(self).chain,
            final(self).loose == old(self).loose,
    {
        match &mut self.nodes[ptr.0] {
            Some(node) => {
                node.next = next;
            },
            None => {},
        }
    }

    /// Sets the previous link of a stored node.
    fn set_previous_at(&mut self, ptr: Index, previous: Option<Index>)
        requires
            old(self).holds(ptr),
        ensures
            final(self).nodes@.len() == old(self).nodes@.len(),
            forall|i: int| 0 <= i < old(self).nodes@.len() && i != ptr.slot() ==> final(self).nodes@[i] == old(self).nodes@[i],
            final(self).holds(ptr),
            final(self).node_of(ptr).previous_link() == previous,
            final(self).node_of(ptr).next_link() == old(self).node_of(ptr).next_link(),
            final(self).node_of(ptr).parent_link() == old(self).node_of(ptr).parent_link(),
            final(self).node_of(ptr).data() == old(self).node_of(ptr).data(),
            final(self).first == old(self).first,
            final(self).last == old(self).last,
            final(self).live == old(self).live,
            final(self).chain == old(self).chain,
            final(self).loose == old(self).loose,
    {
        match &mut self.nodes[ptr.0] {
            Some(node) => {
                node.previous = previous;
            },
            None => {},
        }
    }

    /// `s1` is `s0` with a fresh node `n` linked at position `p` of the chain,
    /// between its neighbours, and nothing else changed.
    spec fn inserted_at(s0: &Self, s1: &Self, p: int, n: Index) -> bool {
        &&& 0 <= p <= s0.chain@.len()
        &&& n.slot() == s0.nodes@.len()
        &&& s0.nodes@.len() < usize::MAX
        &&& s1.nodes@.len() == s0.nodes@.len() + 1
        &&& s1.chain@ == s0.chain@.insert(p, n)
        &&& s1.loose@ == s0.loose@
        &&& s1.live == s0.live + 1
        &&& s1.first == (if p == 0 { n } else { s0.first })
        &&& s1.last == (if p == s0.chain@.len() { n } else { s0.last })
        &&& (forall|i: int|
                0 <= i < s0.nodes@.len() && (p == 0 || i != s0.chain@[p - 1].slot()) && (p == s0.chain@.len() || i
                    != s0.chain@[p].slot()) ==> s1.nodes@[i] == s0.nodes@[i])
        &&& s1.holds(n)
        &&& s1.node_of(n).previous_link() == (if p > 0 { Some(s0.chain@[p - 1]) } else { None })
        &&& s1.node_of(n).next_link() == (if p < s0.chain@.len() { Some(s0.chain@[p]) } else { None })
        &&& (p > 0 ==> {
                let a = s0.chain@[p - 1];
                &&& s1.holds(a)
                &&& s1.node_of(a).next_link() == Some(n)
                &&& s1.node_of(a).previous_link() == s0.node_of(a).previous_link()
                &&& s1.node_of(a).parent_link() == s0.node_of(a).parent_link()
                &&& s1.node_of(a).data() == s0.node_of(a).data()
            })
        &&& (p < s0.chain@.len() ==> {
                let b = s0.chain@[p];
                &&& s1.holds(b)
                &&& s1.node_of(b).previous_link() == Some(n)
                &&& s1.node_of(b).next_link() == s0.node_of(b).next_link()
                &&& s1.node_of(b).parent_link() == s0.node_of(b).parent_link()
                &&& s1.node_of(b).data() == s0.node_of(b).data()
            })
    }

    /// The links after an insertion.
    proof fn lemma_insert_links(s0: &Self, s1: &Self, p: int, n: Index)
        requires
            s0.wf(),
            Self::inserted_at(s0, s1, p, n),
        ensures
            forall|j: int| 0 <= j < s1.chain@.len() ==> s1.holds(#[trigger] s1.chain@[j]),
            forall|j: int|
                0 <= j < s1.chain@.len() ==> (#[trigger] s1.node_of(s1.chain@[j])).next_link() == (if j + 1 < s1.chain@.len() {
                    Some(s1.chain@[j + 1])
                } else {
                    None
                }),
            forall|j: int|
                0 <= j < s1.chain@.len() ==> (#[trigger] s1.node_of(s1.chain@[j])).previous_link() == (if j > 0 {
                    Some(s1.chain@[j - 1])
                } else {
                    None
                }),
    {
        reveal(LinkedList::linked);
        reveal(LinkedList::slots_ok);
        let c = s0.chain@;
        let c2 = s1.chain@;
        let len = c.len();
        assert forall|j: int| 0 <= j < len implies #[trigger] c[j].slot() < s0.nodes@.len() by {
            assert(s0.holds(c[j]));
        }
        assert forall|j: int| 0 <= j < s0.loose@.len() implies #[trigger] s0.loose@[j].slot() < s0.nodes@.len() by {
            assert(s0.holds(s0.loose@[j]));
        }
        assert(!c.contains(n));
        assert forall|j: int| 0 <= j < c2.len() && j != p implies #[trigger] c2[j] == (if j < p {
            c[j]
        } else {
            c[j - 1]
        }) by {}
        // Nodes other than the two neighbours keep their links.
        assert forall|j: int|
            0 <= j < len && j != p - 1 && j != p implies #[trigger] s1.nodes@[c[j].slot()] == s0.nodes@[c[j].slot()] by {
            if p > 0 {
                assert(c[j] != c[p - 1]);
            }
            if p < len {
                assert(c[j] != c[p]);
            }
        }
        assert forall|j: int| 0 <= j < c2.len() implies s1.holds(#[trigger] c2[j]) by {
            if j != p {
                let jj = if j < p { j } else { j - 1 };
                assert(s0.holds(c[jj]));
                assert(s1.nodes@[c[jj].slot()] == s0.nodes@[c[jj].slot()] || jj == p - 1 || jj == p);
            }
        }
        assert forall|j: int|
            0 <= j < c2.len() implies (#[trigger] s1.node_of(c2[j])).next_link() == (if j + 1 < c2.len() {
                Some(c2[j + 1])
            } else {
                None
            }) by {
            if j < p - 1 {
                assert(s1.nodes@[c[j].slot()] == s0.nodes@[c[j].slot()]);
                assert(s0.node_of(c[j]).next_link() == Some(c[j + 1]));
            } else if j == p - 1 {
            } else if j == p {
            } else if j == p + 1 {
                assert(s0.node_of(c[p]).next_link() == (if p + 1 < len { Some(c[p + 1]) } else { None }));
            } else {
                assert(s1.nodes@[c[j - 1].slot()] == s0.nodes@[c[j - 1].slot()]);
                assert(s0.node_of(c[j - 1]).next_link() == (if j < len { Some(c[j]) } else { None }));
            }
        }
        assert forall|j: int|
            0 <= j < c2.len() implies (#[trigger] s1.node_of(c2[j])).previous_link() == (if j > 0 {
                Some(c2[j - 1])
            } else {
                None
            }) by {
            if j < p - 1 {
                assert(s1.nodes@[c[j].slot()] == s0.nodes@[c[j].slot()]);
                assert(s0.node_of(c[j]).previous_link() == (if j > 0 { Some(c[j - 1]) } else { None }));
            } else if j == p - 1 {
                assert(s0.node_of(c[j]).previous_link() == (if j > 0 { Some(c[j - 1]) } else { None }));
            } else if j == p {
            } else if j == p + 1 {
            } else {
                assert(s1.nodes@[c[j - 1].slot()] == s0.nodes@[c[j - 1].slot()]);
                assert(s0.node_of(c[j - 1]).previous_link() == Some(c[j - 2]));
            }
        }
    }

    /// The data and parents after an insertion.
    proof fn lemma_insert_contents(s0: &Self, s1: &Self, p: int, n: Index)
        requires
            s0.wf(),
            Self::inserted_at(s0, s1, p, n),
        ensures
            s1.contents() == s0.contents().insert(p, s1.node_of(n).data()),
            forall|h: Index|
                s0.handles().contains(h) ==> s1.node_of(h).parent_link() == s0.node_of(h).parent_link(),
    {
        reveal(LinkedList::linked);
        reveal(LinkedList::slots_ok);
        let c = s0.chain@;
        let c2 = s1.chain@;
        let len = c.len();
        assert forall|j: int| 0 <= j < len implies #[trigger] c[j].slot() < s0.nodes@.len() by {
            assert(s0.holds(c[j]));
        }
        assert forall|j: int| 0 <= j < s0.loose@.len() implies #[trigger] s0.loose@[j].slot() < s0.nodes@.len() by {
            assert(s0.holds(s0.loose@[j]));
        }
        assert(!c.contains(n));
        assert forall|j: int| 0 <= j < c2.len() && j != p implies #[trigger] c2[j] == (if j < p {
            c[j]
        } else {
            c[j - 1]
        }) by {}
        // Nodes other than the two neighbours keep their links.
        assert forall|j: int|
            0 <= j < len && j != p - 1 && j != p implies #[trigger] s1.nodes@[c[j].slot()] == s0.nodes@[c[j].slot()] by {
            if p > 0 {
                assert(c[j] != c[p - 1]);
            }
            if p < len {
                assert(c[j] != c[p]);
            }
        }
        assert forall|h: Index| s0.handles().contains(h) implies s1.node_of(h).parent_link() == s0.node_of(
            h,
        ).parent_link() by {
            let j = choose|j: int| 0 <= j < len && c[j] == h;
            if j != p - 1 && j != p {
                assert(s1.nodes@[c[j].slot()] == s0.nodes@[c[j].slot()]);
            }
        }
        assert forall|j: int| 0 <= j < c2.len() implies #[trigger] s1.contents()[j] == s0.contents().insert(
            p,
            s1.node_of(n).data(),
        )[j] by {
            if j < p - 1 || (j > p + 1) {
                let jj = if j < p { j } else { j - 1 };
                assert(s1.nodes@[c[jj].slot()] == s0.nodes@[c[jj].slot()]);
            }
        }
        assert(s1.contents() =~= s0.contents().insert(p, s1.node_of(n).data()));
    }

    /// The slots after an insertion.
    proof fn lemma_insert_slots(s0: &Self, s1: &Self, p: int, n: Index)
        requires
            s0.wf(),
            Self::inserted_at(s0, s1, p, n),
        ensures
            s1.slots_ok(),
            !s0.handles().contains(n),
            s1.chain@.no_duplicates(),
    {
        reveal(LinkedList::linked);
        reveal(LinkedList::slots_ok);
        let c = s0.chain@;
        let c2 = s1.chain@;
        let len = c.len();
        assert forall|j: int| 0 <= j < len implies #[trigger] c[j].slot() < s0.nodes@.len() by {
            assert(s0.holds(c[j]));
        }
        assert forall|j: int| 0 <= j < s0.loose@.len() implies #[trigger] s0.loose@[j].slot() < s0.nodes@.len() by {
            assert(s0.holds(s0.loose@[j]));
        }
        assert(!c.contains(n));
        assert forall|j: int| 0 <= j < c2.len() && j != p implies #[trigger] c2[j] == (if j < p {
            c[j]
        } else {
            c[j - 1]
        }) by {}
        // Nodes other than the two neighbours keep their links.
        assert forall|j: int|
            0 <= j < len && j != p - 1 && j != p implies #[trigger] s1.nodes@[c[j].slot()] == s0.nodes@[c[j].slot()] by {
            if p > 0 {
                assert(c[j] != c[p - 1]);
            }
            if p < len {
                assert(c[j] != c[p]);
            }
        }
        // The slots.
        assert forall|j: int| 0 <= j < s1.loose@.len() implies s1.holds(#[trigger] s1.loose@[j]) by {
            let h = s1.loose@[j];
            assert(s0.holds(h));
            if p > 0 {
                assert(h != c[p - 1]);
            }
            if p < len {
                assert(h != c[p]);
            }
        }
        assert forall|i: int|
            0 <= i < s1.nodes@.len() && #[trigger] s1.nodes@[i] is Some implies s1.chain@.contains(Index(i as usize))
                || s1.loose@.contains(Index(i as usize)) by {
            if i == s0.nodes@.len() {
                assert(c2[p] == Index(i as usize));
            } else {
                if p > 0 && i == c[p - 1].slot() {
                    assert(c2[p - 1] == c[p - 1]);
                    assert(c[p - 1] == Index(i as usize));
                } else if p < len && i == c[p].slot() {
                    assert(c2[p + 1] == c[p]);
                    assert(c[p] == Index(i as usize));
                } else {
                    assert(s1.nodes@[i] == s0.nodes@[i]);
                    if c.contains(Index(i as usize)) {
                        let j = choose|j: int| 0 <= j < len && c[j] == Index(i as usize);
                        let jj = if j < p { j } else { j + 1 };
                        assert(c2[jj] == Index(i as usize));
                    }
                }
            }
        }
        assert(s1.slots_ok());
    }

    /// `s1` is `s0` with the nodes at positions `s..t` of the chain unlinked and
    /// their neighbours linked to each other: those at `s..e` dropped, and the
    /// one at `s`, when `e == s`, left stored but unlinked.
    spec fn cut_out(s0: &Self, s1: &Self, s: int, e: int, t: int) -> bool {
        let c = s0.chain@;
        let n = c.len();
        &&& 0 <= s < t < n
        &&& (e == t || (e == s && t == s + 1))
        &&& s1.chain@ == c.subrange(0, s) + c.subrange(t, n as int)
        &&& s1.loose@ == (if e == t { s0.loose@ } else { s0.loose@.push(c[s]) })
        &&& s1.live == s0.live - (e - s)
        &&& s1.nodes@.len() == s0.nodes@.len()
        &&& s1.first == (if s == 0 { c[t] } else { s0.first })
        &&& s1.last == s0.last
        &&& (forall|m: int| s <= m < e ==> !(#[trigger] s1.nodes@[c[m].slot()] is Some))
        &&& (forall|i: int| 0 <= i < s1.nodes@.len() && #[trigger] s1.nodes@[i] is Some ==> s0.nodes@[i] is Some)
        &&& (forall|j: int|
            0 <= j < n && (j < s - 1 || j >= e) && j != t ==> #[trigger] s1.nodes@[c[j].slot()] == s0.nodes@[c[j].slot()])
        &&& (forall|m: int| 0 <= m < s0.loose@.len() ==> #[trigger] s1.nodes@[s0.loose@[m].slot()] == s0.nodes@[s0.loose@[m].slot()])
        &&& (s > 0 ==> {
            let a = c[s - 1];
            &&& s1.holds(a)
            &&& s1.node_of(a).next_link() == Some(c[t])
            &&& s1.node_of(a).previous_link() == s0.node_of(a).previous_link()
            &&& s1.node_of(a).parent_link() == s0.node_of(a).parent_link()
            &&& s1.node_of(a).data() == s0.node_of(a).data()
        })
        &&& {
            let b = c[t];
            &&& s1.holds(b)
            &&& s1.node_of(b).previous_link() == (if s > 0 { Some(c[s - 1]) } else { None })
            &&& s1.node_of(b).next_link() == s0.node_of(b).next_link()
            &&& s1.node_of(b).parent_link() == s0.node_of(b).parent_link()
            &&& s1.node_of(b).data() == s0.node_of(b).data()
        }
    }

    /// The links after a cut.
    proof fn lemma_cut_links(s0: &Self, s1: &Self, s: int, e: int, t: int)
        requires
            s0.wf(),
            Self::cut_out(s0, s1, s, e, t),
        ensures
            forall|j: int| 0 <= j < s1.chain@.len() ==> s1.holds(#[trigger] s1.chain@[j]),
            forall|j: int|
                0 <= j < s1.chain@.len() ==> (#[trigger] s1.node_of(s1.chain@[j])).next_link() == (if j + 1 < s1.chain@.len() {
                    Some(s1.chain@[j + 1])
                } else {
                    None
                }),
            forall|j: int|
                0 <= j < s1.chain@.len() ==> (#[trigger] s1.node_of(s1.chain@[j])).previous_link() == (if j > 0 {
                    Some(s1.chain@[j - 1])
                } else {
                    None
                }),
            s1.chain@.no_duplicates(),
            s1.chain@.len() >= 1,
            s1.chain@[0] == s1.first,
            s1.chain@.last() == s1.last,
    {
        reveal(LinkedList::linked);
        reveal(LinkedList::slots_ok);
        let c = s0.chain@;
        let n = c.len();
        let c2 = s1.chain@;
        let d = t - s;
        assert forall|j: int| 0 <= j < c2.len() implies #[trigger] c2[j] == (if j < s { c[j] } else { c[j + d] }) by {}
        assert forall|j: int| 0 <= j < c2.len() implies s1.holds(#[trigger] c2[j]) by {
            let jj = if j < s { j } else { j + d };
            assert(s0.holds(c[jj]));
            if jj != s - 1 && jj != t {
                assert(s1.nodes@[c[jj].slot()] == s0.nodes@[c[jj].slot()]);
            }
        }
        assert forall|j: int|
            0 <= j < c2.len() implies (#[trigger] s1.node_of(c2[j])).next_link() == (if j + 1 < c2.len() {
                Some(c2[j + 1])
            } else {
                None
            }) by {
            if j < s - 1 {
                assert(s1.nodes@[c[j].slot()] == s0.nodes@[c[j].slot()]);
                assert(s0.node_of(c[j]).next_link() == Some(c[j + 1]));
            } else if j == s - 1 {
            } else {
                assert(s0.node_of(c[j + d]).next_link() == (if j + d + 1 < n { Some(c[j + d + 1]) } else { None }));
                if j + d != t {
                    assert(s1.nodes@[c[j + d].slot()] == s0.nodes@[c[j + d].slot()]);
                }
            }
        }
        assert forall|j: int|
            0 <= j < c2.len() implies (#[trigger] s1.node_of(c2[j])).previous_link() == (if j > 0 {
                Some(c2[j - 1])
            } else {
                None
            }) by {
            if j < s - 1 {
                assert(s1.nodes@[c[j].slot()] == s0.nodes@[c[j].slot()]);
                assert(s0.node_of(c[j]).previous_link() == (if j > 0 { Some(c[j - 1]) } else { None }));
            } else if j == s - 1 {
                assert(s0.node_of(c[j]).previous_link() == (if j > 0 { Some(c[j - 1]) } else { None }));
            } else if j == s {
            } else {
                assert(s1.nodes@[c[j + d].slot()] == s0.nodes@[c[j + d].slot()]);
                assert(s0.node_of(c[j + d]).previous_link() == Some(c[j + d - 1]));
            }
        }
        assert forall|i: int, j: int| 0 <= i < j < c2.len() implies c2[i] != c2[j] by {
            let ii = if i < s { i } else { i + d };
            let jj = if j < s { j } else { j + d };
            assert(c[ii] != c[jj]);
        }
        assert(c2[c2.len() - 1] == c[n - 1]);
    }

    /// The data and parents after a cut.
    proof fn lemma_cut_contents(s0: &Self, s1: &Self, s: int, e: int, t: int)
        requires
            s0.wf(),
            Self::cut_out(s0, s1, s, e, t),
        ensures
            s1.contents() == s0.contents().subrange(0, s) + s0.contents().subrange(t, s0.chain@.len() as int),
            forall|h: Index|
                s1.handles().contains(h) ==> s1.node_of(h).parent_link() == s0.node_of(h).parent_link(),
    {
        reveal(LinkedList::linked);
        reveal(LinkedList::slots_ok);
        let c = s0.chain@;
        let n = c.len();
        let c2 = s1.chain@;
        let d = t - s;
        let want = s0.contents().subrange(0, s) + s0.contents().subrange(t, n as int);
        assert forall|j: int| 0 <= j < c2.len() implies #[trigger] s1.contents()[j] == want[j] by {
            let jj = if j < s { j } else { j + d };
            assert(c2[j] == c[jj]);
            if jj != s - 1 && jj != t {
                assert(s1.nodes@[c[jj].slot()] == s0.nodes@[c[jj].slot()]);
            }
        }
        assert(s1.contents() =~= want);
        assert forall|h: Index| s1.handles().contains(h) implies s1.node_of(h).parent_link() == s0.node_of(
            h,
        ).parent_link() by {
            let j = choose|j: int| 0 <= j < c2.len() && c2[j] == h;
            let jj = if j < s { j } else { j + d };
            assert(c2[j] == c[jj]);
            if jj != s - 1 && jj != t {
                assert(s1.nodes@[c[jj].slot()] == s0.nodes@[c[jj].slot()]);
            }
        }
    }

    /// The slots after a cut.
    proof fn lemma_cut_slots(s0: &Self, s1: &Self, s: int, e: int, t: int)
        requires
            s0.wf(),
            Self::cut_out(s0, s1, s, e, t),
        ensures
            s1.slots_ok(),
    {
        reveal(LinkedList::linked);
        reveal(LinkedList::slots_ok);
        let c = s0.chain@;
        let n = c.len();
        let c2 = s1.chain@;
        let d = t - s;
        let l0 = s0.loose@;
        let l1 = s1.loose@;
        assert forall|j: int| 0 <= j < c2.len() implies #[trigger] c2[j] == (if j < s { c[j] } else { c[j + d] }) by {}
        assert forall|j: int| 0 <= j < l1.len() implies s1.holds(#[trigger] l1[j]) by {
            if j < l0.len() {
                assert(s0.holds(l0[j]));
            } else {
                assert(s0.holds(c[s]));
                assert(s1.nodes@[c[s].slot()] == s0.nodes@[c[s].slot()]);
            }
        }
        assert forall|k: int, m: int| 0 <= k < c2.len() && 0 <= m < l1.len() implies #[trigger] c2[k] != #[trigger] l1[m] by {
            let kk = if k < s { k } else { k + d };
            if m < l0.len() {
                assert(c[kk] != l0[m]);
            } else {
                assert(c[kk] != c[s]);
            }
        }
        assert(l1.no_duplicates()) by {
            if e != t {
                assert forall|i: int, j: int| 0 <= i < j < l1.len() implies l1[i] != l1[j] by {
                    if j == l0.len() {
                        assert(c[s] != l0[i]);
                    }
                }
            }
        }
        assert forall|i: int|
            0 <= i < s1.nodes@.len() && #[trigger] s1.nodes@[i] is Some implies s1.chain@.contains(Index(i as usize))
                || s1.loose@.contains(Index(i as usize)) by {
            assert(s0.nodes@[i] is Some);
            let x = Index(i as usize);
            if c.contains(x) {
                let j = choose|j: int| 0 <= j < n && c[j] == x;
                if j < s {
                    assert(c2[j] == x);
                } else if j >= t {
                    assert(c2[j - d] == x);
                } else if j < e {
                    assert(!(s1.nodes@[c[j].slot()] is Some));
                } else {
                    assert(l1[l0.len() as int] == x);
                }
            } else {
                let m = choose|m: int| 0 <= m < l0.len() && l0[m] == x;
                assert(l1[m] == x);
            }
        }
    }

    /// A cut leaves the list consistent.
    proof fn lemma_cut(s0: &Self, s1: &Self, s: int, e: int, t: int)
        requires
            s0.wf(),
            Self::cut_out(s0, s1, s, e, t),
        ensures
            s1.wf(),
            s1.contents() == s0.contents().subrange(0, s) + s0.contents().subrange(t, s0.chain@.len() as int),
            forall|h: Index|
                s1.handles().contains(h) ==> s1.node_of(h).parent_link() == s0.node_of(h).parent_link(),
    {
        reveal(LinkedList::linked);
        reveal(LinkedList::slots_ok);
        Self::lemma_cut_links(s0, s1, s, e, t);
        Self::lemma_cut_contents(s0, s1, s, e, t);
        Self::lemma_cut_slots(s0, s1, s, e, t);
    }

    /// Linking a fresh node `n` at position `p` of the chain, between its
    /// neighbours, keeps the list consistent.
    proof fn lemma_insert_at(s0: &Self, s1: &Self, p: int, n: Index)
        requires
            s0.wf(),
            Self::inserted_at(s0, s1, p, n),
        ensures
            s1.wf(),
            !s0.handles().contains(n),
            s1.contents() == s0.contents().insert(p, s1.node_of(n).data()),
            forall|h: Index|
                s0.handles().contains(h) ==> s1.node_of(h).parent_link() == s0.node_of(h).parent_link(),
    {
        reveal(LinkedList::linked);
        reveal(LinkedList::slots_ok);
        Self::lemma_insert_links(s0, s1, p, n);
        Self::lemma_insert_contents(s0, s1, p, n);
        Self::lemma_insert_slots(s0, s1, p, n);
        assert(s1.chain@[0] == s1.first);
        assert(s1.chain@.last() == s1.last);
    }

    /// Links a new node after the node `ptr` and returns its handle.
    pub fn insert_after(&mut self, inner: N, ptr: Index) -> (r: Index)
        requires
            old(self).wf(),
            old(self).handles().contains(ptr),
            old(self).slot_count() < usize::MAX,
        ensures
            final(self).wf(),
            !old(self).handles().contains(r),
            final(self).handles() == old(self).handles().insert(old(self).pos_of(ptr) + 1, r),
            final(self).contents() == old(self).contents().insert(old(self).pos_of(ptr) + 1, inner),
            final(self).node_of(r).parent_link() is None,
            forall|h: Index|
                old(self).handles().contains(h) ==> final(self).node_of(h).parent_link() == old(self).node_of(
                    h,
                ).parent_link(),
            final(self).len_spec() == old(self).len_spec() + 1,
            final(self).slot_count() == old(self).slot_count() + 1,
    {
        let ghost k = self.pos_of(ptr);
        let ghost c = self.chain@;
        proof {
            assert(c[k] == ptr);
            reveal(LinkedList::slots_ok);
            self.lemma_links(k);
            if k + 1 < c.len() {
                self.lemma_links(k + 1);
            }
        }
        let next_ptr = self.deref(ptr).next();
        let new_node = LinkedNode::init(inner, next_ptr, Some(ptr), None);
        let new_ptr = Index(self.nodes.len());
        self.nodes.push(Some(new_node));
        self.set_next_at(ptr, Some(new_ptr));
        match next_ptr {
            Some(np) => {
                self.set_previous_at(np, Some(new_ptr));
            },
            None => {
                self.last = new_ptr;
            },
        }
        self.live = self.live + 1;
        self.chain = Ghost(c.insert(k + 1, new_ptr));
        proof {
            Self::lemma_insert_at(old(self), self, k + 1, new_ptr);
        }
        new_ptr
    }

    /// Links a new node before the node `ptr` and returns its handle.
    pub fn insert_before(&mut self, inner: N, ptr: Index) -> (r: Index)
        requires
            old(self).wf(),
            old(self).handles().contains(ptr),
            old(self).slot_count() < usize::MAX,
        ensures
            final(self).wf(),
            !old(self).handles().contains(r),
            final(self).handles() == old(self).handles().insert(old(self).pos_of(ptr), r),
            final(self).contents() == old(self).contents().insert(old(self).pos_of(ptr), inner),
            final(self).node_of(r).parent_link() is None,
            forall|h: Index|
                old(self).handles().contains(h) ==> final(self).node_of(h).parent_link() == old(self).node_of(
                    h,
                ).parent_link(),
            final(self).len_spec() == old(self).len_spec() + 1,
            final(self).slot_count() == old(self).slot_count() + 1,
    {
        let ghost k = self.pos_of(ptr);
        let ghost c = self.chain@;
        proof {
            assert(c[k] == ptr);
            reveal(LinkedList::slots_ok);
            self.lemma_links(k);
            if k > 0 {
                self.lemma_links(k - 1);
            }
        }
        let previous_ptr = self.deref(ptr).previous();
        let new_node = LinkedNode::init(inner, Some(ptr), previous_ptr, None);
        let new_ptr = Index(self.nodes.len());
        self.nodes.push(Some(new_node));
        self.set_previous_at(ptr, Some(new_ptr));
        match previous_ptr {
            Some(pp) => {
                self.set_next_at(pp, Some(new_ptr));
            },
            None => {
                self.first = new_ptr;
            },
        }
        self.live = self.live + 1;
        self.chain = Ghost(c.insert(k, new_ptr));
        proof {
            Self::lemma_insert_at(old(self), self, k, new_ptr);
        }
        new_ptr
    }

    /// Links a new node just before the last one (the sentinel) and returns
    /// its handle.
    pub fn append_before_sentinel(&mut self, inner: N) -> (r: Index)
        requires
            old(self).wf(),
            old(self).slot_count() < usize::MAX,
        ensures
            final(self).wf(),
            !old(self).handles().contains(r),
            final(self).handles() == old(self).handles().insert(old(self).handles().len() - 1, r),
            final(self).contents() == old(self).contents().insert(old(self).handles().len() - 1, inner),
            final(self).node_of(r).parent_link() is None,
            forall|h: Index|
                old(self).handles().contains(h) ==> final(self).node_of(h).parent_link() == old(self).node_of(
                    h,
                ).parent_link(),
            final(self).len_spec() == old(self).len_spec() + 1,
            final(self).slot_count() == old(self).slot_count() + 1,
    {
        let last = self.last;
        proof {
            let c = self.handles();
            assert(c[c.len() - 1] == last);
            assert(self.pos_of(last) == c.len() - 1) by {
                let k = self.pos_of(last);
                assert(c[k] == last);
            }
        }
        self.insert_before(inner, last)
    }

    /// Drops every node and starts again with one node, whose handle it
    /// returns.
    pub fn clear(&mut self, inner: N) -> (r: Index)
        ensures
            final(self).wf(),
            final(self).handles() == seq![r],
            final(self).contents() == seq![inner],
            final(self).node_of(r).parent_link() is None,
            final(self).len_spec() == 1,
            final(self).slot_count() == 1,
    {
        *self = Self::new(inner);
        self.first
    }

    /// The address of the parent of the node `ptr`.
    pub fn parent(&self, ptr: Index) -> (r: Option<PA>)
        where
            PA: Copy,
        requires
            self.holds(ptr),
        ensures
            r == self.node_of(ptr).parent_link(),
    {
        self.deref(ptr).parent()
    }

    /// The data of the node `ptr`.
    pub fn get(&self, ptr: Index) -> (r: &N)
        requires
            self.holds(ptr),
        ensures
            *r == self.node_of(ptr).data(),
    {
        &self.deref(ptr).inner
    }

    /// `s1` is `s0` with only the node `ptr` changed, and not its links.
    spec fn changed_in_place(s0: &Self, s1: &Self, ptr: Index) -> bool {
        &&& s1.chain == s0.chain
        &&& s1.loose == s0.loose
        &&& s1.live == s0.live
        &&& s1.first == s0.first
        &&& s1.last == s0.last
        &&& s1.nodes@.len() == s0.nodes@.len()
        &&& forall|i: int| 0 <= i < s0.nodes@.len() && i != ptr.slot() ==> s1.nodes@[i] == s0.nodes@[i]
        &&& s1.holds(ptr)
        &&& s1.node_of(ptr).next_link() == s0.node_of(ptr).next_link()
        &&& s1.node_of(ptr).previous_link() == s0.node_of(ptr).previous_link()
    }

    /// Changing one node in place, and not its links, keeps the list
    /// consistent and the other nodes as they were.
    proof fn lemma_changed_in_place(s0: &Self, s1: &Self, ptr: Index)
        requires
            s0.wf(),
            s0.handles().contains(ptr),
            Self::changed_in_place(s0, s1, ptr),
        ensures
            s1.wf(),
            s1.contents() == s0.contents().update(s0.pos_of(ptr), s1.node_of(ptr).data()),
            forall|h: Index| s0.holds(h) && h != ptr ==> s1.node_of(h) == s0.node_of(h),
    {
        reveal(LinkedList::linked);
        reveal(LinkedList::slots_ok);
        let c = s0.chain@;
        let k = s0.pos_of(ptr);
        assert(c[k] == ptr);
        assert forall|j: int| 0 <= j < c.len() && c[j] != ptr implies #[trigger] s1.nodes@[c[j].slot()]
            == s0.nodes@[c[j].slot()] by {
            assert(c[j].slot() != ptr.slot());
            assert(s0.holds(c[j]));
        }
        assert forall|j: int| 0 <= j < c.len() implies #[trigger] s1.contents()[j] == s0.contents().update(
            k,
            s1.node_of(ptr).data(),
        )[j] by {
            if c[j] != ptr {
                assert(s1.nodes@[c[j].slot()] == s0.nodes@[c[j].slot()]);
            }
        }
        assert(s1.contents() =~= s0.contents().update(k, s1.node_of(ptr).data()));
        assert forall|j: int| 0 <= j < c.len() implies (#[trigger] s1.node_of(c[j])).next_link() == s0.node_of(c[j]).next_link()
            && s1.node_of(c[j]).previous_link() == s0.node_of(c[j]).previous_link() && s1.holds(c[j]) by {
            if c[j] != ptr {
                assert(s1.nodes@[c[j].slot()] == s0.nodes@[c[j].slot()]);
            }
            assert(s0.holds(c[j]));
        }
        assert forall|j: int| 0 <= j < s1.loose@.len() implies s1.holds(#[trigger] s1.loose@[j]) by {
            assert(s0.holds(s1.loose@[j]));
        }
        assert forall|i: int|
            0 <= i < s1.nodes@.len() && #[trigger] s1.nodes@[i] is Some implies s1.chain@.contains(Index(i as usize))
                || s1.loose@.contains(Index(i as usize)) by {
            if i != ptr.slot() {
                assert(s1.nodes@[i] == s0.nodes@[i]);
            } else {
                assert(c[k] == Index(i as usize));
            }
        }
        assert forall|h: Index| s0.holds(h) && h != ptr implies s1.node_of(h) == s0.node_of(h) by {
            assert(s1.nodes@[h.slot()] == s0.nodes@[h.slot()]);
        }
    }

    /// Sets the address of the parent of the node `ptr`.
    pub fn set_parent(&mut self, ptr: Index, parent: PA)
        requires
            old(self).wf(),
            old(self).handles().contains(ptr),
        ensures
            final(self).wf(),
            final(self).handles() == old(self).handles(),
            final(self).contents() == old(self).contents(),
            final(self).node_of(ptr).parent_link() == Some(parent),
            forall|h: Index|
                old(self).handles().contains(h) && h != ptr ==> final(self).node_of(h).parent_link() == old(
                    self,
                ).node_of(h).parent_link(),
            final(self).len_spec() == old(self).len_spec(),
            final(self).slot_count() == old(self).slot_count(),
    {
        proof {
            self.lemma_links(self.pos_of(ptr));
        }
        match &mut self.nodes[ptr.0] {
            Some(node) => {
                node.parent = Some(parent);
            },
            None => {},
        }
        proof {
            Self::lemma_changed_in_place(old(self), self, ptr);
            assert(old(self).contents().update(old(self).pos_of(ptr), self.node_of(ptr).data()) =~= old(self).contents());
            assert forall|h: Index| old(self).handles().contains(h) && h != ptr implies self.node_of(h).parent_link() == old(
                self,
            ).node_of(h).parent_link() by {
                let j = choose|j: int| 0 <= j < old(self).handles().len() && old(self).handles()[j] == h;
                old(self).lemma_links(j);
            }
        }
    }

    /// Puts `inner` in the node `ptr` and returns the data it held.
    pub fn replace_data(&mut self, ptr: Index, inner: N) -> (r: N)
        requires
            old(self).wf(),
            old(self).handles().contains(ptr),
        ensures
            r == old(self).node_of(ptr).data(),
            final(self).wf(),
            final(self).handles() == old(self).handles(),
            final(self).contents() == old(self).contents().update(old(self).pos_of(ptr), inner),
            forall|h: Index|
                old(self).handles().contains(h) ==> final(self).node_of(h).parent_link() == old(self).node_of(
                    h,
                ).parent_link(),
            final(self).len_spec() == old(self).len_spec(),
            final(self).slot_count() == old(self).slot_count(),
    {
        proof {
            self.lemma_links(self.pos_of(ptr));
        }
        let mut data = inner;
        match &mut self.nodes[ptr.0] {
            Some(node) => {
                core::mem::swap(&mut node.inner, &mut data);
            },
            None => {},
        }
        proof {
            Self::lemma_changed_in_place(old(self), self, ptr);
            assert forall|h: Index| old(self).handles().contains(h) implies self.node_of(h).parent_link() == old(
                self,
            ).node_of(h).parent_link() by {
                let j = choose|j: int| 0 <= j < old(self).handles().len() && old(self).handles()[j] == h;
                old(self).lemma_links(j);
            }
        }
        data
    }

    /// The bound names a linked node, or none.
    pub open spec fn bound_ok(&self, b: Bound) -> bool {
        match b {
            Bound::Included(h) => self.handles().contains(h),
            Bound::Excluded(h) => self.handles().contains(h),
            Bound::Unbounded => true,
        }
    }

    /// The position of the first node that a run from `b` covers.
    pub open spec fn start_pos(&self, b: Bound) -> int {
        match b {
            Bound::Included(h) => self.pos_of(h),
            Bound::Excluded(h) => self.pos_of(h) + 1,
            Bound::Unbounded => 0,
        }
    }

    /// The position of the first node after a run that ends at `b`; an
    /// unbounded run stops at the last node, which it keeps.
    pub open spec fn stop_pos(&self, b: Bound) -> int {
        match b {
            Bound::Included(h) => self.pos_of(h) + 1,
            Bound::Excluded(h) => self.pos_of(h),
            Bound::Unbounded => self.handles().len() - 1,
        }
    }

    /// Drops the nodes of the run from `start` to `end` and links the nodes on
    /// either side of it. Where the run is empty (it starts at the node where it
    /// stops), that node is unlinked from the list but stays stored and counted.
    /// Nothing happens when `start` excludes the last node.
    pub fn delete_subchain(&mut self, start: Bound, end: Bound)
        requires
            old(self).wf(),
            old(self).bound_ok(start),
            old(self).bound_ok(end),
            old(self).start_pos(start) < old(self).handles().len() ==> {
                &&& old(self).start_pos(start) <= old(self).stop_pos(end) < old(self).handles().len()
                &&& old(self).start_pos(start) < old(self).handles().len() - 1
            },
        ensures
            final(self).wf(),
            final(self).slot_count() == old(self).slot_count(),
            ({
                let c = old(self).handles();
                let v = old(self).contents();
                let n = c.len() as int;
                let s = old(self).start_pos(start);
                let e = old(self).stop_pos(end);
                let t = if s < e { e } else { s + 1 };
                &&& s == n ==> final(self).handles() == c && final(self).contents() == v && final(self).len_spec()
                    == old(self).len_spec()
                &&& s < n ==> {
                    &&& final(self).handles() == c.subrange(0, s) + c.subrange(t, n)
                    &&& final(self).contents() == v.subrange(0, s) + v.subrange(t, n)
                    &&& final(self).len_spec() == old(self).len_spec() - (e - s)
                }
            }),
            forall|h: Index|
                final(self).handles().contains(h) ==> final(self).node_of(h).parent_link() == old(self).node_of(
                    h,
                ).parent_link(),
    {
        proof {
            reveal(LinkedList::linked);
            reveal(LinkedList::slots_ok);
        }
        let ghost c = self.chain@;
        let ghost n = c.len() as int;
        let ghost s = self.start_pos(start);
        let ghost e = self.stop_pos(end);
        proof {
            match start {
                Bound::Included(h) => { assert(c[self.pos_of(h)] == h); },
                Bound::Excluded(h) => { assert(c[self.pos_of(h)] == h); },
                Bound::Unbounded => {},
            }
            match end {
                Bound::Included(h) => { assert(c[self.pos_of(h)] == h); },
                Bound::Excluded(h) => { assert(c[self.pos_of(h)] == h); },
                Bound::Unbounded => {},
            }
        }
        let cur0: Index = match start {
            Bound::Included(ix) => ix,
            Bound::Excluded(ix) => {
                let nx = self.deref(ix).next();
                match nx {
                    Some(x) => x,
                    None => {
                        return;
                    },
                }
            },
            Bound::Unbounded => self.first,
        };
        let sentinel: Index = match end {
            Bound::Included(ix) => self.deref(ix).next().unwrap(),
            Bound::Excluded(ix) => ix,
            Bound::Unbounded => self.last,
        };
        assert(cur0 == c[s]);
        assert(sentinel == c[e]);
        let before = self.deref(cur0).previous();
        let mut after = self.deref(cur0).next().unwrap();
        let mut cur = cur0;
        let ghost mut k: int = s;
        while cur != sentinel
            invariant
                old(self).wf(),
                c == old(self).chain@,
                n == c.len(),
                0 <= s <= k <= e < n,
                s < n - 1,
                cur == c[k],
                sentinel == c[e],
                after == (if k > s { c[k] } else { c[s + 1] }),
                self.nodes@.len() == old(self).nodes@.len(),
                forall|m: int| s <= m < k ==> !(#[trigger] self.nodes@[c[m].slot()] is Some),
                forall|i: int| 0 <= i < self.nodes@.len() && #[trigger] self.nodes@[i] is Some ==> old(self).nodes@[i] is Some,
                forall|j: int|
                    0 <= j < n && (j < s || j >= k) ==> #[trigger] self.nodes@[c[j].slot()] == old(self).nodes@[c[j].slot()],
                forall|m: int|
                    0 <= m < old(self).loose@.len() ==> #[trigger] self.nodes@[old(self).loose@[m].slot()] == old(
                        self,
                    ).nodes@[old(self).loose@[m].slot()],
                self.live == old(self).live - (k - s),
                self.first == old(self).first,
                self.last == old(self).last,
                self.chain == old(self).chain,
                self.loose == old(self).loose,
            decreases e - k,
        {
            assert(k != e);
            proof {
                old(self).lemma_links(k);
                reveal(LinkedList::slots_ok);
            }
            after = self.deref(cur).next().unwrap();
            let temp = after;
            let ghost pre = self.nodes@;
            self.nodes[cur.0] = None;
            self.live = self.live - 1;
            cur = temp;
            proof {
                reveal(LinkedList::slots_ok);
                assert forall|j: int| 0 <= j < n && j != k implies c[j].slot() != c[k].slot() by {}
                assert forall|m: int| 0 <= m < old(self).loose@.len() implies old(self).loose@[m].slot() != c[k].slot() by {
                    assert(old(self).loose@[m] != c[k]);
                }
                assert forall|m: int| s <= m < k + 1 implies !(#[trigger] self.nodes@[c[m].slot()] is Some) by {
                    if m < k {
                        old(self).lemma_links(m);
                        assert(c[m].slot() != c[k].slot());
                        assert(self.nodes@[c[m].slot()] == pre[c[m].slot()]);
                    }
                }
                assert forall|j: int| 0 <= j < n && (j < s || j >= k + 1) implies #[trigger] self.nodes@[c[j].slot()]
                    == old(self).nodes@[c[j].slot()] by {
                    old(self).lemma_links(j);
                    assert(c[j].slot() != c[k].slot());
                    assert(self.nodes@[c[j].slot()] == pre[c[j].slot()]);
                }
                k = k + 1;
            }
        }
        let ghost t = if s < e { e } else { s + 1 };
        assert(k == e);
        assert(old(self).node_of(c[s]).previous_link() == (if s > 0 { Some(c[s - 1]) } else { None }));
        match before {
            Some(ix) => {
                self.set_next_at(ix, Some(after));
                self.set_previous_at(after, Some(ix));
            },
            None => {
                self.first = after;
                self.set_previous_at(after, None);
            },
        }
        self.chain = Ghost(c.subrange(0, s) + c.subrange(t, n));
        self.loose = Ghost(if s == e { old(self).loose@.push(c[s]) } else { old(self).loose@ });
        proof {
            Self::lemma_cut(old(self), self, s, e, t);
        }
    }

    /// Links the nodes of `data`, in order, after the node `ptr`, and returns
    /// the handle of the last of them (`ptr` itself when `data` is empty).
    fn insert_all_after(&mut self, ptr: Index, data: Vec<N>) -> (r: Index)
        requires
            old(self).wf(),
            old(self).handles().contains(ptr),
            old(self).slot_count() + data@.len() <= usize::MAX,
        ensures
            final(self).wf(),
            ({
                let c = old(self).handles();
                let v = old(self).contents();
                let n = c.len() as int;
                let p = old(self).pos_of(ptr);
                let m = data@.len() as int;
                &&& final(self).handles().len() == n + m
                &&& final(self).handles().subrange(0, p + 1) == c.subrange(0, p + 1)
                &&& final(self).handles().subrange(p + 1 + m, n + m) == c.subrange(p + 1, n)
                &&& final(self).handles()[p + m] == r
                &&& final(self).contents() == v.subrange(0, p + 1) + data@ + v.subrange(p + 1, n)
            }),
            final(self).len_spec() == old(self).len_spec() + data@.len(),
            final(self).slot_count() == old(self).slot_count() + data@.len(),
            forall|q: int|
                0 <= q < old(self).handles().len() ==> final(self).node_of(#[trigger] old(self).handles()[q]).parent_link()
                    == old(self).node_of(old(self).handles()[q]).parent_link(),
    {
        let ghost c = self.chain@;
        let ghost v = self.contents();
        let ghost n = c.len() as int;
        let ghost p = self.pos_of(ptr);
        let ghost m = data@.len() as int;
        let ghost whole = data@;
        proof {
            assert(c[p] == ptr);
        }
        let mut rest = data;
        let mut cur = ptr;
        let ghost mut i: int = 0;
        proof {
            assert(self.contents() =~= v.subrange(0, p + 1) + whole.subrange(0, 0) + v.subrange(p + 1, n));
        }
        while rest.len() > 0
            invariant
                0 <= i <= m,
                m == whole.len(),
                n == c.len(),
                v.len() == n,
                0 <= p < n,
                rest@ == whole.subrange(i, m),
                self.wf(),
                self.handles().len() == n + i,
                self.handles().subrange(0, p + 1) == c.subrange(0, p + 1),
                self.handles().subrange(p + 1 + i, n + i) == c.subrange(p + 1, n),
                self.handles()[p + i] == cur,
                self.contents() == v.subrange(0, p + 1) + whole.subrange(0, i) + v.subrange(p + 1, n),
                self.slot_count() + (m - i) <= usize::MAX,
                self.len_spec() == old(self).len_spec() + i,
                self.slot_count() == old(self).slot_count() + i,
                c == old(self).handles(),
                forall|q: int|
                    0 <= q < n ==> self.node_of(#[trigger] c[q]).parent_link() == old(self).node_of(c[q]).parent_link(),
            decreases m - i,
        {
            assert(rest@.len() == m - i);
            let node = rest.remove(0);
            assert(node == whole[i]);
            let ghost c0 = self.chain@;
            let ghost s0 = *self;
            proof {
                assert(self.pos_of(cur) == p + i) by {
                    let q = self.pos_of(cur);
                    assert(c0[q] == c0[p + i]);
                }
            }
            cur = self.insert_after(node, cur);
            proof {
                let c1 = self.chain@;
                assert(c1.subrange(0, p + 1) =~= c0.subrange(0, p + 1));
                assert(c1.subrange(p + 2 + i, n + i + 1) =~= c0.subrange(p + 1 + i, n + i));
                assert(whole.subrange(0, i + 1) =~= whole.subrange(0, i).push(node));
                assert(self.contents() =~= v.subrange(0, p + 1) + whole.subrange(0, i + 1) + v.subrange(p + 1, n));
                assert forall|q: int| 0 <= q < n implies self.node_of(#[trigger] c[q]).parent_link() == old(self).node_of(
                    c[q],
                ).parent_link() by {
                    let qq = if q <= p { q } else { q + i };
                    if q <= p {
                        assert(c0.subrange(0, p + 1)[q] == c[q]);
                    } else {
                        assert(c0.subrange(p + 1 + i, n + i)[q - p - 1] == c.subrange(p + 1, n)[q - p - 1]);
                    }
                    assert(c0[qq] == c[q]);
                    assert(s0.handles().contains(c[q]));
                }
                i = i + 1;
            }
        }
        proof {
            assert(whole.subrange(0, m) =~= whole);
        }
        cur
    }

    /// Puts the nodes of `new_data`, in order, in place of the run of nodes from
    /// `poison_head` to `poison_tail`.
    pub fn replace(&mut self, poison_head: Index, poison_tail: Index, new_data: Vec<N>)
        requires
            old(self).wf(),
            old(self).handles().contains(poison_head),
            old(self).handles().contains(poison_tail),
            old(self).pos_of(poison_head) <= old(self).pos_of(poison_tail) < old(self).handles().len() - 1,
            new_data@.len() >= 1,
            old(self).slot_count() + new_data@.len() <= usize::MAX,
        ensures
            final(self).wf(),
            ({
                let c = old(self).handles();
                let v = old(self).contents();
                let n = c.len() as int;
                let h = old(self).pos_of(poison_head);
                let t = old(self).pos_of(poison_tail);
                let m = new_data@.len() as int;
                &&& final(self).handles().len() == n - (t + 1 - h) + m
                &&& final(self).handles().subrange(0, h) == c.subrange(0, h)
                &&& final(self).handles().subrange(h + m, final(self).handles().len() as int) == c.subrange(t + 1, n)
                &&& final(self).contents() == v.subrange(0, h) + new_data@ + v.subrange(t + 1, n)
                &&& final(self).len_spec() == old(self).len_spec() - (t + 1 - h) + m
            }),
            forall|k: int|
                0 <= k < old(self).handles().len() && (k < old(self).pos_of(poison_head) || k > old(self).pos_of(
                    poison_tail,
                )) ==> final(self).node_of(#[trigger] old(self).handles()[k]).parent_link() == old(self).node_of(
                    old(self).handles()[k],
                ).parent_link(),
    {
        let ghost c = self.chain@;
        let ghost v = self.contents();
        let ghost n = c.len() as int;
        let ghost h = self.pos_of(poison_head);
        let ghost t = self.pos_of(poison_tail);
        let ghost m = new_data@.len() as int;
        let ghost data = new_data@;
        proof {
            assert(c[h] == poison_head);
            assert(c[t] == poison_tail);
        }
        let mut rest = new_data;
        let first_data = rest.remove(0);
        let new_ptr = self.insert_before(first_data, poison_head);
        let ghost c1 = self.chain@;
        let ghost s1 = *self;
        proof {
            assert(c1[h + 1] == poison_head);
            assert(c1[t + 1] == poison_tail);
            assert(self.pos_of(poison_head) == h + 1) by {
                let q = self.pos_of(poison_head);
                assert(c1[q] == c1[h + 1]);
            }
            assert(self.pos_of(poison_tail) == t + 1) by {
                let q = self.pos_of(poison_tail);
                assert(c1[q] == c1[t + 1]);
            }
        }
        self.delete_subchain(Bound::Included(poison_head), Bound::Included(poison_tail));
        let ghost c2 = self.chain@;
        let ghost s2 = *self;
        proof {
            lemma_insert_then_cut(c, h, t, new_ptr);
            lemma_insert_then_cut(v, h, t, first_data);
            assert(c2[h] == new_ptr);
            assert(self.pos_of(new_ptr) == h) by {
                let q = self.pos_of(new_ptr);
                assert(c2[q] == c2[h]);
            }
        }
        let ghost ins = rest@;
        self.insert_all_after(new_ptr, rest);
        proof {
            let c3 = self.chain@;
            lemma_spliced_ends(c, c3, h, t, new_ptr, m);
            lemma_splice_after(v, h, t, first_data, ins);
            assert(data =~= seq![first_data] + ins);
            assert forall|k: int|
                0 <= k < n && (k < h || k > t) implies self.node_of(#[trigger] c[k]).parent_link() == old(self).node_of(
                    c[k],
                ).parent_link() by {
                let k1 = if k < h { k } else { k + 1 };
                let k2 = if k < h { k } else { k - t + h };
                assert(old(self).handles()[k] == c[k]);
                assert(old(self).handles().contains(c[k]));
                assert(c1[k1] == c[k]);
                assert(s1.handles()[k1] == c[k]);
                assert(c2 == c.subrange(0, h) + seq![new_ptr] + c.subrange(t + 1, n));
                assert(c2[k2] == c[k]);
                assert(s2.handles()[k2] == c[k]);
                assert(s2.handles().contains(c[k]));
                assert(self.node_of(c[k]).parent_link() == s2.node_of(c[k]).parent_link());
                assert(s2.node_of(c[k]).parent_link() == s1.node_of(c[k]).parent_link());
            }
        }
    }

    /// The number of stored nodes.
    pub fn len(&self) -> (r: usize)
        requires
            self.wf(),
        ensures
            r == self.len_spec(),
    {
        proof {
            reveal(LinkedList::slots_ok);
        }
        self.live
    }

    /// The node that a handle names.
    pub fn deref(&self, ptr: Index) -> (r: &LinkedNode<N, PA>)
        requires
            self.holds(ptr),
        ensures
            *r == self.node_of(ptr),
    {
        self.nodes[ptr.0].as_ref().unwrap()
    }
}

impl<K, N: KeyBounded<K>, PA: Copy> NodeLayer<K, PA> for LinkedList<N, PA> {
    open spec fn layer_wf(&self) -> bool {
        self.wf()
    }

    open spec fn layer_handles(&self) -> Seq<Index> {
        self.handles()
    }

    open spec fn key_at(&self, h: Index) -> K {
        self.node_of(h).data().bound_of()
    }

    open spec fn parent_at(&self, h: Index) -> Option<PA> {
        self.node_of(h).parent_link()
    }

    open spec fn same_nodes(&self, other: &Self) -> bool {
        &&& self.handles() == other.handles()
        &&& forall|h: Index| self.handles().contains(h) ==> #[trigger] self.node_of(h).data() == other.node_of(h).data()
    }

    proof fn lemma_same_nodes(a: &Self, b: &Self, c: &Self) {
    }

    proof fn lemma_handles_distinct(&self) {
    }

    fn first(&self) -> (r: Index) {
        self.first
    }

    fn last(&self) -> (r: Index) {
        self.last
    }

    fn next_node(&self, ptr: Index) -> (r: Option<Index>) {
        proof {
            self.lemma_links(self.pos_of(ptr));
        }
        self.deref(ptr).next()
    }

    fn lower_bound(&self, ptr: Index) -> (r: K) {
        proof {
            self.lemma_links(self.pos_of(ptr));
        }
        self.get(ptr).lower_bound()
    }

    fn parent(&self, ptr: Index) -> (r: Option<PA>) {
        proof {
            self.lemma_links(self.pos_of(ptr));
        }
        LinkedList::parent(self, ptr)
    }

    fn set_parent(&mut self, ptr: Index, parent: PA) {
        LinkedList::set_parent(self, ptr, parent);
        proof {
            assert forall|h: Index| self.handles().contains(h) implies #[trigger] self.node_of(h).data() == old(self).node_of(
                h,
            ).data() by {
                let k = choose|k: int| 0 <= k < self.handles().len() && self.handles()[k] == h;
                assert(self.contents()[k] == old(self).contents()[k]);
            }
        }
    }
}

} // verus!
