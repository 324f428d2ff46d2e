//! A slab-based id allocator which reuses freed ids, the most recently freed first.
use vstd::prelude::*;

verus! {

/// A type that can be used as an allocator index.
pub trait ID: Copy + Sized {
    /// The number that an id stands for.
    spec fn id_nat(self) -> nat;

    /// The largest number that an id can stand for.
    spec fn id_limit() -> nat;

    /// Every id lies within the limit, and two ids with the same number are the same.
    proof fn lemma_id(a: Self, b: Self)
        ensures
            a.id_nat() <= Self::id_limit(),
            a.id_nat() == b.id_nat() ==> a == b,
    ;

    /// Allocate the initial, unallocated value.
    fn initial() -> (r: Self)
        ensures
            r.id_nat() == 0,
    ;

    /// Get the index as a usize.
    fn as_usize(self) -> (r: usize)
        requires
            self.id_nat() <= usize::MAX,
        ensures
            r == self.id_nat(),
    ;

    /// Increment the index and return the incremented value.
    fn increment(self) -> (r: Self)
        requires
            self.id_nat() < Self::id_limit(),
        ensures
            r.id_nat() == self.id_nat() + 1,
    ;
}

impl ID for u8 {
    open spec fn id_nat(self) -> nat { self as nat }
    open spec fn id_limit() -> nat { u8::MAX as nat }
    proof fn lemma_id(a: Self, b: Self) {}
    fn initial() -> (r: Self) { 0 }
    fn as_usize(self) -> (r: usize) { self as usize }
    fn increment(self) -> (r: Self) { self + 1 }
}

impl ID for u16 {
    open spec fn id_nat(self) -> nat { self as nat }
    open spec fn id_limit() -> nat { u16::MAX as nat }
    proof fn lemma_id(a: Self, b: Self) {}
    fn initial() -> (r: Self) { 0 }
    fn as_usize(self) -> (r: usize) { self as usize }
    fn increment(self) -> (r: Self) { self + 1 }
}

impl ID for u32 {
    open spec fn id_nat(self) -> nat { self as nat }
    open spec fn id_limit() -> nat { u32::MAX as nat }
    proof fn lemma_id(a: Self, b: Self) {}
    fn initial() -> (r: Self) { 0 }
    fn as_usize(self) -> (r: usize) { self as usize }
    fn increment(self) -> (r: Self) { self + 1 }
}

impl ID for u64 {
    open spec fn id_nat(self) -> nat { self as nat }
    open spec fn id_limit() -> nat { u64::MAX as nat }
    proof fn lemma_id(a: Self, b: Self) {}
    fn initial() -> (r: Self) { 0 }
    fn as_usize(self) -> (r: usize) { self as usize }
    fn increment(self) -> (r: Self) { self + 1 }
}

/// What an allocator holds: `len` slots, of which those in `free` are free.
/// `free` is a stack: its last element is handed out next.
pub struct IDAllocatorView {
    pub len: nat,
    pub free: Seq<nat>,
}

/// `index` is allocated: it names a slot that is not free.
pub open spec fn view_is_allocated(v: IDAllocatorView, index: nat) -> bool {
    index < v.len && !v.free.contains(index)
}

/// The id that the next allocation hands out.
pub open spec fn view_next(v: IDAllocatorView) -> nat {
    if v.free.len() == 0 { v.len } else { v.free.last() }
}

/// The state after an allocation.
pub open spec fn view_after_allocate(v: IDAllocatorView) -> IDAllocatorView {
    if v.free.len() == 0 {
        IDAllocatorView { len: v.len + 1, free: v.free }
    } else {
        IDAllocatorView { len: v.len, free: v.free.drop_last() }
    }
}

/// The state after freeing `index`, and whether the free succeeded.
pub open spec fn view_after_free(v: IDAllocatorView, index: nat) -> (IDAllocatorView, bool) {
    if view_is_allocated(v, index) {
        (IDAllocatorView { len: v.len, free: v.free.push(index) }, true)
    } else {
        (v, false)
    }
}

/// A well-formed state: the free slots are distinct slots.
pub open spec fn view_wf(v: IDAllocatorView) -> bool {
    &&& v.free.no_duplicates()
    &&& forall|k: int| 0 <= k < v.free.len() ==> #[trigger] v.free[k] < v.len
}

/// An allocation hands out an id that was not allocated, marks it allocated, and
/// leaves every other id as it was.
pub proof fn lemma_allocate_hands_out_unallocated(v: IDAllocatorView, other: nat)
    requires
        view_wf(v),
    ensures
        !view_is_allocated(v, view_next(v)),
        view_is_allocated(view_after_allocate(v), view_next(v)),
        view_wf(view_after_allocate(v)),
        other != view_next(v) ==> (view_is_allocated(view_after_allocate(v), other) == view_is_allocated(v, other)),
{
    let n = view_next(v);
    let a = view_after_allocate(v);
    if v.free.len() > 0 {
        assert(v.free[v.free.len() - 1] == n);
        assert(v.free.contains(n));
        assert(!a.free.contains(n)) by {
            if a.free.contains(n) {
                let k = choose|k: int| 0 <= k < a.free.len() && a.free[k] == n;
                assert(v.free[k] == v.free[v.free.len() - 1]);
            }
        }
        assert(a.free.contains(other) == (v.free.contains(other) && other != n)) by {
            if v.free.contains(other) && other != n {
                let k = choose|k: int| 0 <= k < v.free.len() && v.free[k] == other;
                assert(a.free[k] == other);
            }
            if a.free.contains(other) {
                let k = choose|k: int| 0 <= k < a.free.len() && a.free[k] == other;
                assert(v.free[k] == other);
            }
        }
    } else {
        assert(!v.free.contains(n));
    }
}

/// Freeing an allocated id and then allocating hands the same id back.
pub proof fn lemma_free_then_allocate_reuses(v: IDAllocatorView, index: nat)
    requires
        view_wf(v),
        view_is_allocated(v, index),
    ensures
        view_after_free(v, index).1,
        view_wf(view_after_free(v, index).0),
        view_next(view_after_free(v, index).0) == index,
        view_after_allocate(view_after_free(v, index).0) == v,
        !view_is_allocated(view_after_free(v, index).0, index),
{
    let f = view_after_free(v, index).0;
    assert(f.free.drop_last() =~= v.free);
    assert(f.free[f.free.len() - 1] == index);
    assert forall|a: int, b: int| 0 <= a < b < f.free.len() implies f.free[a] != f.free[b] by {
        if b == f.free.len() - 1 {
            assert(v.free.contains(f.free[a]));
        }
    }
}

/// Freeing an id that is not allocated fails and changes nothing.
pub proof fn lemma_free_unallocated_fails(v: IDAllocatorView, index: nat)
    requires
        !view_is_allocated(v, index),
    ensures
        view_after_free(v, index) == (v, false),
{
}

/// While nothing has been freed, allocations hand out 0, 1, 2, ... in turn.
pub proof fn lemma_fresh_allocations_count_up(v: IDAllocatorView)
    requires
        v.free.len() == 0,
    ensures
        view_next(v) == v.len,
        view_after_allocate(v) == (IDAllocatorView { len: v.len + 1, free: v.free }),
{
}

/// A slab-based id allocator which can deal with automatic reclamation.
pub struct IDAllocator<I> {
    data: Vec<Option<I>>,
    next: I,
    free_stack: Ghost<Seq<nat>>,
}

impl<I: ID> View for IDAllocator<I> {
    type V = IDAllocatorView;

    closed spec fn view(&self) -> IDAllocatorView {
        IDAllocatorView { len: self.data@.len(), free: self.free_stack@ }
    }
}

impl<I: ID> IDAllocator<I> {
    /// The slots and the free list threaded through them agree.
    pub closed spec fn wf(&self) -> bool {
        let s = self.free_stack@;
        let len = self.data@.len();
        &&& view_wf(self@)
        &&& len <= I::id_limit() + 1
        &&& self.next.id_nat() == view_next(self@)
        &&& forall|k: int| 0 <= k < s.len() ==> {
            &&& (#[trigger] self.data@[s[k] as int]) is Some
            &&& self.data@[s[k] as int]->0.id_nat() == (if k == 0 { len } else { s[k - 1] })
        }
        &&& forall|i: int| 0 <= i < len ==> (self.data@[i] is None <==> !s.contains(i as nat))
    }

    /// A well-formed allocator has a well-formed view, so the laws on views
    /// apply to it.
    pub proof fn lemma_wf_view(&self)
        requires
            self.wf(),
        ensures
            view_wf(self@),
    {
    }

    /// Construct a new slab allocator.
    pub fn new() -> (r: Self)
        ensures
            r.wf(),
            r@ == (IDAllocatorView { len: 0, free: Seq::empty() }),
    {
        Self { data: Vec::new(), next: I::initial(), free_stack: Ghost(Seq::empty()) }
    }

    /// Allocate the next id: the most recently freed one, or a fresh one past
    /// every slot.
    pub fn allocate(&mut self) -> (index: I)
        requires
            old(self).wf(),
            old(self)@.free.len() > 0 || old(self)@.len < I::id_limit(),
        ensures
            final(self).wf(),
            index.id_nat() == view_next(old(self)@),
            final(self)@ == view_after_allocate(old(self)@),
    {
        let index = self.next;
        let ghost s = self.free_stack@;
        let ghost len = self.data@.len();
        let dl = self.data.len();
        proof {
            if s.len() > 0 {
                assert(s[s.len() - 1] < len);
            }
        }
        let n = self.next.as_usize();
        if n < dl {
            proof {
                assert(s.len() > 0) by {
                    if s.len() == 0 {
                        assert(self.next.id_nat() == len);
                    }
                }
                assert(s[s.len() - 1] == n);
            }
            let entry = self.data[n];
            match entry {
                Some(link) => {
                    proof {
                        assert(old(self).data@[s[s.len() - 1] as int] is Some);
                        assert(link.id_nat() == (if s.len() == 1 { len } else { s[s.len() - 2] }));
                    }
                    self.next = link;
                    self.data[n] = None;
                    proof {
                        let s2 = s.drop_last();
                        self.free_stack = Ghost(s2);
                        assert(s.no_duplicates());
                        assert forall|k: int| 0 <= k < s2.len() implies {
                            &&& (#[trigger] self.data@[s2[k] as int]) is Some
                            &&& self.data@[s2[k] as int]->0.id_nat() == (if k == 0 { len } else { s2[k - 1] })
                        } by {
                            assert(s2[k] == s[k]);
                            assert(s[k] != s[s.len() - 1]);
                        }
                        assert forall|i: int| 0 <= i < len implies (self.data@[i] is None <==> !s2.contains(i as nat)) by {
                            if i == n {
                                if s2.contains(i as nat) {
                                    let k = choose|k: int| 0 <= k < s2.len() && s2[k] == i as nat;
                                    assert(s[k] == s[s.len() - 1]);
                                }
                            } else {
                                if s.contains(i as nat) {
                                    let k = choose|k: int| 0 <= k < s.len() && s[k] == i as nat;
                                    assert(k != s.len() - 1);
                                    assert(s2[k] == i as nat);
                                }
                                if s2.contains(i as nat) {
                                    let k = choose|k: int| 0 <= k < s2.len() && s2[k] == i as nat;
                                    assert(s[k] == i as nat);
                                }
                            }
                        }
                    }
                },
                None => {
                    proof {
                        assert(false);
                    }
                },
            }
        } else {
            proof {
                assert(s.len() == 0) by {
                    if s.len() > 0 {
                        assert(s[s.len() - 1] < len);
                    }
                }
            }
            self.data.push(None);
            self.next = self.next.increment();
            proof {
                assert forall|i: int| 0 <= i < len + 1 implies (self.data@[i] is None <==> !s.contains(i as nat)) by {
                    if i < len {
                        assert(self.data@[i] == old(self).data@[i]);
                    }
                }
            }
        }
        index
    }

    /// Free the specified id. Returns whether it was allocated; only then is it
    /// freed.
    pub fn free(&mut self, index: I) -> (r: bool)
        requires
            old(self).wf(),
            index.id_nat() <= usize::MAX,
        ensures
            final(self).wf(),
            (final(self)@, r) == view_after_free(old(self)@, index.id_nat()),
    {
        let ghost s = self.free_stack@;
        let ghost len = self.data@.len();
        let i = index.as_usize();
        if i < self.data.len() {
            if self.data[i].is_none() {
                let old_next = self.next;
                self.data[i] = Some(old_next);
                self.next = index;
                proof {
                    let s2 = s.push(i as nat);
                    self.free_stack = Ghost(s2);
                    assert(!s.contains(i as nat));
                    assert forall|a: int, b: int| 0 <= a < b < s2.len() implies s2[a] != s2[b] by {
                        if b == s2.len() - 1 {
                            assert(s.contains(s2[a]));
                        } else {
                            assert(s2[a] == s[a] && s2[b] == s[b]);
                        }
                    }
                    assert forall|k: int| 0 <= k < s2.len() implies {
                        &&& (#[trigger] self.data@[s2[k] as int]) is Some
                        &&& self.data@[s2[k] as int]->0.id_nat() == (if k == 0 { len } else { s2[k - 1] })
                    } by {
                        if k < s.len() {
                            assert(s2[k] == s[k]);
                            assert(s[k] != i as nat) by {
                                assert(s.contains(s[k]));
                            }
                        }
                    }
                    assert forall|j: int| 0 <= j < len implies (self.data@[j] is None <==> !s2.contains(j as nat)) by {
                        if j != i {
                            if s2.contains(j as nat) {
                                let k = choose|k: int| 0 <= k < s2.len() && s2[k] == j as nat;
                                assert(s[k] == j as nat);
                            }
                            if s.contains(j as nat) {
                                let k = choose|k: int| 0 <= k < s.len() && s[k] == j as nat;
                                assert(s2[k] == j as nat);
                            }
                        } else {
                            assert(s2[s.len() as int] == j as nat);
                        }
                    }
                }
                return true;
            } else {
                proof {
                    assert(s.contains(i as nat));
                }
            }
        }
        false
    }

    /// Whether the id is currently allocated.
    pub fn is_allocated(&self, index: I) -> (r: bool)
        requires
            self.wf(),
            index.id_nat() <= usize::MAX,
        ensures
            r == view_is_allocated(self@, index.id_nat()),
    {
        let i = index.as_usize();
        if i < self.data.len() {
            return self.data[i].is_none();
        }
        false
    }
}

} // verus!
