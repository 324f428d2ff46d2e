//! A gapped array of key-value pairs: slots that are either free or hold an
//! entry, with the entries' keys increasing from left to right. It acts as the
//! base of data nodes.
//! ASSUMPTIONS:
//! - Keys (K) are unique
use vstd::prelude::*;
use crate::traits::StaticBounded;

verus! {

/// Slot `i` of the bitmap `b` is occupied.
pub open spec fn seq_occ(b: Seq<bool>, i: int) -> bool {
    0 <= i < b.len() && b[i]
}

/// The occupied slots hold strictly increasing keys.
pub open spec fn seq_sorted<K: StaticBounded>(b: Seq<bool>, ks: Seq<K>) -> bool {
    forall|i: int, j: int| seq_occ(b, i) && seq_occ(b, j) && i < j ==> ks[i].key_int() < ks[j].key_int()
}

/// Some occupied slot holds key `k` with value `v`.
pub open spec fn seq_maps_to<K: StaticBounded, V>(b: Seq<bool>, ks: Seq<K>, vs: Seq<V>, k: int, v: V) -> bool {
    exists|i: int| seq_occ(b, i) && ks[i].key_int() == k && vs[i] == v
}

/// Some occupied slot holds key `k`.
pub open spec fn seq_has_key<K: StaticBounded>(b: Seq<bool>, ks: Seq<K>, k: int) -> bool {
    exists|i: int| seq_occ(b, i) && ks[i].key_int() == k
}

/// The number of occupied slots in `[a, c)`.
pub open spec fn occ_count(b: Seq<bool>, a: int, c: int) -> nat
    decreases c - a,
{
    if c <= a {
        0
    } else {
        occ_count(b, a, c - 1) + (if seq_occ(b, c - 1) { 1nat } else { 0nat })
    }
}

/// Past an occupied slot `j` to the right of `c`, there is a first occupied slot
/// after `c`; returns it.
pub proof fn lemma_first_occ_after(b: Seq<bool>, c: int, j: int) -> (n: int)
    requires
        c < j,
        seq_occ(b, j),
    ensures
        c < n <= j,
        seq_occ(b, n),
        forall|m: int| c < m < n ==> !seq_occ(b, m),
    decreases j - c,
{
    if exists|m: int| c < m < j && seq_occ(b, m) {
        let m = choose|m: int| c < m < j && seq_occ(b, m);
        lemma_first_occ_after(b, c, m)
    } else {
        j
    }
}

/// In a sorted array a key is held by at most one slot, so it maps to at most
/// one value.
pub proof fn lemma_sorted_key_unique<K: StaticBounded>(b: Seq<bool>, ks: Seq<K>, i: int, j: int)
    requires
        seq_sorted(b, ks),
        seq_occ(b, i),
        seq_occ(b, j),
        ks[i].key_int() == ks[j].key_int(),
    ensures
        i == j,
{
}

/// `s1` is `s0` with the slots `[start, end)` copied to `dest` onwards.
pub open spec fn copied_within<T>(s0: Seq<T>, s1: Seq<T>, start: int, end: int, dest: int) -> bool {
    &&& s1.len() == s0.len()
    &&& forall|i: int|
        0 <= i < s0.len() ==> #[trigger] s1[i] == (if dest <= i < dest + (end - start) {
            s0[start + i - dest]
        } else {
            s0[i]
        })
}

/// Copies the slots `[start, end)` of `v` to `dest` onwards, as `copy_within`
/// on slices does.
fn copy_within_vec<T: Copy>(v: &mut Vec<T>, start: usize, end: usize, dest: usize)
    requires
        start <= end <= old(v)@.len(),
        dest + (end - start) <= old(v)@.len(),
    ensures
        copied_within(old(v)@, final(v)@, start as int, end as int, dest as int),
{
    let n = end - start;
    let len = v.len();
    let ghost s0 = v@;
    if dest <= start {
        let mut i: usize = 0;
        while i < n
            invariant
                n == end - start,
                dest <= start,
                start <= end <= s0.len(),
                dest + n <= s0.len(),
                len == s0.len(),
                0 <= i <= n,
                v@.len() == s0.len(),
                forall|j: int| 0 <= j < i ==> #[trigger] v@[dest + j] == s0[start + j],
                forall|p: int| 0 <= p < s0.len() && !(dest <= p < dest + i) ==> #[trigger] v@[p] == s0[p],
            decreases n - i,
        {
            let x = v[start + i];
            v[dest + i] = x;
            i += 1;
        }
        assert forall|p: int| 0 <= p < s0.len() implies #[trigger] v@[p] == (if dest <= p < dest + (end - start) {
            s0[start + p - dest]
        } else {
            s0[p]
        }) by {
            if dest <= p < dest + n {
                assert(v@[dest + (p - dest)] == s0[start + (p - dest)]);
            }
        }
    } else {
        let mut i: usize = n;
        while i > 0
            invariant
                n == end - start,
                dest > start,
                start <= end <= s0.len(),
                dest + n <= s0.len(),
                len == s0.len(),
                0 <= i <= n,
                v@.len() == s0.len(),
                forall|j: int| i <= j < n ==> #[trigger] v@[dest + j] == s0[start + j],
                forall|p: int| 0 <= p < s0.len() && !(dest + i <= p < dest + n) ==> #[trigger] v@[p] == s0[p],
            decreases i,
        {
            let x = v[start + (i - 1)];
            v[dest + (i - 1)] = x;
            i -= 1;
        }
        assert forall|p: int| 0 <= p < s0.len() implies #[trigger] v@[p] == (if dest <= p < dest + (end - start) {
            s0[start + p - dest]
        } else {
            s0[p]
        }) by {
            if dest <= p < dest + n {
                assert(v@[dest + (p - dest)] == s0[start + (p - dest)]);
            }
        }
    }
}

/// An insertion of `key` with `val` at slot `p`, with every other entry moved by
/// `sigma` in order, keeps the slots sorted and maps `key` to `val`, every
/// other key as before.
pub proof fn lemma_relocate<K: StaticBounded, V>(
    b0: Seq<bool>,
    k0: Seq<K>,
    v0: Seq<V>,
    b1: Seq<bool>,
    k1: Seq<K>,
    v1: Seq<V>,
    sigma: spec_fn(int) -> int,
    p: int,
    key: int,
    val: V,
)
    requires
        b0.len() == k0.len(),
        k0.len() == v0.len(),
        b1.len() == b0.len(),
        k1.len() == b0.len(),
        v1.len() == b0.len(),
        seq_sorted(b0, k0),
        forall|i: int|
            #![trigger sigma(i)]
            seq_occ(b0, i) && k0[i].key_int() != key ==> {
                &&& seq_occ(b1, sigma(i))
                &&& k1[sigma(i)] == k0[i]
                &&& v1[sigma(i)] == v0[i]
                &&& (k0[i].key_int() < key ==> sigma(i) < p)
                &&& (k0[i].key_int() > key ==> sigma(i) > p)
            },
        forall|i: int, j: int|
            #![trigger sigma(i), sigma(j)]
            seq_occ(b0, i) && seq_occ(b0, j) && i < j && k0[i].key_int() != key && k0[j].key_int() != key
                ==> sigma(i) < sigma(j),
        seq_occ(b1, p),
        k1[p].key_int() == key,
        v1[p] == val,
        forall|j: int|
            seq_occ(b1, j) && j != p ==> exists|i: int|
                #![trigger sigma(i)]
                seq_occ(b0, i) && k0[i].key_int() != key && sigma(i) == j,
    ensures
        seq_sorted(b1, k1),
        forall|kk: int, vv: V|
            seq_maps_to(b1, k1, v1, kk, vv) <==> (if kk == key { vv == val } else { seq_maps_to(b0, k0, v0, kk, vv) }),
{
    assert forall|j1: int, j2: int| seq_occ(b1, j1) && seq_occ(b1, j2) && j1 < j2 implies k1[j1].key_int() < k1[j2].key_int() by {
        if j1 == p {
            let i2 = choose|i: int| seq_occ(b0, i) && k0[i].key_int() != key && sigma(i) == j2;
            assert(sigma(i2) == j2);
        } else if j2 == p {
            let i1 = choose|i: int| seq_occ(b0, i) && k0[i].key_int() != key && sigma(i) == j1;
            assert(sigma(i1) == j1);
        } else {
            let i1 = choose|i: int| seq_occ(b0, i) && k0[i].key_int() != key && sigma(i) == j1;
            let i2 = choose|i: int| seq_occ(b0, i) && k0[i].key_int() != key && sigma(i) == j2;
            assert(sigma(i1) == j1 && sigma(i2) == j2);
            if i2 < i1 {
                assert(sigma(i2) < sigma(i1));
            }
            assert(i1 != i2);
        }
    }
    assert forall|kk: int, vv: V|
        seq_maps_to(b1, k1, v1, kk, vv) <==> (if kk == key { vv == val } else { seq_maps_to(b0, k0, v0, kk, vv) }) by {
        if seq_maps_to(b1, k1, v1, kk, vv) {
            let j = choose|j: int| seq_occ(b1, j) && k1[j].key_int() == kk && v1[j] == vv;
            if j != p {
                let i = choose|i: int| seq_occ(b0, i) && k0[i].key_int() != key && sigma(i) == j;
                assert(sigma(i) == j);
                assert(seq_occ(b0, i) && k0[i].key_int() == kk && v0[i] == vv);
            }
        }
        if kk == key {
            if vv == val {
                assert(seq_occ(b1, p) && k1[p].key_int() == kk && v1[p] == vv);
            }
        } else if seq_maps_to(b0, k0, v0, kk, vv) {
            let i = choose|i: int| seq_occ(b0, i) && k0[i].key_int() == kk && v0[i] == vv;
            assert(sigma(i) == sigma(i));
            assert(seq_occ(b1, sigma(i)) && k1[sigma(i)].key_int() == kk && v1[sigma(i)] == vv);
        }
    }
}

/// Counting occupied slots over `[a, c)` splits at any `m` in between.
pub proof fn lemma_occ_count_split(b: Seq<bool>, a: int, m: int, c: int)
    requires
        a <= m <= c,
    ensures
        occ_count(b, a, c) == occ_count(b, a, m) + occ_count(b, m, c),
    decreases c - m,
{
    if c > m {
        lemma_occ_count_split(b, a, m, c - 1);
    }
}

/// A range without occupied slots counts none.
pub proof fn lemma_occ_count_none(b: Seq<bool>, a: int, c: int)
    requires
        forall|i: int| a <= i < c ==> !seq_occ(b, i),
    ensures
        occ_count(b, a, c) == 0,
    decreases c - a,
{
    if c > a {
        lemma_occ_count_none(b, a, c - 1);
    }
}

/// A range holding exactly one occupied slot, its first one, counts one.
pub proof fn lemma_occ_count_one(b: Seq<bool>, a: int, c: int)
    requires
        a < c,
        seq_occ(b, a),
        forall|i: int| a < i < c ==> !seq_occ(b, i),
    ensures
        occ_count(b, a, c) == 1,
{
    lemma_occ_count_split(b, a, a + 1, c);
    lemma_occ_count_none(b, a + 1, c);
    assert(occ_count(b, a, a + 1) == occ_count(b, a, a) + 1);
}

/// Counts only grow as the range grows.
pub proof fn lemma_occ_count_mono(b: Seq<bool>, a: int, m: int, c: int)
    requires
        a <= m <= c,
    ensures
        occ_count(b, a, m) <= occ_count(b, a, c),
        occ_count(b, m, c) <= occ_count(b, a, c),
{
    lemma_occ_count_split(b, a, m, c);
}

/// Two bitmaps that agree on `[a, c)` count the same there.
pub proof fn lemma_occ_count_agree(b1: Seq<bool>, b2: Seq<bool>, a: int, c: int)
    requires
        forall|i: int| a <= i < c ==> seq_occ(b1, i) == seq_occ(b2, i),
    ensures
        occ_count(b1, a, c) == occ_count(b2, a, c),
    decreases c - a,
{
    if c > a {
        lemma_occ_count_agree(b1, b2, a, c - 1);
    }
}

/// Counting a range moved by `d` slots gives the same count where the two
/// bitmaps agree after the move.
pub proof fn lemma_occ_count_shift(b0: Seq<bool>, b1: Seq<bool>, a: int, c: int, d: int)
    requires
        forall|i: int| a <= i < c ==> seq_occ(b1, i + d) == seq_occ(b0, i),
    ensures
        occ_count(b1, a + d, c + d) == occ_count(b0, a, c),
    decreases c - a,
{
    if c > a {
        lemma_occ_count_shift(b0, b1, a, c - 1, d);
        assert(seq_occ(b1, (c - 1) + d) == seq_occ(b0, c - 1));
    }
}

/// Setting slot `j` to `v` changes the count of the whole bitmap by what the
/// slot held and what it holds now.
pub proof fn lemma_occ_count_update(b: Seq<bool>, j: int, v: bool)
    requires
        0 <= j < b.len(),
    ensures
        occ_count(b.update(j, v), 0, b.len() as int) + (if b[j] { 1int } else { 0int }) == occ_count(b, 0, b.len() as int)
            + (if v { 1int } else { 0int }),
{
    let b1 = b.update(j, v);
    let n = b.len() as int;
    lemma_occ_count_split(b, 0, j, n);
    lemma_occ_count_split(b, j, j + 1, n);
    lemma_occ_count_split(b1, 0, j, n);
    lemma_occ_count_split(b1, j, j + 1, n);
    lemma_occ_count_agree(b, b1, 0, j);
    lemma_occ_count_agree(b, b1, j + 1, n);
    assert(occ_count(b, j, j + 1) == occ_count(b, j, j) + (if seq_occ(b, j) { 1nat } else { 0nat }));
    assert(occ_count(b1, j, j + 1) == occ_count(b1, j, j) + (if seq_occ(b1, j) { 1nat } else { 0nat }));
}

/// Moving the slots `[s, c)` one slot right onto the free slot `c`, and
/// freeing slot `s`, keeps the count of the whole bitmap.
pub proof fn lemma_occ_count_move_right(b0: Seq<bool>, b1: Seq<bool>, s: int, c: int)
    requires
        0 <= s <= c < b0.len(),
        b1.len() == b0.len(),
        !b0[c],
        !b1[s],
        forall|i: int| s <= i < c ==> b1[i + 1] == b0[i],
        forall|i: int| 0 <= i < b0.len() && (i < s || i > c) ==> b1[i] == b0[i],
    ensures
        occ_count(b1, 0, b1.len() as int) == occ_count(b0, 0, b0.len() as int),
{
    let n = b0.len() as int;
    lemma_occ_count_split(b0, 0, s, n);
    lemma_occ_count_split(b0, s, c, n);
    lemma_occ_count_split(b0, c, c + 1, n);
    lemma_occ_count_split(b1, 0, s, n);
    lemma_occ_count_split(b1, s, s + 1, n);
    lemma_occ_count_split(b1, s + 1, c + 1, n);
    lemma_occ_count_agree(b0, b1, 0, s);
    lemma_occ_count_agree(b0, b1, c + 1, n);
    lemma_occ_count_shift(b0, b1, s, c, 1);
    lemma_occ_count_none(b0, c, c + 1);
    lemma_occ_count_none(b1, s, s + 1);
}

/// Moving the slots `[f + 1, p]` one slot left onto the free slot `f`, and
/// freeing slot `p`, keeps the count of the whole bitmap.
pub proof fn lemma_occ_count_move_left(b0: Seq<bool>, b1: Seq<bool>, f: int, p: int)
    requires
        0 <= f <= p < b0.len(),
        b1.len() == b0.len(),
        !b0[f],
        !b1[p],
        forall|i: int| f < i <= p ==> b1[i - 1] == b0[i],
        forall|i: int| 0 <= i < b0.len() && (i < f || i > p) ==> b1[i] == b0[i],
    ensures
        occ_count(b1, 0, b1.len() as int) == occ_count(b0, 0, b0.len() as int),
{
    let n = b0.len() as int;
    lemma_occ_count_split(b0, 0, f, n);
    lemma_occ_count_split(b0, f, f + 1, n);
    lemma_occ_count_split(b0, f + 1, p + 1, n);
    lemma_occ_count_split(b1, 0, f, n);
    lemma_occ_count_split(b1, f, p, n);
    lemma_occ_count_split(b1, p, p + 1, n);
    lemma_occ_count_agree(b0, b1, 0, f);
    lemma_occ_count_agree(b0, b1, p + 1, n);
    assert forall|i: int| f + 1 <= i < p + 1 implies seq_occ(b1, i + (-1)) == seq_occ(b0, i) by {}
    lemma_occ_count_shift(b0, b1, f + 1, p + 1, -1);
    lemma_occ_count_none(b0, f, f + 1);
    lemma_occ_count_none(b1, p, p + 1);
}

/// A count reaches the length of its range exactly when every slot there is
/// occupied.
pub proof fn lemma_occ_count_full(b: Seq<bool>, a: int, c: int)
    requires
        0 <= a <= c <= b.len(),
    ensures
        occ_count(b, a, c) <= c - a,
        occ_count(b, a, c) == c - a <==> forall|i: int| a <= i < c ==> b[i],
    decreases c - a,
{
    if c > a {
        lemma_occ_count_full(b, a, c - 1);
        if occ_count(b, a, c) == c - a {
            assert forall|i: int| a <= i < c implies b[i] by {
                if i < c - 1 {
                }
            }
        }
    }
}

/// `s1` is `s0` with the items of `[s, c)` moved one place right, onto place
/// `c`, and `x` in place `s`.
pub open spec fn seq_moved_right<T>(s0: Seq<T>, s1: Seq<T>, s: int, c: int, x: T) -> bool {
    &&& s1.len() == s0.len()
    &&& s1[s] == x
    &&& forall|i: int| s < i <= c ==> #[trigger] s1[i] == s0[i - 1]
    &&& forall|i: int| 0 <= i < s0.len() && (i < s || i > c) ==> #[trigger] s1[i] == s0[i]
}

/// `s1` is `s0` with the items of `(f, p]` moved one place left, onto place
/// `f`, and `x` in place `p`.
pub open spec fn seq_moved_left<T>(s0: Seq<T>, s1: Seq<T>, f: int, p: int, x: T) -> bool {
    &&& s1.len() == s0.len()
    &&& s1[p] == x
    &&& forall|i: int| f <= i < p ==> #[trigger] s1[i] == s0[i + 1]
    &&& forall|i: int| 0 <= i < s0.len() && (i < f || i > p) ==> #[trigger] s1[i] == s0[i]
}

/// A copy of `[s, c)` one place right, then `x` written in place `s`, moves
/// the items right.
proof fn lemma_copied_right<T>(s0: Seq<T>, s1: Seq<T>, s: int, c: int, x: T)
    requires
        0 <= s <= c < s0.len(),
        s1.len() == s0.len(),
        copied_within(s0, s1.update(s, s0[s]), s, c, s + 1),
        s1[s] == x,
    ensures
        seq_moved_right(s0, s1, s, c, x),
{
    assert forall|i: int| s < i <= c implies #[trigger] s1[i] == s0[i - 1] by {
        assert(s1.update(s, s0[s])[i] == s1[i]);
    }
    assert forall|i: int| 0 <= i < s0.len() && (i < s || i > c) implies #[trigger] s1[i] == s0[i] by {
        assert(s1.update(s, s0[s])[i] == s1[i]);
    }
}

/// A copy of `(f, p]` one place left, then `x` written in place `p`, moves
/// the items left.
proof fn lemma_copied_left<T>(s0: Seq<T>, s1: Seq<T>, f: int, p: int, x: T)
    requires
        0 <= f <= p < s0.len(),
        s1.len() == s0.len(),
        copied_within(s0, s1.update(p, s0[p]), f + 1, p + 1, f),
        s1[p] == x,
    ensures
        seq_moved_left(s0, s1, f, p, x),
{
    assert forall|i: int| f <= i < p implies #[trigger] s1[i] == s0[i + 1] by {
        assert(s1.update(p, s0[p])[i] == s1[i]);
    }
    assert forall|i: int| 0 <= i < s0.len() && (i < f || i > p) implies #[trigger] s1[i] == s0[i] by {
        assert(s1.update(p, s0[p])[i] == s1[i]);
    }
}

/// `t` is a value that `T::default()` returns.
pub open spec fn is_default<T: Default>(t: T) -> bool {
    call_ensures(T::default, (), t)
}

/// How many of `avail` entries on one side a trim of radius `radius` removes:
/// the radius, or all of them when there are fewer.
pub open spec fn trim_count(avail: nat, radius: u32) -> nat {
    if avail < radius as nat { avail } else { radius as nat }
}

/// Helper struct to implement a gapped array to act as the base of data nodes.
pub struct GappedKVArray<K, V> {
    pub bitmap: Vec<bool>,
    pub keys: Vec<K>,
    pub vals: Vec<V>,
    /// The number of entries: under `counted`, the number of occupied slots.
    pub size: u32,
}

impl<K: StaticBounded + Default, V: Copy + Default> GappedKVArray<K, V> {
    /// The bitmap of occupied slots.
    pub open spec fn bits(&self) -> Seq<bool> {
        self.bitmap@
    }

    /// The keys of the slots (meaningful where a slot is occupied).
    pub open spec fn key_view(&self) -> Seq<K> {
        self.keys@
    }

    /// The values of the slots (meaningful where a slot is occupied).
    pub open spec fn val_view(&self) -> Seq<V> {
        self.vals@
    }

    /// The three arrays have the same length.
    pub open spec fn wf(&self) -> bool {
        &&& self.bits().len() == self.key_view().len()
        &&& self.key_view().len() == self.val_view().len()
    }

    /// The number of slots, free or not.
    pub open spec fn slots(&self) -> nat {
        self.bits().len()
    }

    /// Slot `i` holds an entry.
    pub open spec fn occ(&self, i: int) -> bool {
        seq_occ(self.bits(), i)
    }

    /// The integer of the key in slot `i`.
    pub open spec fn key_at(&self, i: int) -> int {
        self.key_view()[i].key_int()
    }

    /// The entries' keys increase from left to right.
    pub open spec fn sorted(&self) -> bool {
        seq_sorted(self.bits(), self.key_view())
    }

    /// Some entry has key `k` and value `v`.
    pub open spec fn maps_to(&self, k: int, v: V) -> bool {
        seq_maps_to(self.bits(), self.key_view(), self.val_view(), k, v)
    }

    /// Some entry has key `k`.
    pub open spec fn has_key(&self, k: int) -> bool {
        seq_has_key(self.bits(), self.key_view(), k)
    }

    /// `r` is what an exact search for key `k` in a sorted array gives: a
    /// value of the key when it is there, nothing otherwise.
    pub open spec fn search_gives(&self, k: int, r: Option<V>) -> bool {
        &&& (r matches Some(w) ==> self.maps_to(k, w))
        &&& (r is Some <==> self.has_key(k))
    }

    /// A counted array has no free slot exactly when it counts as many
    /// entries as it has slots.
    pub proof fn lemma_counted_full(&self)
        requires
            self.counted(),
        ensures
            self.no_free_slot() <==> self.size_spec() == self.slots(),
    {
        lemma_occ_count_full(self.bits(), 0, self.slots() as int);
    }

    /// After an upsert of key `k` with value `v`, `k` is there with `v`, and
    /// any other key is there exactly when it was before.
    pub proof fn lemma_upsert_keys(before: Self, after: Self, k: int, v: V)
        requires
            forall|kk: int, vv: V| after.maps_to(kk, vv) <==> (if kk == k { vv == v } else { before.maps_to(kk, vv) }),
        ensures
            after.maps_to(k, v),
            after.has_key(k),
            forall|kk: int| kk != k ==> (after.has_key(kk) <==> before.has_key(kk)),
    {
        after.lemma_has_key_maps(k);
        assert(after.maps_to(k, v));
        assert forall|kk: int| kk != k implies (after.has_key(kk) <==> before.has_key(kk)) by {
            after.lemma_has_key_maps(kk);
            before.lemma_has_key_maps(kk);
            if after.has_key(kk) {
                let w = choose|w: V| #[trigger] after.maps_to(kk, w);
                assert(before.maps_to(kk, w));
            }
            if before.has_key(kk) {
                let w = choose|w: V| #[trigger] before.maps_to(kk, w);
                assert(after.maps_to(kk, w));
            }
        }
    }

    /// A key is there exactly when it maps to some value.
    pub proof fn lemma_has_key_maps(&self, k: int)
        ensures
            self.has_key(k) <==> exists|w: V| #[trigger] self.maps_to(k, w),
    {
        if self.has_key(k) {
            let i = choose|i: int| seq_occ(self.bitmap@, i) && self.keys@[i].key_int() == k;
            assert(self.maps_to(k, self.vals@[i]));
        }
        if exists|w: V| #[trigger] self.maps_to(k, w) {
            let w = choose|w: V| #[trigger] self.maps_to(k, w);
            let i = choose|i: int| seq_occ(self.bitmap@, i) && self.keys@[i].key_int() == k && self.vals@[i] == w;
        }
    }

    /// After an upsert of key `k` with value `v` that succeeded, an exact
    /// search for `k` finds `v`, and one for any other key finds what it found
    /// before.
    pub proof fn lemma_upsert_then_search(before: Self, after: Self, k: int, v: V, other: int, r: Option<V>)
        requires
            forall|kk: int, vv: V| after.maps_to(kk, vv) <==> (if kk == k { vv == v } else { before.maps_to(kk, vv) }),
        ensures
            after.search_gives(k, r) ==> r == Some(v),
            other != k ==> (after.search_gives(other, r) <==> before.search_gives(other, r)),
    {
        after.lemma_has_key_maps(k);
        after.lemma_has_key_maps(other);
        before.lemma_has_key_maps(other);
        assert(after.maps_to(k, v));
        if other != k {
            assert forall|w: V| #[trigger] after.maps_to(other, w) <==> before.maps_to(other, w) by {}
            if after.has_key(other) {
                let w = choose|w: V| #[trigger] after.maps_to(other, w);
                assert(before.maps_to(other, w));
            }
            if before.has_key(other) {
                let w = choose|w: V| #[trigger] before.maps_to(other, w);
                assert(after.maps_to(other, w));
            }
            assert(after.has_key(other) == before.has_key(other));
        }
    }

    /// In a sorted array a key maps to at most one value.
    pub proof fn lemma_maps_to_unique(&self, k: int, v1: V, v2: V)
        requires
            self.sorted(),
            self.maps_to(k, v1),
            self.maps_to(k, v2),
        ensures
            v1 == v2,
    {
        let i = choose|i: int| seq_occ(self.bitmap@, i) && self.keys@[i].key_int() == k && self.vals@[i] == v1;
        let j = choose|j: int| seq_occ(self.bitmap@, j) && self.keys@[j].key_int() == k && self.vals@[j] == v2;
        lemma_sorted_key_unique(self.bitmap@, self.keys@, i, j);
    }

    /// The hint of a search only helps its speed: in a sorted array, two exact
    /// searches for one key give the same result, whatever their hints.
    pub proof fn lemma_search_hint_free(&self, k: int, r1: Option<V>, r2: Option<V>)
        requires
            self.sorted(),
            self.search_gives(k, r1),
            self.search_gives(k, r2),
        ensures
            r1 == r2,
    {
        if let (Some(v1), Some(v2)) = (r1, r2) {
            self.lemma_maps_to_unique(k, v1, v2);
        }
    }

    /// Every slot holds an entry.
    pub open spec fn no_free_slot(&self) -> bool {
        forall|i: int| 0 <= i < self.slots() ==> self.bits()[i]
    }

    /// The entry counter kept by the array.
    pub open spec fn size_spec(&self) -> u32 {
        self.size
    }

    /// The entry counter equals the number of occupied slots.
    pub open spec fn counted(&self) -> bool {
        self.size_spec() as int == occ_count(self.bits(), 0, self.slots() as int)
    }

    /// Every entry after slot `c` up to the first one has a key above `needle`:
    /// the first occupied slot after `c`, if any, holds a key above `needle`.
    pub open spec fn next_above(&self, c: int, needle: int) -> bool {
        forall|j: int|
            c < j && #[trigger] self.occ(j) && (forall|m: int| c < m < j ==> !self.occ(m)) ==> needle < self.key_at(j)
    }

    /// `ix` is the answer of a "price is right" search for `needle`: it holds a
    /// key at most `needle`, and the next entry's key is above `needle`.
    pub open spec fn is_pir(&self, ix: int, needle: int) -> bool {
        &&& self.occ(ix)
        &&& self.key_at(ix) <= needle
        &&& self.next_above(ix, needle)
    }

    /// No "price is right" answer: the first entry, if any, is above `needle`.
    pub open spec fn no_pir(&self, needle: int) -> bool {
        self.next_above(-1, needle)
    }

    /// Creates an empty gapped array with the given number of slots.
    pub fn new(size: usize) -> (r: Self)
        ensures
            r.wf(),
            r.slots() == size,
            forall|i: int| 0 <= i < size ==> !r.bits()[i],
            r.size_spec() == 0,
            r.counted(),
            r.sorted(),
            forall|k: int| !r.has_key(k),
    {
        let bitmap_vec = vec![false; size];
        let keys_vec = vec![K::default(); size];
        let vals_vec = vec![V::default(); size];
        let r = Self { bitmap: bitmap_vec, keys: keys_vec, vals: vals_vec, size: 0 };
        proof {
            lemma_occ_count_none(r.bitmap@, 0, size as int);
        }
        r
    }

    /// The length of the gapped array (including gaps).
    pub fn len(&self) -> (r: usize)
        requires
            self.wf(),
        ensures
            r == self.slots(),
    {
        self.bitmap.len()
    }

    /// The number of entries that the array counts.
    pub fn size(&self) -> (r: u32)
        ensures
            r == self.size_spec(),
            self.counted() ==> r == occ_count(self.bits(), 0, self.slots() as int),
    {
        self.size
    }

    /// Is the gapped array full?
    pub fn is_full(&self) -> (r: bool)
        requires
            self.wf(),
        ensures
            r == (self.slots() <= self.size_spec()),
            self.counted() ==> (r <==> self.no_free_slot()),
    {
        proof {
            lemma_occ_count_full(self.bitmap@, 0, self.bitmap@.len() as int);
        }
        self.len() <= self.size() as usize
    }

    /// Helper function to implement next occupied and next free.
    fn next_ix_helper(&self, ix: usize, val: bool) -> (r: Option<usize>)
        requires
            self.wf(),
        ensures
            match r {
                Some(j) => {
                    &&& ix <= j < self.slots()
                    &&& self.bits()[j as int] == val
                    &&& forall|m: int| ix <= m < j ==> self.bits()[m] != val
                },
                None => forall|m: int| ix <= m < self.slots() ==> self.bits()[m] != val,
            },
    {
        let mut cur = ix;
        let n = self.len();
        while cur < n && self.bitmap[cur] != val
            invariant
                self.wf(),
                n == self.slots(),
                ix <= cur,
                forall|m: int| ix <= m < cur ==> self.bits()[m] != val,
            decreases n - cur,
        {
            cur += 1;
        }
        if cur < n {
            Some(cur)
        } else {
            None
        }
    }

    /// Returns the next occupied slot in the range [ix, end].
    pub fn next_occupied_ix(&self, ix: usize) -> (r: Option<usize>)
        requires
            self.wf(),
        ensures
            match r {
                Some(j) => {
                    &&& ix <= j
                    &&& self.occ(j as int)
                    &&& forall|m: int| ix <= m < j ==> !self.occ(m)
                },
                None => forall|m: int| ix <= m ==> !self.occ(m),
            },
    {
        let r = self.next_ix_helper(ix, true);
        proof {
            if r is None {
                assert forall|m: int| ix <= m implies !self.occ(m) by {
                    if m < self.slots() {
                        assert(self.bits()[m] != true);
                    }
                }
            }
        }
        r
    }

    /// Returns the next free slot in the range [ix, end].
    pub fn next_free_ix(&self, ix: usize) -> (r: Option<usize>)
        requires
            self.wf(),
        ensures
            match r {
                Some(j) => {
                    &&& ix <= j < self.slots()
                    &&& !self.bits()[j as int]
                    &&& forall|m: int| ix <= m < j ==> self.occ(m)
                },
                None => forall|m: int| ix <= m < self.slots() ==> self.occ(m),
            },
    {
        let r = self.next_ix_helper(ix, false);
        proof {
            if r is None {
                assert forall|m: int| ix <= m < self.slots() implies self.occ(m) by {
                    assert(self.bits()[m] != false);
                }
            }
        }
        r
    }

    /// Helper function to implement prev occupied and prev free.
    fn prev_ix_helper(&self, ix: usize, val: bool) -> (r: Option<usize>)
        requires
            self.wf(),
            ix < self.slots(),
        ensures
            match r {
                Some(j) => {
                    &&& j <= ix
                    &&& self.bits()[j as int] == val
                    &&& forall|m: int| j < m <= ix ==> self.bits()[m] != val
                },
                None => forall|m: int| 0 <= m <= ix ==> self.bits()[m] != val,
            },
    {
        let mut cur = ix;
        loop
            invariant
                self.wf(),
                cur <= ix < self.slots(),
                forall|m: int| cur < m <= ix ==> self.bits()[m] != val,
            decreases cur,
        {
            if self.bitmap[cur] == val {
                return Some(cur);
            }
            if cur == 0 {
                return None;
            }
            cur -= 1;
        }
    }

    /// Returns the previous occupied slot in the range [start, ix].
    fn prev_occupied_ix(&self, ix: usize) -> (r: Option<usize>)
        requires
            self.wf(),
            ix < self.slots(),
        ensures
            match r {
                Some(j) => {
                    &&& j <= ix
                    &&& self.occ(j as int)
                    &&& forall|m: int| j < m <= ix ==> !self.occ(m)
                },
                None => forall|m: int| m <= ix ==> !self.occ(m),
            },
    {
        let r = self.prev_ix_helper(ix, true);
        proof {
            if r is None {
                assert forall|m: int| m <= ix implies !self.occ(m) by {
                    if 0 <= m {
                        assert(self.bits()[m] != true);
                    }
                }
            }
        }
        r
    }

    /// Returns the previous free slot in the range [start, ix].
    fn prev_free_ix(&self, ix: usize) -> (r: Option<usize>)
        requires
            self.wf(),
            ix < self.slots(),
        ensures
            match r {
                Some(j) => {
                    &&& j <= ix
                    &&& !self.bits()[j as int]
                    &&& forall|m: int| j < m <= ix ==> self.occ(m)
                },
                None => forall|m: int| 0 <= m <= ix ==> self.occ(m),
            },
    {
        let r = self.prev_ix_helper(ix, false);
        proof {
            if r is None {
                assert forall|m: int| 0 <= m <= ix implies self.occ(m) by {
                    assert(self.bits()[m] != false);
                }
            }
        }
        r
    }

    /// `ix` holds the largest key at most `needle`: every entry after it is above
    /// `needle`.
    pub open spec fn is_floor(&self, ix: int, needle: int) -> bool {
        &&& self.occ(ix)
        &&& self.key_at(ix) <= needle
        &&& forall|j: int| ix < j && #[trigger] self.occ(j) ==> needle < self.key_at(j)
    }

    /// The hint of a "price is right" search only helps its speed: in a sorted
    /// array at most one slot is the floor of `needle`.
    pub proof fn lemma_floor_unique(&self, ix1: int, ix2: int, needle: int)
        requires
            self.sorted(),
            self.is_floor(ix1, needle),
            self.is_floor(ix2, needle),
        ensures
            ix1 == ix2,
    {
        if ix1 < ix2 {
            assert(needle < self.key_at(ix2));
        } else if ix2 < ix1 {
            assert(needle < self.key_at(ix1));
        }
    }

    /// Every entry is above `needle`.
    pub open spec fn all_above(&self, needle: int) -> bool {
        forall|j: int| #[trigger] self.occ(j) ==> needle < self.key_at(j)
    }

    /// `r` is what a "price is right" search for `needle` in a sorted array
    /// gives: the value of the floor slot of `needle`, or nothing when every
    /// key is above `needle`.
    pub open spec fn pir_gives(&self, needle: int, r: Option<V>) -> bool {
        match r {
            Some(v) => exists|ix: int| self.is_floor(ix, needle) && self.val_view()[ix] == v,
            None => self.all_above(needle),
        }
    }

    /// A floor slot of `needle` and every key being above `needle` exclude
    /// each other.
    pub proof fn lemma_floor_or_above(&self, ix: int, needle: int)
        requires
            self.is_floor(ix, needle),
        ensures
            !self.all_above(needle),
    {
        assert(self.occ(ix));
    }

    /// The hint of a "price is right" search only helps its speed: in a sorted
    /// array, two such searches for one key give the same result, whatever
    /// their hints.
    pub proof fn lemma_pir_hint_free(&self, needle: int, r1: Option<V>, r2: Option<V>)
        requires
            self.sorted(),
            self.pir_gives(needle, r1),
            self.pir_gives(needle, r2),
        ensures
            r1 == r2,
    {
        match (r1, r2) {
            (Some(v1), Some(v2)) => {
                let i1 = choose|ix: int| self.is_floor(ix, needle) && self.val_view()[ix] == v1;
                let i2 = choose|ix: int| self.is_floor(ix, needle) && self.val_view()[ix] == v2;
                self.lemma_floor_unique(i1, i2, needle);
            },
            (Some(v1), None) => {
                let i1 = choose|ix: int| self.is_floor(ix, needle) && self.val_view()[ix] == v1;
                self.lemma_floor_or_above(i1, needle);
            },
            (None, Some(v2)) => {
                let i2 = choose|ix: int| self.is_floor(ix, needle) && self.val_view()[ix] == v2;
                self.lemma_floor_or_above(i2, needle);
            },
            (None, None) => {},
        }
    }

    /// In a sorted array the "price is right" answer is the slot of the largest
    /// key at most `needle`, and no answer means every key is above `needle`.
    pub proof fn lemma_pir_sorted(&self, ix: int, needle: int)
        requires
            self.sorted(),
        ensures
            self.is_pir(ix, needle) ==> self.is_floor(ix, needle),
            self.no_pir(needle) ==> self.all_above(needle),
    {
        if self.is_pir(ix, needle) {
            assert forall|j: int| ix < j && #[trigger] self.occ(j) implies needle < self.key_at(j) by {
                self.lemma_next_above_sorted(ix, needle, j);
            }
        }
        if self.no_pir(needle) {
            assert forall|j: int| #[trigger] self.occ(j) implies needle < self.key_at(j) by {
                self.lemma_next_above_sorted(-1, needle, j);
            }
        }
    }

    /// In a sorted array, if the first entry after `c` is above `needle`, so is
    /// every entry after `c`.
    proof fn lemma_next_above_sorted(&self, c: int, needle: int, j: int)
        requires
            self.sorted(),
            self.next_above(c, needle),
            c < j,
            self.occ(j),
        ensures
            needle < self.key_at(j),
    {
        let n = lemma_first_occ_after(self.bits(), c, j);
        assert(self.occ(n));
        assert(forall|m: int| c < m < n ==> !self.occ(m));
        assert(needle < self.key_at(n));
        if n < j {
            assert(self.key_at(n) < self.key_at(j));
        }
    }

    /// Search the gapped array for a specific value, returning the price is right:
    /// the value of the largest key at most `needle`.
    pub fn search_pir(&self, needle: &K, hint: Option<usize>) -> (r: Option<&V>)
        requires
            self.wf(),
            self.slots() > 0,
        ensures
            r matches Some(v) ==> exists|ix: int| self.is_pir(ix, needle.key_int()) && self.val_view()[ix] == *v,
            r is None ==> self.no_pir(needle.key_int()),
            self.sorted() ==> match r {
                Some(v) => self.pir_gives(needle.key_int(), Some(*v)),
                None => self.pir_gives(needle.key_int(), None),
            },
    {
        match self.price_is_right(needle, hint) {
            Some(ix) => {
                proof {
                    if self.sorted() {
                        self.lemma_pir_sorted(ix as int, needle.key_int());
                        assert(self.is_floor(ix as int, needle.key_int()) && self.val_view()[ix as int] == self.vals@[ix as int]);
                    }
                    assert(self.is_pir(ix as int, needle.key_int()) && self.val_view()[ix as int] == self.vals@[ix as int]);
                }
                Some(&self.vals[ix])
            },
            None => {
                proof {
                    if self.sorted() {
                        self.lemma_pir_sorted(0, needle.key_int());
                        if self.has_key(needle.key_int()) {
                            let i = choose|i: int| seq_occ(self.bits(), i) && self.key_view()[i].key_int() == needle.key_int();
                            assert(self.occ(i));
                        }
                    }
                }
                None
            },
        }
    }

    /// Search the gapped array for a specific key, using a starting hint.
    /// In a sorted array, finds the key exactly when it is there.
    pub fn search_exact(&self, needle: &K, hint: Option<usize>) -> (r: Option<&V>)
        requires
            self.wf(),
            self.slots() > 0,
        ensures
            r matches Some(v) ==> self.maps_to(needle.key_int(), *v),
            self.sorted() ==> (r is Some <==> self.has_key(needle.key_int())),
    {
        match self.price_is_right(needle, hint) {
            Some(ix) => {
                if self.keys[ix].key_eq(needle) {
                    proof {
                        assert(seq_occ(self.bits(), ix as int) && self.key_view()[ix as int].key_int() == needle.key_int()
                            && self.val_view()[ix as int] == self.vals@[ix as int]);
                        assert(self.has_key(needle.key_int()));
                    }
                    Some(&self.vals[ix])
                } else {
                    proof {
                        if self.sorted() {
                            self.lemma_pir_sorted(ix as int, needle.key_int());
                            assert forall|j: int| self.occ(j) implies self.key_at(j) != needle.key_int() by {
                                if j < ix {
                                    assert(self.key_at(j) < self.key_at(ix as int));
                                } else if j > ix {
                                    assert(needle.key_int() < self.key_at(j));
                                }
                            }
                            if self.has_key(needle.key_int()) {
                                let i = choose|i: int| seq_occ(self.bits(), i) && self.key_view()[i].key_int() == needle.key_int();
                                assert(self.occ(i));
                            }
                        }
                    }
                    None
                }
            },
            None => {
                proof {
                    if self.sorted() {
                        self.lemma_pir_sorted(0, needle.key_int());
                        if self.has_key(needle.key_int()) {
                            let i = choose|i: int| seq_occ(self.bits(), i) && self.key_view()[i].key_int() == needle.key_int();
                            assert(self.occ(i));
                        }
                    }
                }
                None
            },
        }
    }

    /// Helper function to copy within for all the needed arrays.
    fn copy_within(&mut self, src: std::ops::Range<usize>, dest: usize)
        requires
            old(self).wf(),
            src.start <= src.end <= old(self).slots(),
            dest + (src.end - src.start) <= old(self).slots(),
        ensures
            final(self).wf(),
            final(self).size == old(self).size,
            copied_within(old(self).bitmap@, final(self).bitmap@, src.start as int, src.end as int, dest as int),
            copied_within(old(self).keys@, final(self).keys@, src.start as int, src.end as int, dest as int),
            copied_within(old(self).vals@, final(self).vals@, src.start as int, src.end as int, dest as int),
    {
        copy_within_vec(&mut self.bitmap, src.start, src.end, dest);
        copy_within_vec(&mut self.keys, src.start, src.end, dest);
        copy_within_vec(&mut self.vals, src.start, src.end, dest);
    }

    /// Helper function to upsert an entry into a given location.
    fn upsert_at(&mut self, pair: (K, V), ix: usize)
        requires
            old(self).wf(),
            ix < old(self).slots(),
            !old(self).bitmap@[ix as int] ==> old(self).size < u32::MAX,
        ensures
            final(self).wf(),
            final(self).bitmap@ == old(self).bitmap@.update(ix as int, true),
            final(self).keys@ == old(self).keys@.update(ix as int, pair.0),
            final(self).vals@ == old(self).vals@.update(ix as int, pair.1),
            final(self).size == old(self).size + (if old(self).bitmap@[ix as int] { 0int } else { 1int }),
    {
        if !self.bitmap[ix] {
            // Inserting a new element
            self.size += 1;
        }
        self.bitmap[ix] = true;
        self.keys[ix] = pair.0;
        self.vals[ix] = pair.1;
    }

    /// Helper function to remove an entry in a given location.
    fn remove_at(&mut self, ix: usize) -> (r: Result<(K, V), String>)
        requires
            old(self).wf(),
            ix < old(self).slots(),
            old(self).bitmap@[ix as int] ==> old(self).size > 0,
        ensures
            final(self).wf(),
            match r {
                Ok((k, v)) => {
                    &&& old(self).bitmap@[ix as int]
                    &&& k == old(self).keys@[ix as int]
                    &&& v == old(self).vals@[ix as int]
                    &&& final(self).bitmap@ == old(self).bitmap@.update(ix as int, false)
                    &&& final(self).keys@ == old(self).keys@.update(ix as int, final(self).keys@[ix as int])
                    &&& final(self).vals@ == old(self).vals@.update(ix as int, final(self).vals@[ix as int])
                    &&& final(self).size == old(self).size - 1
                    &&& is_default(final(self).keys@[ix as int])
                    &&& is_default(final(self).vals@[ix as int])
                },
                Err(_) => !old(self).bitmap@[ix as int] && *final(self) == *old(self),
            },
    {
        if !self.bitmap[ix] {
            Err("No such element exists for remove_at".to_string())
        } else {
            let key = self.keys[ix];
            let val = self.vals[ix];
            self.keys[ix] = K::default();
            self.vals[ix] = V::default();
            self.bitmap[ix] = false;
            self.size -= 1;
            Ok((key, val))
        }
    }

    /// No entry holds `key` when the floor slot of `key` holds another key or
    /// when every entry is above `key`.
    proof fn lemma_absent_key(&self, ix: int, key: int)
        requires
            self.sorted(),
            (self.is_floor(ix, key) && self.key_at(ix) != key) || self.all_above(key),
        ensures
            !self.has_key(key),
    {
        if self.has_key(key) {
            let i = choose|i: int| seq_occ(self.bits(), i) && self.key_view()[i].key_int() == key;
            assert(self.occ(i));
            if self.is_floor(ix, key) && self.key_at(ix) != key {
                if i < ix {
                    assert(self.key_at(i) < self.key_at(ix));
                }
            }
        }
    }

    /// `c` is the first free slot at or after slot `a`.
    pub open spec fn first_free_from(s: &Self, a: int, c: int) -> bool {
        &&& a <= c < s.slots()
        &&& !s.bits()[c]
        &&& forall|m: int| a <= m < c ==> s.occ(m)
    }

    /// `c` is the last free slot at or before slot `b`.
    pub open spec fn last_free_upto(s: &Self, c: int, b: int) -> bool {
        &&& 0 <= c <= b
        &&& !s.bits()[c]
        &&& forall|m: int| c < m <= b ==> s.occ(m)
    }

    /// `new` is `old` with the slots `[s, c)` moved one slot right, onto the
    /// free slot `c`, and `pair` stored in slot `s`.
    pub open spec fn moved_right(old: &Self, new: &Self, s: int, c: int, pair: (K, V)) -> bool {
        &&& seq_moved_right(old.bits(), new.bits(), s, c, true)
        &&& seq_moved_right(old.key_view(), new.key_view(), s, c, pair.0)
        &&& seq_moved_right(old.val_view(), new.val_view(), s, c, pair.1)
    }

    /// `new` is `old` with the slots `(f, p]` moved one slot left, onto the
    /// free slot `f`, and `pair` stored in slot `p`.
    pub open spec fn moved_left(old: &Self, new: &Self, f: int, p: int, pair: (K, V)) -> bool {
        &&& seq_moved_left(old.bits(), new.bits(), f, p, true)
        &&& seq_moved_left(old.key_view(), new.key_view(), f, p, pair.0)
        &&& seq_moved_left(old.val_view(), new.val_view(), f, p, pair.1)
    }

    /// A copy of `[s, c)` one slot right and `pair` written in slot `s`.
    spec fn copied_right(old: &Self, new: &Self, s: int, c: int, pair: (K, V)) -> bool {
        &&& copied_within(old.bits(), new.bits().update(s, old.bits()[s]), s, c, s + 1)
        &&& copied_within(old.key_view(), new.key_view().update(s, old.key_view()[s]), s, c, s + 1)
        &&& copied_within(old.val_view(), new.val_view().update(s, old.val_view()[s]), s, c, s + 1)
        &&& new.bits()[s]
        &&& new.key_view()[s] == pair.0
        &&& new.val_view()[s] == pair.1
    }

    /// A copy of `(f, p]` one slot left and `pair` written in slot `p`.
    spec fn copied_left(old: &Self, new: &Self, f: int, p: int, pair: (K, V)) -> bool {
        &&& copied_within(old.bits(), new.bits().update(p, old.bits()[p]), f + 1, p + 1, f)
        &&& copied_within(old.key_view(), new.key_view().update(p, old.key_view()[p]), f + 1, p + 1, f)
        &&& copied_within(old.val_view(), new.val_view().update(p, old.val_view()[p]), f + 1, p + 1, f)
        &&& new.bits()[p]
        &&& new.key_view()[p] == pair.0
        &&& new.val_view()[p] == pair.1
    }

    proof fn lemma_moved_right(old: &Self, new: &Self, s: int, c: int, pair: (K, V))
        requires
            old.wf(),
            new.wf(),
            new.slots() == old.slots(),
            0 <= s <= c < old.slots(),
            Self::copied_right(old, new, s, c, pair),
        ensures
            Self::moved_right(old, new, s, c, pair),
    {
        lemma_copied_right(old.bits(), new.bits(), s, c, true);
        lemma_copied_right(old.key_view(), new.key_view(), s, c, pair.0);
        lemma_copied_right(old.val_view(), new.val_view(), s, c, pair.1);
    }

    proof fn lemma_moved_left(old: &Self, new: &Self, f: int, p: int, pair: (K, V))
        requires
            old.wf(),
            new.wf(),
            new.slots() == old.slots(),
            0 <= f <= p < old.slots(),
            Self::copied_left(old, new, f, p, pair),
        ensures
            Self::moved_left(old, new, f, p, pair),
    {
        lemma_copied_left(old.bits(), new.bits(), f, p, true);
        lemma_copied_left(old.key_view(), new.key_view(), f, p, pair.0);
        lemma_copied_left(old.val_view(), new.val_view(), f, p, pair.1);
    }

    /// Where an upsert puts a new key whose floor entry is in slot `f`: in the
    /// last slot, after moving the entries after the last free slot one slot
    /// left, when `f` is the last slot; else in slot `f + 1` when it is free;
    /// else next to the floor after moving entries one slot towards the
    /// nearest free slot, the one on the left when it is strictly nearer.
    pub open spec fn placed_after_floor(old: &Self, new: &Self, f: int, pair: (K, V)) -> bool {
        let n = old.slots() as int;
        if f == n - 1 {
            exists|c: int| Self::last_free_upto(old, c, f) && Self::moved_left(old, new, c, f, pair)
        } else if !old.bits()[f + 1] {
            &&& new.bits() == old.bits().update(f + 1, true)
            &&& new.key_view() == old.key_view().update(f + 1, pair.0)
            &&& new.val_view() == old.val_view().update(f + 1, pair.1)
        } else {
            ||| exists|l: int|
                #![trigger Self::last_free_upto(old, l, f)]
                Self::last_free_upto(old, l, f) && (forall|r: int| #[trigger] Self::first_free_from(old, f + 2, r) ==> f + 1 - l < r - (f
                    + 1)) && Self::moved_left(old, new, l, f, pair)
            ||| exists|r: int|
                #![trigger Self::first_free_from(old, f + 2, r)]
                Self::first_free_from(old, f + 2, r) && (forall|l: int| #[trigger] Self::last_free_upto(old, l, f) ==> !(f + 1 - l < r
                    - (f + 1))) && Self::moved_right(old, new, f + 1, r, pair)
        }
    }

    /// Where an upsert puts a new key: at the front, after moving the entries
    /// before the first free slot one slot right, when every key is above it;
    /// else next to its floor entry.
    pub open spec fn upsert_placed(old: &Self, new: &Self, pair: (K, V)) -> bool {
        let k = pair.0.key_int();
        ||| old.all_above(k) && exists|c: int| Self::first_free_from(old, 0, c) && Self::moved_right(old, new, 0, c, pair)
        ||| exists|f: int| old.is_floor(f, k) && Self::placed_after_floor(old, new, f, pair)
    }

    /// The key counter after an upsert of `key`: unchanged for an update, one
    /// more for a new key.
    pub open spec fn size_after_upsert(&self, key: int) -> int {
        if self.has_key(key) {
            self.size_spec() as int
        } else {
            self.size_spec() + 1
        }
    }

    /// Upsert a specific value into the array with the given hint: the key then
    /// maps to the value, every other key as before, and the keys stay sorted.
    /// Fails, changing nothing, when the key is new and no slot is free.
    #[verifier::rlimit(60)]
    pub fn upsert_with_hint(&mut self, pair: (K, V), hint: usize) -> (r: Result<(), String>)
        requires
            old(self).wf(),
            old(self).sorted(),
            old(self).slots() > 0,
            old(self).size_spec() < u32::MAX,
            old(self).counted(),
        ensures
            final(self).wf(),
            final(self).slots() == old(self).slots(),
            final(self).sorted(),
            final(self).counted(),
            r is Ok <==> (old(self).has_key(pair.0.key_int()) || !old(self).no_free_slot()),
            r is Err ==> *final(self) == *old(self),
            r is Ok ==> forall|kk: int, vv: V|
                final(self).maps_to(kk, vv) <==> (if kk == pair.0.key_int() { vv == pair.1 } else { old(self).maps_to(kk, vv) }),
            r is Ok ==> final(self).size_spec() == old(self).size_after_upsert(pair.0.key_int()),
            r is Ok ==> final(self).maps_to(pair.0.key_int(), pair.1),
            old(self).has_key(pair.0.key_int()) ==> final(self).bits() == old(self).bits() && final(self).key_view()
                == old(self).key_view(),
            old(self).has_key(pair.0.key_int()) ==> exists|i: int|
                old(self).occ(i) && old(self).key_at(i) == pair.0.key_int() && final(self).val_view() == old(
                    self,
                ).val_view().update(i, pair.1),
            r is Ok && !old(self).has_key(pair.0.key_int()) ==> Self::upsert_placed(old(self), final(self), pair),
            r matches Err(m) ==> m@ == "Gapped array is full (beginning)"@ || m@ == "Gapped array is full (end)"@ || m@
                == "Gapped array is full (_)"@,
    {
        let ghost b0 = self.bitmap@;
        let ghost k0 = self.keys@;
        let ghost v0 = self.vals@;
        let ghost key = pair.0.key_int();
        let n = self.len();
        let maybe_ix = self.price_is_right(&pair.0, Some(hint));
        match maybe_ix {
            None => {
                proof {
                    self.lemma_pir_sorted(0, key);
                    self.lemma_absent_key(0, key);
                }
                // Edge case where upserting at the beginning
                let closest = self.next_free_ix(0);
                match closest {
                    None => {
                        proof {
                            assert forall|i: int| 0 <= i < old(self).slots() implies old(self).bitmap@[i] by {
                                assert(old(self).occ(i));
                            }
                            assert(old(self).no_free_slot());
                            assert(!old(self).has_key(key));
                        }
                        return Err("Gapped array is full (beginning)".to_string());
                    },
                    Some(c) => {
                        self.copy_within(0..c, 1);
                        let ghost after = *self;
                        self.bitmap.set(0, false);  // So size is updated correctly
                        let ghost mid = self.bitmap@;
                        self.upsert_at(pair, 0);
                        proof {
                            assert(Self::copied_right(old(self), self, 0, c as int, pair)) by {
                                assert(self.bitmap@.update(0, b0[0]) =~= after.bitmap@);
                                assert(self.keys@.update(0, k0[0]) =~= after.keys@);
                                assert(self.vals@.update(0, v0[0]) =~= after.vals@);
                            }
                            Self::lemma_moved_right(old(self), self, 0, c as int, pair);
                            assert(Self::first_free_from(old(self), 0, c as int));
                            assert(old(self).all_above(key)) by {
                                old(self).lemma_pir_sorted(0, key);
                            }
                            lemma_occ_count_move_right(b0, mid, 0, c as int);
                            lemma_occ_count_update(mid, 0, true);
                            let sigma = |i: int| if i < c { i + 1 } else { i };
                            assert forall|i: int|
                                #![trigger sigma(i)]
                                seq_occ(b0, i) && k0[i].key_int() != key implies {
                                    &&& seq_occ(self.bitmap@, sigma(i))
                                    &&& self.keys@[sigma(i)] == k0[i]
                                    &&& self.vals@[sigma(i)] == v0[i]
                                    &&& (k0[i].key_int() < key ==> sigma(i) < 0)
                                    &&& (k0[i].key_int() > key ==> sigma(i) > 0)
                                } by {
                                assert(old(self).occ(i));
                                assert(i != c);
                            }
                            assert forall|j: int| seq_occ(self.bitmap@, j) && j != 0 implies exists|i: int|
                                #![trigger sigma(i)]
                                seq_occ(b0, i) && k0[i].key_int() != key && sigma(i) == j by {
                                if j <= c {
                                    assert(old(self).occ(j - 1));
                                    assert(sigma(j - 1) == j);
                                } else {
                                    assert(old(self).occ(j));
                                    assert(sigma(j) == j);
                                }
                            }
                            lemma_relocate(b0, k0, v0, self.bitmap@, self.keys@, self.vals@, sigma, 0, key, pair.1);
                        }
                        Ok(())
                    },
                }
            },
            Some(ix) => {
                proof {
                    self.lemma_pir_sorted(ix as int, key);
                }
                if self.keys[ix].key_eq(&pair.0) {
                    // If this is an update handle it quickly and return
                    self.upsert_at(pair, ix);
                    proof {
                        assert(self.bitmap@ =~= b0);
                        K::lemma_key_injective(k0[ix as int], pair.0);
                        assert(self.keys@ =~= k0);
                        assert(old(self).has_key(key)) by {
                            assert(seq_occ(b0, ix as int) && k0[ix as int].key_int() == key);
                        }
                        let sigma = |i: int| i;
                        assert forall|i: int|
                            #![trigger sigma(i)]
                            seq_occ(b0, i) && k0[i].key_int() != key implies {
                                &&& seq_occ(self.bitmap@, sigma(i))
                                &&& self.keys@[sigma(i)] == k0[i]
                                &&& self.vals@[sigma(i)] == v0[i]
                                &&& (k0[i].key_int() < key ==> sigma(i) < ix)
                                &&& (k0[i].key_int() > key ==> sigma(i) > ix)
                            } by {
                            assert(old(self).occ(i));
                            if i < ix {
                                assert(old(self).key_at(i) < old(self).key_at(ix as int));
                            } else if i > ix {
                                assert(old(self).key_at(ix as int) < old(self).key_at(i));
                            }
                        }
                        assert forall|j: int| seq_occ(self.bitmap@, j) && j != ix implies exists|i: int|
                            #![trigger sigma(i)]
                            seq_occ(b0, i) && k0[i].key_int() != key && sigma(i) == j by {
                            assert(old(self).occ(j));
                            if j < ix {
                                assert(old(self).key_at(j) < old(self).key_at(ix as int));
                            } else {
                                assert(old(self).key_at(ix as int) < old(self).key_at(j));
                            }
                            assert(sigma(j) == j);
                        }
                        lemma_relocate(b0, k0, v0, self.bitmap@, self.keys@, self.vals@, sigma, ix as int, key, pair.1);
                    }
                    return Ok(());
                }
                proof {
                    self.lemma_absent_key(ix as int, key);
                    assert(!old(self).all_above(key)) by {
                        assert(old(self).occ(ix as int));
                    }
                }
                if ix + 1 == n {
                    // Edge case where upserting at the end
                    let closest = self.prev_free_ix(n - 1);
                    match closest {
                        None => {
                            proof {
                                assert forall|i: int| 0 <= i < old(self).slots() implies old(self).bitmap@[i] by {
                                    assert(old(self).occ(i));
                                }
                            }
                            return Err("Gapped array is full (end)".to_string());
                        },
                        Some(c) => {
                            assert(c < ix);
                            self.copy_within(c + 1..n, c);
                            let ghost after = *self;
                            self.bitmap[n - 1] = false;  // So size is updated correctly
                            let ghost mid = self.bitmap@;
                            self.upsert_at(pair, n - 1);
                            proof {
                                let f = n - 1;
                                assert(Self::copied_left(old(self), self, c as int, f as int, pair)) by {
                                    assert(self.bitmap@.update(f as int, b0[f as int]) =~= after.bitmap@);
                                    assert(self.keys@.update(f as int, k0[f as int]) =~= after.keys@);
                                    assert(self.vals@.update(f as int, v0[f as int]) =~= after.vals@);
                                }
                                Self::lemma_moved_left(old(self), self, c as int, f as int, pair);
                                assert(Self::last_free_upto(old(self), c as int, f as int));
                                assert(Self::placed_after_floor(old(self), self, ix as int, pair));
                                lemma_occ_count_move_left(b0, mid, c as int, n - 1);
                                lemma_occ_count_update(mid, n - 1, true);
                                let p = n - 1;
                                let sigma = |i: int| if c < i { i - 1 } else { i };
                                assert forall|i: int|
                                    #![trigger sigma(i)]
                                    seq_occ(b0, i) && k0[i].key_int() != key implies {
                                        &&& seq_occ(self.bitmap@, sigma(i))
                                        &&& self.keys@[sigma(i)] == k0[i]
                                        &&& self.vals@[sigma(i)] == v0[i]
                                        &&& (k0[i].key_int() < key ==> sigma(i) < p)
                                        &&& (k0[i].key_int() > key ==> sigma(i) > p)
                                    } by {
                                    assert(old(self).occ(i));
                                    assert(i != c);
                                    if i < ix {
                                        assert(old(self).key_at(i) < old(self).key_at(ix as int));
                                    }
                                }
                                assert forall|j: int| seq_occ(self.bitmap@, j) && j != p implies exists|i: int|
                                    #![trigger sigma(i)]
                                    seq_occ(b0, i) && k0[i].key_int() != key && sigma(i) == j by {
                                    if c <= j {
                                        assert(old(self).occ(j + 1));
                                        assert(sigma(j + 1) == j);
                                        if j + 1 < ix {
                                            assert(old(self).key_at(j + 1) < old(self).key_at(ix as int));
                                        }
                                    } else {
                                        assert(old(self).occ(j));
                                        assert(sigma(j) == j);
                                        assert(old(self).key_at(j) < old(self).key_at(ix as int));
                                    }
                                }
                                lemma_relocate(b0, k0, v0, self.bitmap@, self.keys@, self.vals@, sigma, p, key, pair.1);
                            }
                            Ok(())
                        },
                    }
                } else {
                    // We're doing a "normal" upsert into the middle of the array
                    let ix1 = ix + 1;  // Price-is-right quirk
                    if !self.bitmap[ix1] {
                        // Easy win
                        self.upsert_at(pair, ix1);
                        proof {
                            assert(Self::placed_after_floor(old(self), self, ix as int, pair));
                            lemma_occ_count_update(b0, ix1 as int, true);
                            let sigma = |i: int| i;
                            assert forall|i: int|
                                #![trigger sigma(i)]
                                seq_occ(b0, i) && k0[i].key_int() != key implies {
                                    &&& seq_occ(self.bitmap@, sigma(i))
                                    &&& self.keys@[sigma(i)] == k0[i]
                                    &&& self.vals@[sigma(i)] == v0[i]
                                    &&& (k0[i].key_int() < key ==> sigma(i) < ix1)
                                    &&& (k0[i].key_int() > key ==> sigma(i) > ix1)
                                } by {
                                assert(old(self).occ(i));
                                assert(i != ix1);
                                if i < ix {
                                    assert(old(self).key_at(i) < old(self).key_at(ix as int));
                                }
                            }
                            assert forall|j: int| seq_occ(self.bitmap@, j) && j != ix1 implies exists|i: int|
                                #![trigger sigma(i)]
                                seq_occ(b0, i) && k0[i].key_int() != key && sigma(i) == j by {
                                assert(old(self).occ(j));
                                assert(sigma(j) == j);
                                if j < ix {
                                    assert(old(self).key_at(j) < old(self).key_at(ix as int));
                                }
                            }
                            lemma_relocate(b0, k0, v0, self.bitmap@, self.keys@, self.vals@, sigma, ix1 as int, key, pair.1);
                        }
                        return Ok(());
                    }
                    let shift_left_ix = self.prev_free_ix(ix1 - 1);
                    let shift_right_ix = self.next_free_ix(ix1 + 1);
                    let go_left = match (shift_left_ix, shift_right_ix) {
                        (Some(lix), Some(rix)) => ix1 - lix < rix - ix1,
                        (Some(_), None) => true,
                        (None, Some(_)) => false,
                        (None, None) => {
                            proof {
                                assert forall|i: int| 0 <= i < old(self).slots() implies old(self).bitmap@[i] by {
                                    if i <= ix {
                                        assert(old(self).occ(i));
                                    } else if i > ix1 {
                                        assert(old(self).occ(i));
                                    }
                                }
                            }
                            return Err("Gapped array is full (_)".to_string());
                        },
                    };
                    if go_left {
                        let lix = shift_left_ix.unwrap();
                        assert(lix < ix);
                        self.copy_within(lix + 1..ix1 + 1, lix);
                        let ghost after = *self;
                        self.bitmap[ix1 - 1] = false;  // So size is updated correctly
                        let ghost mid = self.bitmap@;
                        self.upsert_at(pair, ix1 - 1);
                        proof {
                            let f = ix as int;
                            let l = lix as int;
                            assert(Self::copied_left(old(self), self, l, f, pair)) by {
                                assert forall|i: int| 0 <= i < b0.len() implies #[trigger] self.bitmap@.update(f, b0[f])[i] == (if l
                                    <= i < l + (f + 1 - (l + 1)) {
                                    b0[l + 1 + i - l]
                                } else {
                                    b0[i]
                                }) by {
                                    if i != f {
                                        assert(self.bitmap@[i] == after.bitmap@[i]);
                                    }
                                }
                                assert forall|i: int| 0 <= i < k0.len() implies #[trigger] self.keys@.update(f, k0[f])[i] == (if l
                                    <= i < l + (f + 1 - (l + 1)) {
                                    k0[l + 1 + i - l]
                                } else {
                                    k0[i]
                                }) by {
                                    if i != f {
                                        assert(self.keys@[i] == after.keys@[i]);
                                    }
                                }
                                assert forall|i: int| 0 <= i < v0.len() implies #[trigger] self.vals@.update(f, v0[f])[i] == (if l
                                    <= i < l + (f + 1 - (l + 1)) {
                                    v0[l + 1 + i - l]
                                } else {
                                    v0[i]
                                }) by {
                                    if i != f {
                                        assert(self.vals@[i] == after.vals@[i]);
                                    }
                                }
                            }
                            Self::lemma_moved_left(old(self), self, l, f, pair);
                            assert(Self::last_free_upto(old(self), l, f));
                            assert forall|r: int| #[trigger] Self::first_free_from(old(self), f + 2, r) implies f + 1 - l < r - (f + 1) by {
                                match shift_right_ix {
                                    Some(rix) => {
                                        if rix < r {
                                            assert(old(self).occ(rix as int));
                                        } else if r < rix {
                                            assert(old(self).occ(r));
                                        }
                                    },
                                    None => {
                                        assert(old(self).occ(r));
                                    },
                                }
                            }
                            assert(Self::placed_after_floor(old(self), self, ix as int, pair));
                            lemma_occ_count_move_left(b0, mid, lix as int, ix as int);
                            lemma_occ_count_update(mid, ix as int, true);
                            let p = ix as int;
                            let sigma = |i: int| if lix < i <= ix { i - 1 } else { i };
                            assert forall|i: int|
                                #![trigger sigma(i)]
                                seq_occ(b0, i) && k0[i].key_int() != key implies {
                                    &&& seq_occ(self.bitmap@, sigma(i))
                                    &&& self.keys@[sigma(i)] == k0[i]
                                    &&& self.vals@[sigma(i)] == v0[i]
                                    &&& (k0[i].key_int() < key ==> sigma(i) < p)
                                    &&& (k0[i].key_int() > key ==> sigma(i) > p)
                                } by {
                                assert(old(self).occ(i));
                                assert(i != lix);
                                if i < ix {
                                    assert(old(self).key_at(i) < old(self).key_at(ix as int));
                                }
                            }
                            assert forall|j: int| seq_occ(self.bitmap@, j) && j != p implies exists|i: int|
                                #![trigger sigma(i)]
                                seq_occ(b0, i) && k0[i].key_int() != key && sigma(i) == j by {
                                if lix <= j < ix {
                                    assert(old(self).occ(j + 1));
                                    assert(sigma(j + 1) == j);
                                    if j + 1 < ix {
                                        assert(old(self).key_at(j + 1) < old(self).key_at(ix as int));
                                    }
                                } else {
                                    assert(old(self).occ(j));
                                    assert(sigma(j) == j);
                                    if j < ix {
                                        assert(old(self).key_at(j) < old(self).key_at(ix as int));
                                    }
                                }
                            }
                            lemma_relocate(b0, k0, v0, self.bitmap@, self.keys@, self.vals@, sigma, p, key, pair.1);
                        }
                        Ok(())
                    } else {
                        let rix = shift_right_ix.unwrap();
                        self.copy_within(ix1..rix, ix1 + 1);
                        let ghost after = *self;
                        self.bitmap[ix1] = false;  // So size is updated correctly
                        let ghost mid = self.bitmap@;
                        self.upsert_at(pair, ix1);
                        proof {
                            let f = ix as int;
                            let r = rix as int;
                            assert(Self::copied_right(old(self), self, f + 1, r, pair)) by {
                                assert(self.bitmap@.update(f + 1, b0[f + 1]) =~= after.bitmap@);
                                assert(self.keys@.update(f + 1, k0[f + 1]) =~= after.keys@);
                                assert(self.vals@.update(f + 1, v0[f + 1]) =~= after.vals@);
                            }
                            Self::lemma_moved_right(old(self), self, f + 1, r, pair);
                            assert(Self::first_free_from(old(self), f + 2, r));
                            assert forall|l: int| #[trigger] Self::last_free_upto(old(self), l, f) implies !(f + 1 - l < r - (f + 1)) by {
                                match shift_left_ix {
                                    Some(lx) => {
                                        if lx < l {
                                            assert(old(self).occ(l));
                                        } else if l < lx {
                                            assert(old(self).occ(lx as int));
                                        }
                                    },
                                    None => {
                                        assert(old(self).occ(l));
                                    },
                                }
                            }
                            assert(Self::placed_after_floor(old(self), self, ix as int, pair));
                            lemma_occ_count_move_right(b0, mid, ix1 as int, rix as int);
                            lemma_occ_count_update(mid, ix1 as int, true);
                            let p = ix1 as int;
                            let sigma = |i: int| if ix1 <= i < rix { i + 1 } else { i };
                            assert forall|i: int|
                                #![trigger sigma(i)]
                                seq_occ(b0, i) && k0[i].key_int() != key implies {
                                    &&& seq_occ(self.bitmap@, sigma(i))
                                    &&& self.keys@[sigma(i)] == k0[i]
                                    &&& self.vals@[sigma(i)] == v0[i]
                                    &&& (k0[i].key_int() < key ==> sigma(i) < p)
                                    &&& (k0[i].key_int() > key ==> sigma(i) > p)
                                } by {
                                assert(old(self).occ(i));
                                assert(i != rix);
                                if i < ix {
                                    assert(old(self).key_at(i) < old(self).key_at(ix as int));
                                }
                            }
                            assert forall|j: int| seq_occ(self.bitmap@, j) && j != p implies exists|i: int|
                                #![trigger sigma(i)]
                                seq_occ(b0, i) && k0[i].key_int() != key && sigma(i) == j by {
                                if ix1 < j <= rix {
                                    assert(old(self).occ(j - 1));
                                    assert(sigma(j - 1) == j);
                                } else {
                                    assert(old(self).occ(j));
                                    assert(sigma(j) == j);
                                    if j < ix {
                                        assert(old(self).key_at(j) < old(self).key_at(ix as int));
                                    }
                                }
                            }
                            lemma_relocate(b0, k0, v0, self.bitmap@, self.keys@, self.vals@, sigma, p, key, pair.1);
                        }
                        Ok(())
                    }
                }
            },
        }
    }

    /// `new` is `old` with `pair` stored in slot `s`, which becomes occupied.
    pub open spec fn placed_at(old: &Self, new: &Self, s: int, pair: (K, V)) -> bool {
        &&& new.bits() == old.bits().update(s, true)
        &&& new.key_view() == old.key_view().update(s, pair.0)
        &&& new.val_view() == old.val_view().update(s, pair.1)
    }

    /// Called for the initial upserts. Stores `pair` in slot `hint` if it is free,
    /// else in the first free slot after it, else in the last slot after moving
    /// the slots after the last free slot one slot to the left. NOTE: This makes
    /// two assumptions:
    /// - The values themselves are monotonically increasing
    /// - The hints are monotonically non-decreasing
    /// If either of these assumptions break, bad stuff may happen (use regular upsert)
    pub fn initial_model_based_insert(&mut self, pair: (K, V), hint: usize) -> (r: Result<(), String>)
        requires
            old(self).wf(),
            hint < old(self).slots(),
            old(self).size_spec() < u32::MAX,
            old(self).counted(),
        ensures
            final(self).wf(),
            final(self).slots() == old(self).slots(),
            final(self).counted(),
            !old(self).bits()[hint as int] ==> {
                &&& r is Ok
                &&& Self::placed_at(old(self), final(self), hint as int, pair)
                &&& final(self).size_spec() == old(self).size_spec() + 1
            },
            old(self).bits()[hint as int] && (exists|f: int| hint < f < old(self).slots() && !old(self).bits()[f]) ==> {
                &&& r is Ok
                &&& exists|f: int|
                    hint < f < old(self).slots() && !old(self).bits()[f] && (forall|m: int| hint < m < f ==> old(self).occ(m))
                        && Self::placed_at(old(self), final(self), f, pair)
                &&& final(self).size_spec() == old(self).size_spec() + 1
            },
            old(self).bits()[hint as int] && (forall|f: int| hint < f < old(self).slots() ==> old(self).bits()[f])
                && !old(self).no_free_slot() ==> {
                &&& r is Ok
                &&& exists|f: int|
                    0 <= f < hint && !old(self).bits()[f] && (forall|m: int| f < m < old(self).slots() ==> old(self).occ(m))
                        && Self::moved_left(old(self), final(self), f, old(self).slots() - 1, pair)
                &&& final(self).size_spec() == old(self).size_spec() + 1
            },
            old(self).no_free_slot() ==> r is Err && *final(self) == *old(self),
            r matches Err(m) ==> m@ == "Gapped array is full"@,
    {
        let n = self.len();
        if !self.bitmap[hint] {
            self.upsert_at(pair, hint);
            proof {
                lemma_occ_count_update(old(self).bitmap@, hint as int, true);
            }
            return Ok(());
        }
        match self.next_free_ix(hint + 1) {
            Some(free_ix) => {
                self.upsert_at(pair, free_ix);
                proof {
                    lemma_occ_count_update(old(self).bitmap@, free_ix as int, true);
                    assert(hint < free_ix < old(self).slots() && !old(self).bits()[free_ix as int]
                        && (forall|m: int| hint < m < free_ix ==> old(self).occ(m))
                        && Self::placed_at(old(self), self, free_ix as int, pair));
                    assert(!old(self).no_free_slot());
                }
                Ok(())
            },
            None => {
                match self.prev_free_ix(n.saturating_sub(1)) {
                    Some(free_ix) => {
                        proof {
                            assert(free_ix != hint);
                            assert forall|f: int| hint < f < old(self).slots() implies old(self).bits()[f] by {
                                assert(old(self).occ(f));
                            }
                        }
                        self.copy_within(free_ix + 1..n, free_ix);
                        let ghost mid = *self;
                        self.bitmap.set(n - 1, false);  // So size is updated correctly
                        let ghost mid2 = self.bitmap@;
                        self.upsert_at(pair, n.saturating_sub(1));
                        proof {
                            lemma_occ_count_move_left(old(self).bitmap@, mid2, free_ix as int, n - 1);
                            lemma_occ_count_update(mid2, n - 1, true);
                            assert(self.bitmap@.update(n - 1, old(self).bitmap@[n - 1]) =~= mid.bitmap@);
                            assert(self.keys@.update(n - 1, old(self).keys@[n - 1]) =~= mid.keys@);
                            assert(self.vals@.update(n - 1, old(self).vals@[n - 1]) =~= mid.vals@);
                            assert forall|m: int| free_ix < m < old(self).slots() implies old(self).occ(m) by {
                                if m > hint {
                                    assert(old(self).occ(m));
                                }
                            }
                            assert(Self::copied_left(old(self), self, free_ix as int, n - 1, pair));
                            Self::lemma_moved_left(old(self), self, free_ix as int, n - 1, pair);
                            assert(!old(self).no_free_slot());
                        }
                        Ok(())
                    },
                    None => {
                        proof {
                            assert(old(self).no_free_slot()) by {
                                assert forall|i: int| 0 <= i < old(self).slots() implies old(self).bitmap@[i] by {
                                    assert(old(self).occ(i));
                                }
                            }
                            assert forall|f: int| hint < f < old(self).slots() implies old(self).bits()[f] by {
                                assert(old(self).occ(f));
                            }
                        }
                        Err("Gapped array is full".to_string())
                    },
                }
            },
        }
    }

    /// How many entries a trim of radius `radius` around slot `ix` removes left
    /// of it: the radius, or fewer when fewer entries are there.
    pub open spec fn trim_left_count(&self, ix: int, radius: u32) -> nat {
        trim_count(occ_count(self.bits(), 0, ix), radius)
    }

    /// How many entries a trim of radius `radius` around slot `ix` removes right
    /// of it: the radius, or fewer when fewer entries are there.
    pub open spec fn trim_right_count(&self, ix: int, radius: u32) -> nat {
        trim_count(occ_count(self.bits(), ix + 1, self.slots() as int), radius)
    }

    /// `new` is `old` with the entries of the slots `[lo, hi]` removed, and `vs`
    /// holds their values from left to right.
    pub open spec fn trimmed(old: &Self, new: &Self, lo: int, hi: int, vs: Seq<V>) -> bool {
        let n = old.bits().len() as int;
        &&& forall|i: int| 0 <= i < n ==> new.bits()[i] == (old.bits()[i] && !(lo <= i <= hi))
        &&& forall|i: int|
            0 <= i < n && !(lo <= i <= hi && old.bits()[i]) ==> new.key_view()[i] == old.key_view()[i] && new.val_view()[i] == old.val_view()[i]
        &&& forall|i: int| lo <= i <= hi && old.bits()[i] ==> is_default(new.key_view()[i]) && is_default(new.val_view()[i])
        &&& vs.len() == occ_count(old.bits(), lo, hi + 1)
        &&& forall|i: int|
            lo <= i <= hi && seq_occ(old.bits(), i) ==> vs[occ_count(old.bits(), lo, i) as int] == old.val_view()[i]
        &&& new.size_spec() == old.size_spec() - vs.len()
    }

    /// Removing the entries of `[lo, hi]` takes their number off the count.
    proof fn lemma_trimmed_count(old: &Self, new: &Self, lo: int, hi: int, vs: Seq<V>)
        requires
            old.counted(),
            new.bitmap@.len() == old.bitmap@.len(),
            0 <= lo <= hi < old.bitmap@.len(),
            Self::trimmed(old, new, lo, hi, vs),
        ensures
            new.counted(),
    {
        let b0 = old.bitmap@;
        let b1 = new.bitmap@;
        let n = b0.len() as int;
        lemma_occ_count_split(b0, 0, lo, n);
        lemma_occ_count_split(b0, lo, hi + 1, n);
        lemma_occ_count_split(b1, 0, lo, n);
        lemma_occ_count_split(b1, lo, hi + 1, n);
        lemma_occ_count_agree(b0, b1, 0, lo);
        lemma_occ_count_agree(b0, b1, hi + 1, n);
        lemma_occ_count_none(b1, lo, hi + 1);
    }

    /// `new` is `old` after a trim of radius `radius` around the entry of key
    /// `needle`, which removed the values `vs`: the entries of the slots
    /// `[lo, hi]` around that entry's slot `ix`, with as many entries on each
    /// side as the radius asks for or as there are.
    pub open spec fn trim_result(old: &Self, new: &Self, needle: int, radius: u32, vs: Seq<V>) -> bool {
        exists|ix: int, lo: int, hi: int|
            #![trigger Self::trimmed(old, new, lo, hi, vs), old.key_at(ix)]
            {
                &&& old.occ(ix)
                &&& old.key_at(ix) == needle
                &&& lo <= ix <= hi < old.slots()
                &&& (lo == ix || old.occ(lo))
                &&& (hi == ix || old.occ(hi))
                &&& occ_count(old.bits(), lo, ix) == old.trim_left_count(ix, radius)
                &&& occ_count(old.bits(), ix + 1, hi + 1) == old.trim_right_count(ix, radius)
                &&& Self::trimmed(old, new, lo, hi, vs)
            }
    }

    /// Removes up to `window_radius` entries (a positive number) left of slot
    /// `ix`, nearest first, putting their values in front of `in_order`.
    /// Returns the leftmost slot reached.
    #[verifier::rlimit(100)]
    #[verifier::spinoff_prover]
    fn trim_left(
        &mut self,
        ix: usize,
        window_radius: u32,
        in_order: &mut Vec<V>,
        Ghost(b0): Ghost<Seq<bool>>,
        Ghost(k0): Ghost<Seq<K>>,
        Ghost(v0): Ghost<Seq<V>>,
        Ghost(s0): Ghost<int>,
    ) -> (lo: Ghost<int>)
        requires
            old(self).wf(),
            old(self).slots() == b0.len(),
            k0.len() == b0.len(),
            v0.len() == b0.len(),
            ix < b0.len(),
            seq_occ(b0, ix as int),
            forall|i: int| 0 <= i < b0.len() ==> old(self).bitmap@[i] == (b0[i] && i != ix),
            forall|i: int| 0 <= i < b0.len() && i != ix ==> #[trigger] old(self).keys@[i] == k0[i],
            forall|i: int| 0 <= i < b0.len() && i != ix ==> #[trigger] old(self).vals@[i] == v0[i],
            old(in_order)@ == seq![v0[ix as int]],
            is_default(old(self).keys@[ix as int]),
            is_default(old(self).vals@[ix as int]),
            old(self).size == s0 - 1,
            s0 >= trim_count(occ_count(b0, 0, ix as int), window_radius) + 1,
            window_radius >= 1,
        ensures
            final(self).wf(),
            final(self).slots() == b0.len(),
            0 <= lo@ <= ix,
            lo@ == ix || seq_occ(b0, lo@),
            occ_count(b0, lo@, ix as int) == trim_count(occ_count(b0, 0, ix as int), window_radius),
            forall|i: int| 0 <= i < b0.len() ==> final(self).bitmap@[i] == (b0[i] && !(lo@ <= i <= ix)),
            forall|i: int| 0 <= i < b0.len() && !(lo@ <= i <= ix && b0[i]) ==> #[trigger] final(self).keys@[i] == k0[i],
            forall|i: int| 0 <= i < b0.len() && !(lo@ <= i <= ix && b0[i]) ==> #[trigger] final(self).vals@[i] == v0[i],
            forall|i: int| lo@ <= i <= ix && b0[i] ==> #[trigger] is_default(final(self).keys@[i]),
            forall|i: int| lo@ <= i <= ix && b0[i] ==> #[trigger] is_default(final(self).vals@[i]),
            final(in_order)@.len() == occ_count(b0, lo@, ix + 1),
            forall|i: int| lo@ <= i <= ix && seq_occ(b0, i) ==> final(in_order)@[occ_count(b0, lo@, i) as int] == v0[i],
            final(self).size == s0 - final(in_order)@.len(),
    {
        let n = self.len();
        let ghost rr: nat = window_radius as nat;
        let ghost ll = trim_count(occ_count(b0, 0, ix as int), window_radius);
        let ghost mut lo: int = ix as int;
        proof {
            assert(occ_count(b0, lo, ix as int) == 0);
            assert(occ_count(b0, lo, ix + 1) == 1) by {
                assert(occ_count(b0, lo, ix + 1) == occ_count(b0, lo, ix as int) + 1);
            }
            assert(occ_count(b0, lo, lo) == 0);
            assert forall|i: int| 0 <= i < n && !(lo <= i <= ix && b0[i]) implies #[trigger] self.keys@[i] == k0[i]
                && self.vals@[i] == v0[i] by {
                assert(i != ix);
            }
        }
        let mut num_left: u32 = 0;
        let mut kx = if ix > 0 {
            self.prev_occupied_ix(ix - 1)
        } else {
            None
        };
        proof {
            match kx {
                Some(jx) => {
                    assert(self.occ(jx as int));
                    assert(seq_occ(b0, jx as int));
                    assert forall|m: int| jx < m < lo implies !seq_occ(b0, m) by {
                        assert(!self.occ(m));
                    }
                },
                None => {
                    assert forall|m: int| 0 <= m < lo implies !seq_occ(b0, m) by {
                        assert(!self.occ(m));
                    }
                },
            }
        }
        let mut done = false;
        while !done && kx.is_some()
            invariant
                self.wf(),
                self.slots() == n,
                n == b0.len(),
                k0.len() == n,
                v0.len() == n,
                ix < n,
                0 <= lo <= ix,
                seq_occ(b0, ix as int),
                ll == trim_count(occ_count(b0, 0, ix as int), window_radius),
                window_radius >= 1,
                rr == window_radius as nat,
                s0 >= ll + 1,
                !done ==> occ_count(b0, lo, ix as int) == num_left,
                !done ==> num_left < rr,
                done ==> occ_count(b0, lo, ix as int) == ll,
                lo == ix || seq_occ(b0, lo),
                !done ==> (kx matches Some(jx) ==> jx < lo && seq_occ(b0, jx as int) && (forall|m: int|
                    jx < m < lo ==> !seq_occ(b0, m))),
                !done ==> (kx is None ==> forall|m: int| 0 <= m < lo ==> !seq_occ(b0, m)),
                forall|i: int| 0 <= i < n ==> self.bitmap@[i] == (b0[i] && !(lo <= i <= ix)),
                forall|i: int| 0 <= i < n && !(lo <= i <= ix && b0[i]) ==> #[trigger] self.keys@[i] == k0[i],
                forall|i: int| 0 <= i < n && !(lo <= i <= ix && b0[i]) ==> #[trigger] self.vals@[i] == v0[i],
                forall|i: int| lo <= i <= ix && b0[i] ==> #[trigger] is_default(self.keys@[i]),
                forall|i: int| lo <= i <= ix && b0[i] ==> #[trigger] is_default(self.vals@[i]),
                in_order@.len() == occ_count(b0, lo, ix + 1),
                forall|i: int| lo <= i <= ix && seq_occ(b0, i) ==> in_order@[occ_count(b0, lo, i) as int] == v0[i],
                self.size == s0 - in_order@.len(),
            decreases lo + (if done { 0int } else { 1int }),
        {
            let jx = kx.unwrap();
            let ghost old_lo = lo;
            let ghost pre = *self;
            let ghost pre_order = in_order@;
            proof {
                lemma_occ_count_one(b0, jx as int, lo);
                lemma_occ_count_split(b0, jx as int, lo, ix as int);
                lemma_occ_count_mono(b0, 0, jx as int, ix as int);
                lemma_occ_count_split(b0, lo, ix as int, ix + 1);
                lemma_occ_count_split(b0, jx as int, ix as int, ix + 1);
            }
            let (_, v) = self.remove_at(jx).unwrap();
            in_order.insert(0, v);
            proof {
                lo = jx as int;
                lemma_occ_count_split(b0, jx as int, old_lo, ix + 1);
                assert forall|i: int| 0 <= i < n implies self.bitmap@[i] == (b0[i] && !(lo <= i <= ix)) by {
                    if i != jx {
                        assert(self.bitmap@[i] == pre.bitmap@[i]);
                        if jx < i < old_lo {
                            assert(!seq_occ(b0, i));
                        }
                    }
                }
                assert forall|i: int| 0 <= i < n && !(lo <= i <= ix && b0[i]) implies #[trigger] self.keys@[i] == k0[i]
                    && self.vals@[i] == v0[i] by {
                    assert(i != jx);
                    assert(self.keys@[i] == pre.keys@[i]);
                    assert(self.vals@[i] == pre.vals@[i]);
                }
                assert forall|i: int| lo <= i <= ix && seq_occ(b0, i) implies in_order@[occ_count(b0, lo, i) as int]
                    == v0[i] by {
                    if i == lo {
                        assert(occ_count(b0, lo, lo) == 0);
                        assert(pre.vals@[jx as int] == v0[jx as int]);
                    } else {
                        assert(old_lo <= i) by {
                            if i < old_lo {
                                assert(!seq_occ(b0, i));
                            }
                        }
                        lemma_occ_count_split(b0, jx as int, old_lo, i);
                        assert(occ_count(b0, jx as int, i) == 1 + occ_count(b0, old_lo, i));
                        lemma_occ_count_mono(b0, old_lo, i, ix + 1);
                        assert(occ_count(b0, old_lo, i) < occ_count(b0, old_lo, ix + 1)) by {
                            lemma_occ_count_split(b0, old_lo, i, ix + 1);
                            lemma_occ_count_split(b0, i, i + 1, ix + 1);
                            assert(occ_count(b0, i, i + 1) == occ_count(b0, i, i) + 1);
                        }
                        assert(in_order@[occ_count(b0, jx as int, i) as int] == pre_order[occ_count(b0, old_lo, i) as int]);
                        assert(pre_order[occ_count(b0, old_lo, i) as int] == v0[i]);
                    }
                }
            }
            kx = if jx > 0 {
                self.prev_occupied_ix(jx - 1)
            } else {
                None
            };
            proof {
                match kx {
                    Some(j2) => {
                        assert(self.occ(j2 as int));
                        assert(seq_occ(b0, j2 as int));
                        assert forall|m: int| j2 < m < lo implies !seq_occ(b0, m) by {
                            assert(!self.occ(m));
                        }
                    },
                    None => {
                        assert forall|m: int| 0 <= m < lo implies !seq_occ(b0, m) by {
                            assert(!self.occ(m));
                        }
                    },
                }
            }
            if jx == 0 {
                done = true;
            } else {
                num_left += 1;
                done = window_radius <= num_left;
            }
        }
        proof {
            if !done {
                lemma_occ_count_none(b0, 0, lo);
                lemma_occ_count_split(b0, 0, lo, ix as int);
            }
        }
        Ghost(lo)
    }

    /// Removes up to `window_radius` entries (a positive number) right of slot
    /// `ix`, nearest first, appending their values to `in_order`.
    /// Returns the rightmost slot reached.
    #[verifier::rlimit(100)]
    #[verifier::spinoff_prover]
    fn trim_right(
        &mut self,
        ix: usize,
        window_radius: u32,
        in_order: &mut Vec<V>,
        Ghost(b0): Ghost<Seq<bool>>,
        Ghost(k0): Ghost<Seq<K>>,
        Ghost(v0): Ghost<Seq<V>>,
        Ghost(s0): Ghost<int>,
        Ghost(lo): Ghost<int>,
    ) -> (hi: Ghost<int>)
        requires
            old(self).wf(),
            old(self).slots() == b0.len(),
            k0.len() == b0.len(),
            v0.len() == b0.len(),
            ix < b0.len(),
            0 <= lo <= ix,
            seq_occ(b0, ix as int),
            forall|i: int| 0 <= i < b0.len() ==> old(self).bitmap@[i] == (b0[i] && !(lo <= i <= ix)),
            forall|i: int| 0 <= i < b0.len() && !(lo <= i <= ix && b0[i]) ==> #[trigger] old(self).keys@[i] == k0[i],
            forall|i: int| 0 <= i < b0.len() && !(lo <= i <= ix && b0[i]) ==> #[trigger] old(self).vals@[i] == v0[i],
            forall|i: int| lo <= i <= ix && b0[i] ==> #[trigger] is_default(old(self).keys@[i]),
            forall|i: int| lo <= i <= ix && b0[i] ==> #[trigger] is_default(old(self).vals@[i]),
            old(in_order)@.len() == occ_count(b0, lo, ix + 1),
            forall|i: int| lo <= i <= ix && seq_occ(b0, i) ==> old(in_order)@[occ_count(b0, lo, i) as int] == v0[i],
            old(self).size == s0 - old(in_order)@.len(),
            s0 >= old(in_order)@.len() + trim_count(occ_count(b0, ix + 1, b0.len() as int), window_radius),
            window_radius >= 1,
        ensures
            final(self).wf(),
            final(self).slots() == b0.len(),
            ix <= hi@ < b0.len(),
            hi@ == ix || seq_occ(b0, hi@),
            occ_count(b0, ix + 1, hi@ + 1) == trim_count(occ_count(b0, ix + 1, b0.len() as int), window_radius),
            forall|i: int| 0 <= i < b0.len() ==> final(self).bitmap@[i] == (b0[i] && !(lo <= i <= hi@)),
            forall|i: int| 0 <= i < b0.len() && !(lo <= i <= hi@ && b0[i]) ==> #[trigger] final(self).keys@[i] == k0[i],
            forall|i: int| 0 <= i < b0.len() && !(lo <= i <= hi@ && b0[i]) ==> #[trigger] final(self).vals@[i] == v0[i],
            forall|i: int| lo <= i <= hi@ && b0[i] ==> #[trigger] is_default(final(self).keys@[i]),
            forall|i: int| lo <= i <= hi@ && b0[i] ==> #[trigger] is_default(final(self).vals@[i]),
            final(in_order)@.len() == occ_count(b0, lo, hi@ + 1),
            forall|i: int| lo <= i <= hi@ && seq_occ(b0, i) ==> final(in_order)@[occ_count(b0, lo, i) as int] == v0[i],
            final(self).size == s0 - final(in_order)@.len(),
    {
        let n = self.len();
        let ghost rr: nat = window_radius as nat;
        let ghost rt = trim_count(occ_count(b0, ix + 1, n as int), window_radius);
        let ghost base = in_order@.len();
        let ghost mut hi: int = ix as int;
        let mut num_right: u32 = 0;
        let mut kx = self.next_occupied_ix(ix + 1);
        proof {
            assert(occ_count(b0, ix + 1, hi + 1) == 0);
            match kx {
                Some(j2) => {
                    assert(self.occ(j2 as int));
                    assert(seq_occ(b0, j2 as int));
                    assert forall|m: int| hi < m < j2 implies !seq_occ(b0, m) by {
                        assert(!self.occ(m));
                    }
                },
                None => {
                    assert forall|m: int| hi < m < n implies !seq_occ(b0, m) by {
                        assert(!self.occ(m));
                    }
                },
            }
        }
        let mut done = false;
        while !done && kx.is_some()
            invariant
                self.wf(),
                self.slots() == n,
                n == b0.len(),
                k0.len() == n,
                v0.len() == n,
                ix < n,
                0 <= lo <= ix <= hi < n,
                seq_occ(b0, ix as int),
                rt == trim_count(occ_count(b0, ix + 1, n as int), window_radius),
                window_radius >= 1,
                rr == window_radius as nat,
                s0 >= base + rt,
                base == occ_count(b0, lo, ix + 1),
                !done ==> occ_count(b0, ix + 1, hi + 1) == num_right,
                !done ==> num_right < rr,
                done ==> occ_count(b0, ix + 1, hi + 1) == rt,
                hi == ix || seq_occ(b0, hi),
                !done ==> (kx matches Some(jx) ==> hi < jx && seq_occ(b0, jx as int) && (forall|m: int|
                    hi < m < jx ==> !seq_occ(b0, m))),
                !done ==> (kx is None ==> forall|m: int| hi < m < n ==> !seq_occ(b0, m)),
                forall|i: int| 0 <= i < n ==> self.bitmap@[i] == (b0[i] && !(lo <= i <= hi)),
                forall|i: int| 0 <= i < n && !(lo <= i <= hi && b0[i]) ==> #[trigger] self.keys@[i] == k0[i],
                forall|i: int| 0 <= i < n && !(lo <= i <= hi && b0[i]) ==> #[trigger] self.vals@[i] == v0[i],
                forall|i: int| lo <= i <= hi && b0[i] ==> #[trigger] is_default(self.keys@[i]),
                forall|i: int| lo <= i <= hi && b0[i] ==> #[trigger] is_default(self.vals@[i]),
                in_order@.len() == occ_count(b0, lo, hi + 1),
                forall|i: int| lo <= i <= hi && seq_occ(b0, i) ==> in_order@[occ_count(b0, lo, i) as int] == v0[i],
                self.size == s0 - in_order@.len(),
            decreases n - hi + (if done { 0int } else { 1int }),
        {
            let jx = kx.unwrap();
            let ghost old_hi = hi;
            let ghost pre = *self;
            let ghost pre_order = in_order@;
            proof {
                lemma_occ_count_none(b0, hi + 1, jx as int);
                lemma_occ_count_split(b0, hi + 1, jx as int, jx + 1);
                assert(occ_count(b0, jx as int, jx + 1) == 1) by {
                    assert(occ_count(b0, jx as int, jx + 1) == occ_count(b0, jx as int, jx as int) + 1);
                }
                lemma_occ_count_split(b0, ix + 1, hi + 1, jx + 1);
                lemma_occ_count_mono(b0, ix + 1, jx + 1, n as int);
                lemma_occ_count_split(b0, lo, hi + 1, jx + 1);
                lemma_occ_count_split(b0, lo, hi + 1, jx as int);
                lemma_occ_count_split(b0, lo, ix + 1, hi + 1);
            }
            let (_, v) = self.remove_at(jx).unwrap();
            in_order.push(v);
            proof {
                hi = jx as int;
                assert forall|i: int| 0 <= i < n implies self.bitmap@[i] == (b0[i] && !(lo <= i <= hi)) by {
                    if i != jx {
                        assert(self.bitmap@[i] == pre.bitmap@[i]);
                        if old_hi < i < jx {
                            assert(!seq_occ(b0, i));
                        }
                    }
                }
                assert forall|i: int| 0 <= i < n && !(lo <= i <= hi && b0[i]) implies #[trigger] self.keys@[i] == k0[i]
                    && self.vals@[i] == v0[i] by {
                    assert(i != jx);
                    assert(self.keys@[i] == pre.keys@[i]);
                    assert(self.vals@[i] == pre.vals@[i]);
                }
                assert forall|i: int| lo <= i <= hi && seq_occ(b0, i) implies in_order@[occ_count(b0, lo, i) as int]
                    == v0[i] by {
                    if i == hi {
                        assert(pre.vals@[jx as int] == v0[jx as int]);
                    } else {
                        assert(i <= old_hi) by {
                            if i > old_hi {
                                assert(!seq_occ(b0, i));
                            }
                        }
                        lemma_occ_count_mono(b0, lo, i, old_hi + 1);
                        assert(occ_count(b0, lo, i) < occ_count(b0, lo, old_hi + 1)) by {
                            lemma_occ_count_split(b0, lo, i, old_hi + 1);
                            lemma_occ_count_split(b0, i, i + 1, old_hi + 1);
                            assert(occ_count(b0, i, i + 1) == occ_count(b0, i, i) + 1);
                        }
                        assert(pre_order[occ_count(b0, lo, i) as int] == v0[i]);
                    }
                }
            }
            kx = self.next_occupied_ix(jx + 1);
            proof {
                match kx {
                    Some(j2) => {
                        assert(self.occ(j2 as int));
                        assert(seq_occ(b0, j2 as int));
                        assert forall|m: int| hi < m < j2 implies !seq_occ(b0, m) by {
                            assert(!self.occ(m));
                        }
                    },
                    None => {
                        assert forall|m: int| hi < m < n implies !seq_occ(b0, m) by {
                            assert(!self.occ(m));
                        }
                    },
                }
            }
            num_right += 1;
            done = window_radius <= num_right;
        }
        proof {
            if !done {
                lemma_occ_count_none(b0, hi + 1, n as int);
                lemma_occ_count_split(b0, ix + 1, hi + 1, n as int);
            }
        }
        Ghost(hi)
    }

    /// Finds an element with key `needle` and removes that element and up to
    /// `window_radius` elements on each side. Returns the removed values from
    /// left to right. The freed slots are reset to the default key and value.
    #[verifier::spinoff_prover]
    pub fn trim_window(&mut self, needle: K, window_radius: u32, hint: usize) -> (r: Result<Vec<V>, String>)
        requires
            old(self).wf(),
            old(self).sorted(),
            old(self).slots() > 0,
            old(self).counted(),
        ensures
            final(self).wf(),
            final(self).slots() == old(self).slots(),
            final(self).sorted(),
            final(self).counted(),
            r is Ok <==> old(self).has_key(needle.key_int()),
            r is Err ==> *final(self) == *old(self),
            r matches Ok(vs) ==> Self::trim_result(old(self), final(self), needle.key_int(), window_radius, vs@),
            r matches Err(m) ==> m@ == "Can't trim window: supposed key doesn't exist"@,
    {
        let ghost b0 = self.bitmap@;
        let ghost k0 = self.keys@;
        let ghost v0 = self.vals@;
        let ghost s0 = self.size as int;
        let ghost key = needle.key_int();
        let found = self.price_is_right(&needle, Some(hint));
        let ix = match found {
            Some(ix) => ix,
            None => {
                proof {
                    self.lemma_pir_sorted(0, key);
                    self.lemma_absent_key(0, key);
                }
                return Err("Can't trim window: supposed key doesn't exist".to_string());
            },
        };
        proof {
            self.lemma_pir_sorted(ix as int, key);
        }
        if !self.keys[ix].key_eq(&needle) {
            proof {
                self.lemma_absent_key(ix as int, key);
            }
            return Err("Can't trim window: supposed key doesn't exist".to_string());
        }
        proof {
            assert(seq_occ(b0, ix as int) && k0[ix as int].key_int() == key);
            assert(old(self).occ(ix as int));
            let ixi = ix as int;
            let nn = b0.len() as int;
            assert(s0 == occ_count(b0, 0, ixi) + 1 + occ_count(b0, ixi + 1, nn)) by {
                lemma_occ_count_split(b0, 0, ixi, nn);
                lemma_occ_count_split(b0, ixi, ixi + 1, nn);
                lemma_occ_count_one(b0, ixi, ixi + 1);
            }
        }
        let mut in_order: Vec<V> = Vec::new();
        // First add the actual element
        let (_, v) = self.remove_at(ix).unwrap();
        in_order.push(v);
        proof {
            assert(in_order@ =~= seq![v0[ix as int]]);
        }
        if window_radius == 0 {
            proof {
                let ixi = ix as int;
                lemma_occ_count_none(b0, ixi, ixi);
                lemma_occ_count_one(b0, ixi, ixi + 1);
                assert(old(self).has_key(key)) by {
                    assert(seq_occ(b0, ixi) && k0[ixi].key_int() == key);
                }
                assert forall|i: int, j: int|
                    seq_occ(self.bitmap@, i) && seq_occ(self.bitmap@, j) && i < j implies self.keys@[i].key_int()
                    < self.keys@[j].key_int() by {
                    assert(seq_occ(b0, i) && seq_occ(b0, j));
                }
                assert(Self::trimmed(old(self), self, ixi, ixi, in_order@));
                assert(old(self).key_at(ixi) == needle.key_int());
                assert(Self::trim_result(old(self), self, needle.key_int(), window_radius, in_order@));
                lemma_occ_count_update(b0, ixi, false);
                assert(self.bitmap@ =~= b0.update(ixi, false));
            }
            return Ok(in_order);
        }
        // Then get the elements to the left, then those to the right
        let lo = self.trim_left(ix, window_radius, &mut in_order, Ghost(b0), Ghost(k0), Ghost(v0), Ghost(s0));
        proof {
            assert(s0 >= in_order@.len() + trim_count(occ_count(b0, ix + 1, b0.len() as int), window_radius)) by {
                lemma_occ_count_split(b0, 0, lo@, ix + 1);
                lemma_occ_count_split(b0, 0, ix + 1, b0.len() as int);
            }
            assert(forall|i: int| 0 <= i < b0.len() ==> self.bitmap@[i] == (b0[i] && !(lo@ <= i <= ix)));
        }
        let hi = self.trim_right(ix, window_radius, &mut in_order, Ghost(b0), Ghost(k0), Ghost(v0), Ghost(s0), lo);
        proof {
            assert forall|i: int, j: int|
                seq_occ(self.bitmap@, i) && seq_occ(self.bitmap@, j) && i < j implies self.keys@[i].key_int()
                < self.keys@[j].key_int() by {
                assert(seq_occ(b0, i) && seq_occ(b0, j));
                assert(self.keys@[i] == k0[i] && self.keys@[j] == k0[j]);
            }
            assert(self.sorted());
            assert(old(self).has_key(key)) by {
                assert(seq_occ(b0, ix as int) && k0[ix as int].key_int() == key);
            }
            let ixi = ix as int;
            assert(Self::trimmed(old(self), self, lo@, hi@, in_order@));
            Self::lemma_trimmed_count(old(self), self, lo@, hi@, in_order@);
            assert(old(self).key_at(ixi) == needle.key_int());
            assert(Self::trim_result(old(self), self, needle.key_int(), window_radius, in_order@));
        }
        Ok(in_order)
    }

    /// Returns Some(ix) s.t. keys[ix] <= needle, and the next entry after ix is
    /// above needle. Returns None if needle is smaller than the first entry.
    /// NOTE: Hint is just to help search speed. This must always return a correct result.
    fn price_is_right(&self, needle: &K, hint: Option<usize>) -> (r: Option<usize>)
        requires
            self.wf(),
            self.slots() > 0,
        ensures
            match r {
                Some(ix) => self.is_pir(ix as int, needle.key_int()),
                None => self.no_pir(needle.key_int()),
            },
    {
        let n = self.len();
        let start = match hint {
            Some(h) => h,
            None => n / 2,
        };
        // First, move as far to the right as we can from the hint
        let mut check = self.next_occupied_ix(start);
        loop
            invariant_except_break
                self.wf(),
                n == self.slots(),
                check matches Some(c) ==> self.occ(c as int),
                check is None ==> forall|m: int| start <= m ==> !self.occ(m),
            ensures
                check matches Some(c) ==> self.occ(c as int) && self.next_above(c as int, needle.key_int()),
                check is None ==> forall|m: int| start <= m ==> !self.occ(m),
            decreases (match check { Some(c) => n - c, None => 0 }),
        {
            match check {
                None => break,
                Some(c) => {
                    let next = self.next_occupied_ix(c + 1);
                    match next {
                        Some(next_ix) => {
                            if needle.key_lt(&self.keys[next_ix]) {
                                proof {
                                    assert forall|j: int|
                                        c < j && #[trigger] self.occ(j) && (forall|m: int| c < m < j ==> !self.occ(m))
                                        implies needle.key_int() < self.key_at(j) by {
                                        if j < next_ix {
                                            assert(!self.occ(j));
                                        } else if j > next_ix {
                                            assert(!self.occ(next_ix as int));
                                        }
                                    }
                                }
                                break;
                            }
                            check = Some(next_ix);
                        },
                        None => {
                            break;
                        },
                    }
                },
            }
        }
        // Make sure check is something if there is an element
        check = match check {
            Some(ix) => Some(ix),
            None => self.prev_occupied_ix(n - 1),
        };
        // Then ensure correctness by moving left as far as we need to
        loop
            invariant_except_break
                self.wf(),
                n == self.slots(),
                check matches Some(c) ==> self.occ(c as int) && self.next_above(c as int, needle.key_int()),
                check is None ==> self.no_pir(needle.key_int()),
            ensures
                check matches Some(c) ==> self.is_pir(c as int, needle.key_int()),
                check is None ==> self.no_pir(needle.key_int()),
            decreases (match check { Some(c) => c + 1, None => 0 }),
        {
            match check {
                None => break,
                Some(c) => {
                    if self.keys[c].key_le(needle) {
                        // Happy case where we got it right
                        break;
                    }
                    if c == 0 {
                        check = None;
                        proof {
                            assert forall|j: int|
                                -1 < j && #[trigger] self.occ(j) && (forall|m: int| -1 < m < j ==> !self.occ(m))
                                implies needle.key_int() < self.key_at(j) by {
                                if j > 0 {
                                    assert(!self.occ(0));
                                }
                            }
                        }
                        break;
                    }
                    let p = self.prev_occupied_ix(c - 1);
                    proof {
                        match p {
                            Some(pi) => {
                                assert forall|j: int|
                                    pi < j && #[trigger] self.occ(j) && (forall|m: int| pi < m < j ==> !self.occ(m))
                                    implies needle.key_int() < self.key_at(j) by {
                                    if j < c {
                                        assert(!self.occ(j));
                                    } else if j > c {
                                        assert(!self.occ(c as int));
                                    }
                                }
                            },
                            None => {
                                assert forall|j: int|
                                    -1 < j && #[trigger] self.occ(j) && (forall|m: int| -1 < m < j ==> !self.occ(m))
                                    implies needle.key_int() < self.key_at(j) by {
                                    if j < c {
                                        assert(!self.occ(j));
                                    } else if j > c {
                                        assert(!self.occ(c as int));
                                    }
                                }
                            },
                        }
                    }
                    check = p;
                },
            }
        }
        check
    }
}

} // verus!
