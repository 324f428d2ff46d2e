//! B-tree nodes: a bounded map kept as entries sorted by key.
use vstd::prelude::*;
use crate::entry::Entry;
use crate::search::{is_search_result, key_seq, sorted_keys, BinarySearch, Search};
use crate::traits::{KeyBounded, StaticBounded};

verus! {

/// The integers of the keys of `s`, in order.
pub open spec fn entry_keys<K: StaticBounded, V>(s: Seq<Entry<K, V>>) -> Seq<int> {
    key_seq::<K, Entry<K, V>>(s)
}

/// `i` is the slot that a lookup of `x` in the sorted keys `s` lands on: the
/// last key at most `x`, or the first slot when every key is above `x`.
pub open spec fn lub_at(s: Seq<int>, x: int, i: int) -> bool {
    &&& 0 <= i < s.len()
    &&& (s[i] <= x || i == 0)
    &&& forall|j: int| i < j < s.len() ==> x < s[j]
}

/// `new` is `old` after `key` is given `value`: the entry of `key` replaced
/// when there was one (`r` then holds its former value), a new entry put at its
/// place in the order otherwise.
pub open spec fn inserted<K: StaticBounded, V>(
    old: Seq<Entry<K, V>>,
    new: Seq<Entry<K, V>>,
    key: K,
    value: V,
    r: Option<V>,
) -> bool {
    match r {
        Some(prev) => exists|i: int|
            0 <= i < old.len() && #[trigger] old[i].key.key_int() == key.key_int() && prev == old[i].value
                && new == old.update(i, Entry { key, value }),
        None => {
            &&& forall|i: int| 0 <= i < old.len() ==> #[trigger] old[i].key.key_int() != key.key_int()
            &&& exists|p: int| 0 <= p <= old.len() && #[trigger] old.insert(p, Entry { key, value }) == new
        },
    }
}


/// `r` is what a lookup of key `k` in `s` gives: the value of an entry with
/// key `k`, or nothing when no entry has it.
pub open spec fn finds<K: StaticBounded, V>(s: Seq<Entry<K, V>>, k: int, r: Option<V>) -> bool {
    match r {
        Some(v) => exists|g: int| 0 <= g < s.len() && #[trigger] s[g].key.key_int() == k && s[g].value == v,
        None => forall|g: int| 0 <= g < s.len() ==> #[trigger] s[g].key.key_int() != k,
    }
}

/// In entries with increasing keys, a lookup has one answer.
pub proof fn lemma_finds_unique<K: StaticBounded, V>(s: Seq<Entry<K, V>>, k: int, r1: Option<V>, r2: Option<V>)
    requires
        sorted_keys(entry_keys(s)),
        finds(s, k, r1),
        finds(s, k, r2),
    ensures
        r1 == r2,
{
    match (r1, r2) {
        (Some(v1), Some(v2)) => {
            let g1 = choose|g: int| 0 <= g < s.len() && #[trigger] s[g].key.key_int() == k && s[g].value == v1;
            let g2 = choose|g: int| 0 <= g < s.len() && #[trigger] s[g].key.key_int() == k && s[g].value == v2;
            assert(entry_keys(s)[g1] == s[g1].key.key_int());
            assert(entry_keys(s)[g2] == s[g2].key.key_int());
            if g1 < g2 {
                assert(entry_keys(s)[g1] < entry_keys(s)[g2]);
            } else if g2 < g1 {
                assert(entry_keys(s)[g2] < entry_keys(s)[g1]);
            }
        },
        (Some(v1), None) => {
            let g1 = choose|g: int| 0 <= g < s.len() && #[trigger] s[g].key.key_int() == k && s[g].value == v1;
        },
        (None, Some(v2)) => {
            let g2 = choose|g: int| 0 <= g < s.len() && #[trigger] s[g].key.key_int() == k && s[g].value == v2;
        },
        (None, None) => {},
    }
}

/// Giving `key` the value `value` in entries (as an insert does): a lookup of
/// `key` then finds `value`, one of any other key finds what it found before,
/// and the insert returns what a lookup of `key` found before.
pub proof fn lemma_inserted_lookup<K: StaticBounded, V>(
    old: Seq<Entry<K, V>>,
    new: Seq<Entry<K, V>>,
    key: K,
    value: V,
    r: Option<V>,
    other: int,
    found: Option<V>,
)
    requires
        inserted(old, new, key, value, r),
    ensures
        finds(new, key.key_int(), Some(value)),
        finds(old, key.key_int(), r),
        other != key.key_int() ==> (finds(new, other, found) <==> finds(old, other, found)),
{
    let e = Entry { key, value };
    match r {
        Some(prev) => {
            let i = choose|i: int|
                0 <= i < old.len() && #[trigger] old[i].key.key_int() == key.key_int() && prev == old[i].value && new
                    == old.update(i, e);
            assert(new[i] == e);
            assert(0 <= i < new.len() && new[i].key.key_int() == key.key_int() && new[i].value == value);
            if other != key.key_int() {
                match found {
                    Some(v) => {
                        if finds(old, other, found) {
                            let g = choose|g: int| 0 <= g < old.len() && #[trigger] old[g].key.key_int() == other && old[g].value == v;
                            assert(new[g] == old[g]);
                        }
                        if finds(new, other, found) {
                            let g = choose|g: int| 0 <= g < new.len() && #[trigger] new[g].key.key_int() == other && new[g].value == v;
                            assert(new[g] == old[g]);
                        }
                    },
                    None => {
                        if finds(old, other, found) {
                            assert forall|g: int| 0 <= g < new.len() implies #[trigger] new[g].key.key_int() != other by {
                                if g != i {
                                    assert(new[g] == old[g]);
                                }
                            }
                        }
                        if finds(new, other, found) {
                            assert forall|g: int| 0 <= g < old.len() implies #[trigger] old[g].key.key_int() != other by {
                                if g != i {
                                    assert(new[g] == old[g]);
                                }
                            }
                        }
                    },
                }
            }
        },
        None => {
            let p = choose|p: int| 0 <= p <= old.len() && #[trigger] old.insert(p, e) == new;
            assert(new[p] == e);
            assert(0 <= p < new.len() && new[p].key.key_int() == key.key_int() && new[p].value == value);
            if other != key.key_int() {
                match found {
                    Some(v) => {
                        if finds(old, other, found) {
                            let g = choose|g: int| 0 <= g < old.len() && #[trigger] old[g].key.key_int() == other && old[g].value == v;
                            let h = if g < p { g } else { g + 1 };
                            assert(new[h] == old[g]);
                        }
                        if finds(new, other, found) {
                            let g = choose|g: int| 0 <= g < new.len() && #[trigger] new[g].key.key_int() == other && new[g].value == v;
                            if g < p {
                                assert(old[g] == new[g]);
                            } else {
                                assert(old[g - 1] == new[g]);
                            }
                        }
                    },
                    None => {
                        if finds(old, other, found) {
                            assert forall|g: int| 0 <= g < new.len() implies #[trigger] new[g].key.key_int() != other by {
                                if g < p {
                                    assert(new[g] == old[g]);
                                } else if g > p {
                                    assert(new[g] == old[g - 1]);
                                }
                            }
                        }
                        if finds(new, other, found) {
                            assert forall|g: int| 0 <= g < old.len() implies #[trigger] old[g].key.key_int() != other by {
                                if g < p {
                                    assert(new[g] == old[g]);
                                } else {
                                    assert(new[g + 1] == old[g]);
                                }
                            }
                        }
                    },
                }
            }
        },
    }
}

/// In entries sorted by key, an earlier entry has a smaller key.
pub proof fn lemma_sorted_at<K: StaticBounded, V>(s: Seq<Entry<K, V>>, i: int, j: int)
    requires
        sorted_keys(entry_keys(s)),
        0 <= i < j < s.len(),
    ensures
        s[i].key.key_int() < s[j].key.key_int(),
{
    assert(entry_keys(s)[i] == s[i].key.key_int());
    assert(entry_keys(s)[j] == s[j].key.key_int());
}

/// Giving a key a value keeps every key below (or at least) a bound when the
/// old keys and the given key are.
pub proof fn lemma_inserted_bound<K: StaticBounded, V>(
    old: Seq<Entry<K, V>>,
    new: Seq<Entry<K, V>>,
    key: K,
    value: V,
    rv: Option<V>,
    c: int,
)
    requires
        inserted(old, new, key, value, rv),
    ensures
        (forall|i: int| 0 <= i < old.len() ==> (#[trigger] old[i]).key.key_int() < c) && key.key_int() < c ==> forall|
            j: int,
        | 0 <= j < new.len() ==> (#[trigger] new[j]).key.key_int() < c,
        (forall|i: int| 0 <= i < old.len() ==> (#[trigger] old[i]).key.key_int() >= c) && key.key_int() >= c ==> forall|
            j: int,
        | 0 <= j < new.len() ==> (#[trigger] new[j]).key.key_int() >= c,
{
    let e = Entry { key, value };
    match rv {
        Some(prev) => {
            let i = choose|i: int|
                0 <= i < old.len() && #[trigger] old[i].key.key_int() == key.key_int() && prev == old[i].value && new
                    == old.update(i, e);
            assert forall|j: int| 0 <= j < new.len() implies new[j] == e || new[j] == old[j] by {}
        },
        None => {
            let p = choose|p: int| 0 <= p <= old.len() && #[trigger] old.insert(p, e) == new;
            assert forall|j: int| 0 <= j < new.len() implies new[j] == e || (j < p && new[j] == old[j]) || (j > p
                && new[j] == old[j - 1]) by {}
        },
    }
}

/// An entry of `s` is found by a lookup of its key.
pub proof fn lemma_finds_entry<K: StaticBounded, V>(s: Seq<Entry<K, V>>, i: int)
    requires
        0 <= i < s.len(),
    ensures
        finds(s, s[i].key.key_int(), Some(s[i].value)),
{
}


/// The law of a split insert: a sorted node `n` is cut at its middle, the
/// entry goes to the lower half `lo` when its key is below the middle key and
/// to the upper half `up` otherwise. Then the first key of `up` is a fence:
/// every key of `lo` is below it and every key of `up` is at least it; a
/// lookup of the inserted key in the half its key falls to by the fence
/// finds the inserted value, and a lookup of any other key of `n` in the half
/// its key falls to finds the value it had.
pub proof fn lemma_split_routes<K: StaticBounded, V>(
    n: Seq<Entry<K, V>>,
    key: K,
    value: V,
    lo: Seq<Entry<K, V>>,
    up: Seq<Entry<K, V>>,
)
    requires
        n.len() > 0,
        sorted_keys(entry_keys(n)),
        sorted_keys(entry_keys(up)),
        up.len() > 0,
        key.key_int() < n[(n.len() / 2) as int].key.key_int() ==> {
            &&& exists|rv: Option<V>| #[trigger] inserted(n.take((n.len() / 2) as int), lo, key, value, rv)
            &&& up == n.skip((n.len() / 2) as int)
        },
        key.key_int() >= n[(n.len() / 2) as int].key.key_int() ==> {
            &&& lo == n.take((n.len() / 2) as int)
            &&& exists|rv: Option<V>| #[trigger] inserted(n.skip((n.len() / 2) as int), up, key, value, rv)
        },
    ensures
        forall|i: int| 0 <= i < lo.len() ==> (#[trigger] lo[i]).key.key_int() < up[0].key.key_int(),
        forall|i: int| 0 <= i < up.len() ==> (#[trigger] up[i]).key.key_int() >= up[0].key.key_int(),
        finds(if key.key_int() < up[0].key.key_int() { lo } else { up }, key.key_int(), Some(value)),
        forall|i: int|
            0 <= i < n.len() && n[i].key.key_int() != key.key_int() ==> finds(
                if n[i].key.key_int() < up[0].key.key_int() { lo } else { up },
                #[trigger] n[i].key.key_int(),
                Some(n[i].value),
            ),
{
    let m = (n.len() / 2) as int;
    let c = n[m].key.key_int();
    let take = n.take(m);
    let skip = n.skip(m);
    assert forall|i: int| 0 <= i < take.len() implies (#[trigger] take[i]).key.key_int() < c by {
        lemma_sorted_at(n, i, m);
    }
    assert forall|i: int| 0 <= i < skip.len() implies (#[trigger] skip[i]).key.key_int() >= c by {
        if i > 0 {
            lemma_sorted_at(n, m, m + i);
        }
    }
    assert(skip[0] == n[m]);
    if key.key_int() < c {
        let rv = choose|rv: Option<V>| #[trigger] inserted(take, lo, key, value, rv);
        lemma_inserted_bound(take, lo, key, value, rv, c);
        lemma_inserted_lookup(take, lo, key, value, rv, key.key_int(), None);
        assert(up[0].key.key_int() == c);
        assert forall|i: int|
            0 <= i < n.len() && n[i].key.key_int() != key.key_int() implies finds(
            if n[i].key.key_int() < up[0].key.key_int() { lo } else { up },
            #[trigger] n[i].key.key_int(),
            Some(n[i].value),
        ) by {
            if i < m {
                assert(take[i] == n[i]);
                lemma_finds_entry(take, i);
                lemma_inserted_lookup(take, lo, key, value, rv, n[i].key.key_int(), Some(n[i].value));
            } else {
                if i > m {
                    lemma_sorted_at(n, m, i);
                }
                assert(skip[i - m] == n[i]);
                lemma_finds_entry(skip, i - m);
            }
        }
    } else {
        let rv = choose|rv: Option<V>| #[trigger] inserted(skip, up, key, value, rv);
        lemma_inserted_bound(skip, up, key, value, rv, c);
        lemma_inserted_lookup(skip, up, key, value, rv, key.key_int(), None);
        lemma_finds_entry(skip, 0);
        lemma_inserted_lookup(skip, up, key, value, rv, c, Some(n[m].value));
        let g = if key.key_int() == c {
            choose|g: int| 0 <= g < up.len() && #[trigger] up[g].key.key_int() == key.key_int() && up[g].value == value
        } else {
            choose|g: int| 0 <= g < up.len() && #[trigger] up[g].key.key_int() == c && up[g].value == n[m].value
        };
        assert(up[g].key.key_int() == c);
        if g > 0 {
            lemma_sorted_at(up, 0, g);
        }
        assert(up[0].key.key_int() == c);
        assert forall|i: int|
            0 <= i < n.len() && n[i].key.key_int() != key.key_int() implies finds(
            if n[i].key.key_int() < up[0].key.key_int() { lo } else { up },
            #[trigger] n[i].key.key_int(),
            Some(n[i].value),
        ) by {
            if i < m {
                assert(take[i] == n[i]);
                lemma_finds_entry(take, i);
            } else {
                if i > m {
                    lemma_sorted_at(n, m, i);
                }
                assert(skip[i - m] == n[i]);
                lemma_finds_entry(skip, i - m);
                lemma_inserted_lookup(skip, up, key, value, rv, n[i].key.key_int(), Some(n[i].value));
            }
        }
    }
}

/// A node of a B-tree: at most `FANOUT` entries, sorted by key, no key twice.
pub struct BTreeNode<K, V, const FANOUT: usize> {
    inner: Vec<Entry<K, V>>,
}

impl<K, V, const FANOUT: usize> View for BTreeNode<K, V, FANOUT> {
    type V = Seq<Entry<K, V>>;

    closed spec fn view(&self) -> Seq<Entry<K, V>> {
        self.inner@
    }
}

/// Inserts an entry into entries sorted by key: replaces the value of an entry
/// with the same key, and returns the value it held, or puts the entry where
/// its key belongs.
pub fn insert_sorted<K: StaticBounded, V>(entries: &mut Vec<Entry<K, V>>, key: K, value: V) -> (r: Option<V>)
    requires
        sorted_keys(entry_keys(old(entries)@)),
    ensures
        sorted_keys(entry_keys(final(entries)@)),
        inserted(old(entries)@, final(entries)@, key, value, r),
{
    let ghost s = entry_keys(entries@);
    let ghost o = entries@;
    match BinarySearch::search_by_key(entries.as_slice(), &key) {
        Ok(i) => {
            let prev = entries.remove(i);
            entries.insert(i, Entry::new(key, value));
            proof {
                assert(s[i as int] == o[i as int].key.key_int());
                assert(entries@ =~= o.update(i as int, Entry { key, value }));
                let t = entry_keys(entries@);
                assert forall|a: int, b: int| 0 <= a < b < t.len() implies t[a] < t[b] by {
                    assert(t[a] == s[a] && t[b] == s[b]);
                }
            }
            Some(prev.value)
        },
        Err(i) => {
            proof {
                assert forall|j: int| 0 <= j < o.len() implies #[trigger] o[j].key.key_int()
                    != key.key_int() by {
                    assert(s[j] == o[j].key.key_int());
                }
            }
            entries.insert(i, Entry::new(key, value));
            proof {
                let t = entry_keys(entries@);
                assert(entries@ == o.insert(i as int, Entry { key, value }));
                assert forall|a: int, b: int| 0 <= a < b < t.len() implies t[a] < t[b] by {
                    if b < i {
                        assert(t[a] == s[a] && t[b] == s[b]);
                    } else if b == i {
                        assert(t[a] == s[a]);
                    } else if a < i {
                        assert(t[a] == s[a] && t[b] == s[b - 1]);
                    } else if a == i {
                        assert(t[b] == s[b - 1]);
                    } else {
                        assert(t[a] == s[a - 1] && t[b] == s[b - 1]);
                    }
                }
            }
            None
        },
    }
}

impl<K: StaticBounded, V, const FANOUT: usize> BTreeNode<K, V, FANOUT> {
    /// The entries are sorted by key, no key is there twice, and there are at
    /// most `FANOUT` of them.
    pub open spec fn wf(&self) -> bool {
        &&& sorted_keys(entry_keys(self@))
        &&& self@.len() <= FANOUT
    }

    /// A node without entries.
    pub fn empty() -> (r: Self)
        ensures
            r.wf(),
            r@ == Seq::<Entry<K, V>>::empty(),
    {
        Self { inner: Vec::new() }
    }

    /// The entries, in key order.
    pub fn entries(&self) -> (r: &[Entry<K, V>])
        ensures
            r@ == self@,
    {
        self.inner.as_slice()
    }

    /// Whether the node holds no entry.
    pub fn is_empty(&self) -> (r: bool)
        ensures
            r == (self@.len() == 0),
    {
        self.inner.len() == 0
    }

    /// Whether the node holds `FANOUT` entries.
    pub fn is_full(&self) -> (r: bool)
        ensures
            r == (self@.len() >= FANOUT),
    {
        self.inner.len() >= FANOUT
    }

    /// Whether the node holds at least half of `FANOUT` entries.
    pub fn is_half_full(&self) -> (r: bool)
        ensures
            r == (self@.len() >= FANOUT / 2),
    {
        self.inner.len() >= FANOUT / 2
    }

    /// The smallest key of the node, or the smallest key there is when the node
    /// is empty.
    pub fn min(&self) -> (r: K)
        ensures
            self@.len() == 0 ==> r == K::min_key(),
            self@.len() > 0 ==> r == self@[0].key,
    {
        if self.is_empty() {
            K::min_ref()
        } else {
            self.inner[0].key
        }
    }

    /// The value of the last entry whose key is at most `key`; the first
    /// entry's value when every key is above `key`.
    pub fn search_lub(&self, key: &K) -> (r: &V)
        requires
            self.wf(),
            self@.len() > 0,
        ensures
            exists|i: int| lub_at(entry_keys(self@), key.key_int(), i) && *r == self@[i].value,
    {
        let ghost s = entry_keys(self@);
        let res = BinarySearch::search_by_key(self.inner.as_slice(), key);
        let i = match res {
            Ok(i) => i,
            Err(i) => if i == 0 { 0 } else { i - 1 },
        };
        proof {
            assert(s[i as int] == self@[i as int].key.key_int());
            assert(lub_at(s, key.key_int(), i as int));
        }
        &self.inner[i].value
    }

    /// The value of the entry with key `key`, if there is one.
    pub fn search_exact(&self, key: &K) -> (r: Option<&V>)
        requires
            self.wf(),
        ensures
            match r {
                Some(v) => exists|i: int|
                    0 <= i < self@.len() && #[trigger] self@[i].key.key_int() == key.key_int() && *v == self@[i].value,
                None => forall|i: int| 0 <= i < self@.len() ==> #[trigger] self@[i].key.key_int() != key.key_int(),
            },
    {
        let ghost s = entry_keys(self@);
        match BinarySearch::search_by_key(self.inner.as_slice(), key) {
            Ok(i) => {
                proof {
                    assert(s[i as int] == self@[i as int].key.key_int());
                }
                Some(&self.inner[i].value)
            },
            Err(i) => {
                proof {
                    assert forall|j: int| 0 <= j < self@.len() implies #[trigger] self@[j].key.key_int()
                        != key.key_int() by {
                        assert(s[j] == self@[j].key.key_int());
                    }
                }
                None
            },
        }
    }

    /// Inserts an item and return the previous value if it exists.
    pub fn insert(&mut self, key: K, value: V) -> (r: Option<V>)
        requires
            old(self).wf(),
            old(self)@.len() < FANOUT || exists|i: int|
                0 <= i < old(self)@.len() && #[trigger] old(self)@[i].key.key_int() == key.key_int(),
        ensures
            final(self).wf(),
            inserted(old(self)@, final(self)@, key, value, r),
    {
        insert_sorted(&mut self.inner, key, value)
    }

    /// Moves the upper half of the entries (from index `len / 2` on) into a new
    /// node, and returns the first key of that half with the new node.
    pub fn split(&mut self) -> (r: (K, Self))
        requires
            old(self).wf(),
            old(self)@.len() > 0,
        ensures
            final(self).wf(),
            r.1.wf(),
            final(self)@ == old(self)@.subrange(0, (old(self)@.len() / 2) as int),
            r.1@ == old(self)@.subrange((old(self)@.len() / 2) as int, old(self)@.len() as int),
            r.0 == old(self)@[(old(self)@.len() / 2) as int].key,
    {
        let ghost o = self@;
        let ghost s = entry_keys(o);
        let mid = self.inner.len() / 2;
        let upper = self.inner.split_off(mid);
        let key = upper[0].key;
        proof {
            let t = entry_keys(self@);
            assert forall|a: int, b: int| 0 <= a < b < t.len() implies t[a] < t[b] by {
                assert(t[a] == s[a] && t[b] == s[b]);
            }
            let u = entry_keys(upper@);
            assert forall|a: int, b: int| 0 <= a < b < u.len() implies u[a] < u[b] by {
                assert(u[a] == s[a + mid] && u[b] == s[b + mid]);
            }
        }
        (key, Self { inner: upper })
    }
}

impl<K: StaticBounded, V, const FANOUT: usize> BTreeNode<K, V, FANOUT> {
    /// After an insert of `key` with `value` into a node, a lookup of `key`
    /// finds `value`, one of any other key finds what it found before, and the
    /// insert returns what a lookup of `key` found before.
    pub proof fn lemma_insert_then_search(
        before: Self,
        after: Self,
        key: K,
        value: V,
        r: Option<V>,
        other: int,
        found: Option<V>,
    )
        requires
            before.wf(),
            after.wf(),
            inserted(before@, after@, key, value, r),
        ensures
            finds(after@, key.key_int(), Some(value)),
            finds(before@, key.key_int(), r),
            other != key.key_int() ==> (finds(after@, other, found) <==> finds(before@, other, found)),
    {
        lemma_inserted_lookup(before@, after@, key, value, r, other, found);
    }
}

impl<K: StaticBounded, V, const FANOUT: usize> KeyBounded<K> for BTreeNode<K, V, FANOUT> {
    open spec fn bound_of(&self) -> K {
        if self@.len() == 0 {
            K::min_key()
        } else {
            self@[0].key
        }
    }

    fn lower_bound(&self) -> (r: K) {
        self.min()
    }
}

} // verus!
