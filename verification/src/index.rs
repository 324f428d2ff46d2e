//! A hybrid index built from a layout of B-tree components: a top
//! sorted directory, internal layers of nodes that route a key down, and a base
//! layer of nodes that hold the entries. Each layer above another holds one
//! entry per node below: the node's lower fence and its position.
use vstd::prelude::*;
use crate::entry::Entry;
use crate::flat::{lemma_flatten_index, lemma_flatten_insert, lemma_flatten_split, lemma_flatten_update, lemma_locate, lemma_offset_mono, lemma_offset_step, offset, split_node};
use crate::layout::{BaseComponent, HybridLayout, InternalComponent};
use crate::node::{entry_keys, finds, inserted, lemma_inserted_lookup, lub_at};
use crate::search::{is_search_result, key_seq, sorted_keys, BinarySearch, Search};
use crate::traits::{KeyBounded, StaticBounded};

verus! {

/// The integer of the key of entry `m` of node `j`.
pub open spec fn nkey<K: StaticBounded, X>(nodes: Seq<Seq<Entry<K, X>>>, j: int, m: int) -> int {
    nodes[j][m].key.key_int()
}

/// Every key of node `j` lies between fence `j` (included) and fence `j + 1`
/// (excluded, when there is one).
pub open spec fn covers<K: StaticBounded, X>(nodes: Seq<Seq<Entry<K, X>>>, fences: Seq<int>) -> bool {
    &&& nodes.len() == fences.len()
    &&& forall|j: int, m: int|
        0 <= j < nodes.len() && 0 <= m < nodes[j].len() ==> fences[j] <= #[trigger] nkey(nodes, j, m) && (j + 1
            < fences.len() ==> nkey(nodes, j, m) < fences[j + 1])
}

/// Entry `j` of `parent` stands for node `j` of `child`: its value is `j`, its
/// key the node's fence; the fences increase and the first is the smallest key.
pub open spec fn parent_of<K: StaticBounded, X>(parent: Seq<Entry<K, usize>>, child: Seq<Seq<Entry<K, X>>>) -> bool {
    &&& parent.len() == child.len()
    &&& parent.len() >= 1
    &&& forall|j: int| 0 <= j < parent.len() ==> (#[trigger] parent[j]).value == j
    &&& sorted_keys(entry_keys(parent))
    &&& parent[0].key.key_int() == K::min_key().key_int()
    &&& covers(child, entry_keys(parent))
}

/// Every node of `child` starts with its fence.
pub open spec fn heads<K: StaticBounded, X>(child: Seq<Seq<Entry<K, X>>>, fences: Seq<int>) -> bool {
    forall|j: int| 0 <= j < child.len() ==> (#[trigger] child[j]).len() >= 1 && child[j][0].key.key_int() == fences[j]
}

/// Every node is sorted and holds at most `fanout` entries.
pub open spec fn bounded<K: StaticBounded, X>(nodes: Seq<Seq<Entry<K, X>>>, fanout: int) -> bool {
    forall|j: int| 0 <= j < nodes.len() ==> (#[trigger] nodes[j]).len() <= fanout && sorted_keys(entry_keys(nodes[j]))
}

/// Some entry has key `k`.
pub open spec fn has_key<K: StaticBounded, X>(s: Seq<Entry<K, X>>, k: int) -> bool {
    exists|g: int| 0 <= g < s.len() && (#[trigger] s[g]).key.key_int() == k
}

/// Finds the slot that a lookup of `key` lands on in a sorted non-empty node.
fn lub_index<K: StaticBounded, X>(node: &Vec<Entry<K, X>>, key: &K) -> (i: usize)
    requires
        node@.len() > 0,
        sorted_keys(entry_keys(node@)),
    ensures
        lub_at(entry_keys(node@), key.key_int(), i as int),
{
    let ghost s = entry_keys(node@);
    let res = BinarySearch::search_by_key(node.as_slice(), key);
    let i = match res {
        Ok(i) => i,
        Err(i) => if i == 0 { 0 } else { i - 1 },
    };
    proof {
        assert(s[i as int] == node@[i as int].key.key_int());
    }
    i
}

/// Puts `key` with `value` into a sorted node: replaces the entry of `key`
/// (returning its value) or inserts a new one where it keeps the order. Also
/// returns the slot used.
fn sorted_insert<K: StaticBounded, X>(node: &mut Vec<Entry<K, X>>, key: K, value: X) -> (r: (Option<X>, usize))
    requires
        sorted_keys(entry_keys(old(node)@)),
    ensures
        sorted_keys(entry_keys(final(node)@)),
        r.1 <= old(node)@.len(),
        match r.0 {
            Some(prev) => {
                &&& r.1 < old(node)@.len()
                &&& old(node)@[r.1 as int].key.key_int() == key.key_int()
                &&& prev == old(node)@[r.1 as int].value
                &&& final(node)@ == old(node)@.update(r.1 as int, Entry { key, value })
            },
            None => {
                &&& !has_key(old(node)@, key.key_int())
                &&& final(node)@ == old(node)@.insert(r.1 as int, Entry { key, value })
            },
        },
{
    let ghost s = entry_keys(node@);
    let ghost o = node@;
    match BinarySearch::search_by_key(node.as_slice(), &key) {
        Ok(i) => {
            let prev = node.remove(i);
            node.insert(i, Entry::new(key, value));
            proof {
                assert(s[i as int] == o[i as int].key.key_int());
                assert(node@ =~= o.update(i as int, Entry { key, value }));
                let t = entry_keys(node@);
                assert forall|a: int, b: int| 0 <= a < b < t.len() implies t[a] < t[b] by {
                    assert(t[a] == s[a] && t[b] == s[b]);
                }
            }
            (Some(prev.value), i)
        },
        Err(i) => {
            proof {
                assert forall|j: int| 0 <= j < o.len() implies (#[trigger] o[j]).key.key_int() != key.key_int() by {
                    assert(s[j] == o[j].key.key_int());
                }
            }
            node.insert(i, Entry::new(key, value));
            proof {
                let t = entry_keys(node@);
                assert(node@ == o.insert(i as int, Entry { key, value }));
                assert forall|a: int, b: int| 0 <= a < b < t.len() implies t[a] < t[b] by {
                    if b < i {
                        assert(t[a] == s[a] && t[b] == s[b]);
                    } else if b == i {
                        assert(t[a] == s[a]);
                    } else if a < i {
                        assert(t[a] == s[a] && t[b] == s[b - 1]);
                    } else if a == i {
                        assert(t[b] == s[b - 1]);
                    } else {
                        assert(t[a] == s[a - 1] && t[b] == s[b - 1]);
                    }
                }
            }
            (None, i)
        },
    }
}



/// The contents of a sequence of vectors.
pub open spec fn vviews<T>(v: Seq<Vec<T>>) -> Seq<Seq<T>> {
    v.map_values(|n: Vec<T>| n@)
}

/// Cuts node `p` in two at its middle; the upper half becomes node `p + 1`.
/// Returns the first key of the upper half.
fn split_layer<K: StaticBounded, X>(nodes: &mut Vec<Vec<Entry<K, X>>>, p: usize) -> (s: K)
    requires
        p < old(nodes)@.len(),
        old(nodes)@[p as int]@.len() >= 2,
    ensures
        ({
            let o = vviews(old(nodes)@);
            let mid = (o[p as int].len() / 2) as int;
            &&& vviews(final(nodes)@) == split_node(o, p as int, o[p as int].take(mid), o[p as int].skip(mid))
            &&& s == o[p as int][mid].key
        }),
{
    let ghost o = vviews(nodes@);
    let len = nodes.len();
    assert(p < len);
    let mut node = nodes.remove(p);
    let mid = node.len() / 2;
    let right = node.split_off(mid);
    let s = right[0].key;
    nodes.insert(p, node);
    nodes.insert(p + 1, right);
    proof {
        let m = (o[p as int].len() / 2) as int;
        assert(vviews(nodes@) =~= split_node(o, p as int, o[p as int].take(m), o[p as int].skip(m)));
    }
    s
}

/// Puts entry `e` at slot `i` of node `p`.
fn insert_in_node<K: StaticBounded, X>(nodes: &mut Vec<Vec<Entry<K, X>>>, p: usize, i: usize, e: Entry<K, X>)
    requires
        p < old(nodes)@.len(),
        i <= old(nodes)@[p as int]@.len(),
    ensures
        vviews(final(nodes)@) == vviews(old(nodes)@).update(p as int, old(nodes)@[p as int]@.insert(i as int, e)),
{
    let ghost o = vviews(nodes@);
    let mut node = nodes.remove(p);
    node.insert(i, e);
    nodes.insert(p, node);
    proof {
        assert(vviews(nodes@) =~= o.update(p as int, o[p as int].insert(i as int, e)));
    }
}

/// Puts `key` with `value` into node `p` where it keeps the node sorted.
fn sorted_insert_in_node<K: StaticBounded, X>(nodes: &mut Vec<Vec<Entry<K, X>>>, p: usize, key: K, value: X) -> (r: (
    Option<X>,
    usize,
))
    requires
        p < old(nodes)@.len(),
        sorted_keys(entry_keys(old(nodes)@[p as int]@)),
    ensures
        ({
            let o = vviews(old(nodes)@);
            let n = vviews(final(nodes)@);
            &&& n.len() == o.len()
            &&& n == o.update(p as int, n[p as int])
            &&& sorted_keys(entry_keys(n[p as int]))
            &&& r.1 <= o[p as int].len()
            &&& match r.0 {
                Some(prev) => {
                    &&& r.1 < o[p as int].len()
                    &&& o[p as int][r.1 as int].key.key_int() == key.key_int()
                    &&& prev == o[p as int][r.1 as int].value
                    &&& n[p as int] == o[p as int].update(r.1 as int, Entry { key, value })
                },
                None => {
                    &&& !has_key(o[p as int], key.key_int())
                    &&& n[p as int] == o[p as int].insert(r.1 as int, Entry { key, value })
                },
            }
        }),
{
    let ghost o = vviews(nodes@);
    let mut node = nodes.remove(p);
    let r = sorted_insert(&mut node, key, value);
    nodes.insert(p, node);
    proof {
        assert(vviews(nodes@) =~= o.update(p as int, node@));
    }
    r
}

/// Gives every entry of the layer its position among all entries as value.
fn renumber<K: StaticBounded>(nodes: &mut Vec<Vec<Entry<K, usize>>>)
    requires
        vviews(old(nodes)@).flatten().len() <= usize::MAX,
    ensures
        ({
            let o = vviews(old(nodes)@);
            let n = vviews(final(nodes)@);
            &&& n.len() == o.len()
            &&& forall|j: int| 0 <= j < o.len() ==> (#[trigger] n[j]).len() == o[j].len()
            &&& forall|j: int, m: int|
                0 <= j < o.len() && 0 <= m < o[j].len() ==> (#[trigger] n[j][m]).key == o[j][m].key && n[j][m].value
                    == offset(o, j) + m
        }),
{
    let ghost o = vviews(nodes@);
    let mut out: Vec<Vec<Entry<K, usize>>> = Vec::new();
    let mut counter: usize = 0;
    let mut j: usize = 0;
    proof {
        assert(o.take(0) =~= Seq::<Seq<Entry<K, usize>>>::empty());
        lemma_offset_mono(o, 0, o.len() as int);
    }
    while j < nodes.len()
        invariant
            o == vviews(nodes@),
            o.flatten().len() <= usize::MAX,
            0 <= j <= o.len(),
            out@.len() == j,
            counter == offset(o, j as int),
            forall|q: int| 0 <= q < j ==> (#[trigger] vviews(out@)[q]).len() == o[q].len(),
            forall|q: int, m: int|
                0 <= q < j && 0 <= m < o[q].len() ==> (#[trigger] vviews(out@)[q][m]).key == o[q][m].key && vviews(
                    out@,
                )[q][m].value == offset(o, q) + m,
        decreases o.len() - j,
    {
        let node = &nodes[j];
        let mut fresh: Vec<Entry<K, usize>> = Vec::new();
        let mut m: usize = 0;
        proof {
            lemma_offset_step(o, j as int);
            lemma_offset_mono(o, j as int + 1, o.len() as int);
        }
        while m < node.len()
            invariant
                node@ == o[j as int],
                0 <= m <= node@.len(),
                counter + node@.len() <= usize::MAX,
                fresh@.len() == m,
                forall|t: int| 0 <= t < m ==> (#[trigger] fresh@[t]).key == node@[t].key && fresh@[t].value == counter + t,
            decreases node@.len() - m,
        {
            fresh.push(Entry::new(node[m].key, counter + m));
            m += 1;
        }
        let ghost before = vviews(out@);
        out.push(fresh);
        proof {
            assert(vviews(out@) =~= before.push(fresh@));
        }
        counter = counter + node.len();
        j += 1;
    }
    *nodes = out;
}

/// Gives every entry of the directory its position as value.
fn renumber_top<K: StaticBounded>(top: &mut Vec<Entry<K, usize>>)
    ensures
        final(top)@.len() == old(top)@.len(),
        forall|j: int| 0 <= j < old(top)@.len() ==> (#[trigger] final(top)@[j]).key == old(top)@[j].key && final(top)@[j].value == j,
{
    let mut out: Vec<Entry<K, usize>> = Vec::new();
    let mut j: usize = 0;
    while j < top.len()
        invariant
            0 <= j <= top@.len(),
            out@.len() == j,
            forall|t: int| 0 <= t < j ==> (#[trigger] out@[t]).key == top@[t].key && out@[t].value == t,
        decreases top@.len() - j,
    {
        out.push(Entry::new(top[j].key, j));
        j += 1;
    }
    *top = out;
}

/// A lookup of a key in a node that covers it lands on the entry of the child
/// node that covers it.
proof fn lemma_descend<K: StaticBounded, X>(
    nodes: Seq<Seq<Entry<K, usize>>>,
    above: Seq<Entry<K, usize>>,
    child: Seq<Seq<Entry<K, X>>>,
    c: int,
    k: int,
    i: int,
)
    requires
        parent_of(above, nodes),
        heads(nodes, entry_keys(above)),
        forall|j: int| 0 <= j < nodes.len() ==> sorted_keys(entry_keys(#[trigger] nodes[j])),
        parent_of(nodes.flatten(), child),
        0 <= c < nodes.len(),
        entry_keys(above)[c] <= k,
        c + 1 < above.len() ==> k < entry_keys(above)[c + 1],
        lub_at(entry_keys(nodes[c]), k, i),
    ensures
        ({
            let g = offset(nodes, c) + i;
            let pf = nodes.flatten();
            &&& 0 <= g < child.len()
            &&& nodes[c][i].value == g
            &&& entry_keys(pf)[g] <= k
            &&& g + 1 < child.len() ==> k < entry_keys(pf)[g + 1]
        }),
{
    let pf = nodes.flatten();
    let g = offset(nodes, c) + i;
    lemma_flatten_index(nodes, c, i);
    assert(pf[g] == nodes[c][i]);
    assert(entry_keys(nodes[c])[i] == nodes[c][i].key.key_int());
    if i == 0 {
        assert(nodes[c][0].key.key_int() == entry_keys(above)[c]);
    }
    lemma_offset_step(nodes, c);
    lemma_offset_mono(nodes, c + 1, nodes.len() as int);
    if g + 1 < child.len() {
        if i + 1 < nodes[c].len() {
            lemma_flatten_index(nodes, c, i + 1);
            assert(entry_keys(nodes[c])[i + 1] == nodes[c][i + 1].key.key_int());
        } else {
            if c + 1 == nodes.len() {
                assert(false);
            }
            assert(nodes[c + 1].len() >= 1);
            lemma_flatten_index(nodes, c + 1, 0);
            assert(nodes[c + 1][0].key.key_int() == entry_keys(above)[c + 1]);
        }
    }
}

/// A lookup of a key in the top directory lands on the entry of the node that
/// covers it.
proof fn lemma_descend_top<K: StaticBounded, X>(top: Seq<Entry<K, usize>>, child: Seq<Seq<Entry<K, X>>>, key: K, c: int)
    requires
        parent_of(top, child),
        lub_at(entry_keys(top), key.key_int(), c),
    ensures
        0 <= c < child.len(),
        top[c].value == c,
        entry_keys(top)[c] <= key.key_int(),
        c + 1 < child.len() ==> key.key_int() < entry_keys(top)[c + 1],
{
    K::lemma_key_range(key);
    assert(entry_keys(top)[0] == top[0].key.key_int());
}

/// Only the node that covers a key can hold it.
proof fn lemma_key_in_node<K: StaticBounded, X>(nodes: Seq<Seq<Entry<K, X>>>, fences: Seq<int>, b: int, k: int)
    requires
        covers(nodes, fences),
        sorted_keys(fences),
        0 <= b < nodes.len(),
        fences[b] <= k,
        b + 1 < nodes.len() ==> k < fences[b + 1],
    ensures
        forall|g: int|
            0 <= g < nodes.flatten().len() && (#[trigger] nodes.flatten()[g]).key.key_int() == k ==> offset(nodes, b)
                <= g < offset(nodes, b + 1),
{
    assert forall|g: int|
        0 <= g < nodes.flatten().len() && (#[trigger] nodes.flatten()[g]).key.key_int() == k implies offset(nodes, b)
            <= g < offset(nodes, b + 1) by {
        lemma_offset_mono(nodes, 0, nodes.len() as int);
        assert(nodes.take(0).flatten().len() == 0) by {
            assert(nodes.take(0) =~= Seq::<Seq<Entry<K, X>>>::empty());
        }
        let q = lemma_locate(nodes, g, 0);
        let m = g - offset(nodes, q);
        lemma_flatten_index(nodes, q, m);
        assert(nkey(nodes, q, m) == k);
        if q < b {
            assert(fences[q + 1] <= fences[b]) by {
                if q + 1 < b {
                    assert(fences[q + 1] < fences[b]);
                }
            }
        } else if q > b {
            assert(fences[b + 1] <= fences[q]) by {
                if b + 1 < q {
                    assert(fences[b + 1] < fences[q]);
                }
            }
        }
    }
}

/// The entries of nodes that a fenced layer covers are sorted.
proof fn lemma_covered_sorted<K: StaticBounded, X>(nodes: Seq<Seq<Entry<K, X>>>, fences: Seq<int>)
    requires
        covers(nodes, fences),
        sorted_keys(fences),
        forall|j: int| 0 <= j < nodes.len() ==> sorted_keys(entry_keys(#[trigger] nodes[j])),
    ensures
        sorted_keys(entry_keys(nodes.flatten())),
{
    let f = nodes.flatten();
    let t = entry_keys(f);
    lemma_offset_mono(nodes, 0, nodes.len() as int);
    assert(nodes.take(0) =~= Seq::<Seq<Entry<K, X>>>::empty());
    assert forall|a: int, b: int| 0 <= a < b < t.len() implies t[a] < t[b] by {
        let qa = lemma_locate(nodes, a, 0);
        let qb = lemma_locate(nodes, b, 0);
        let ma = a - offset(nodes, qa);
        let mb = b - offset(nodes, qb);
        lemma_flatten_index(nodes, qa, ma);
        lemma_flatten_index(nodes, qb, mb);
        assert(t[a] == nkey(nodes, qa, ma));
        assert(t[b] == nkey(nodes, qb, mb));
        if qa == qb {
            assert(entry_keys(nodes[qa])[ma] < entry_keys(nodes[qa])[mb]);
        } else if qa < qb {
            assert(fences[qa + 1] <= fences[qb]) by {
                if qa + 1 < qb {
                    assert(fences[qa + 1] < fences[qb]);
                }
            }
        } else {
            lemma_offset_step(nodes, qb);
            lemma_offset_mono(nodes, qb + 1, qa);
        }
    }
}


/// Node `c` of `child` was cut in two, the upper part starting at key `s`:
/// `parent` stands for the nodes as they were, and with an entry of key `s`
/// after its entry `c` its keys would fence them as they are.
pub open spec fn pending_of<K: StaticBounded, X>(parent: Seq<Entry<K, usize>>, child: Seq<Seq<Entry<K, X>>>, c: int, s: int) -> bool {
    let f = entry_keys(parent);
    &&& child.len() == parent.len() + 1
    &&& parent.len() >= 1
    &&& sorted_keys(f)
    &&& parent[0].key.key_int() == K::min_key().key_int()
    &&& 0 <= c < parent.len()
    &&& f[c] < s
    &&& c + 1 < parent.len() ==> s < f[c + 1]
    &&& covers(child, f.insert(c + 1, s))
}

/// A sorted sequence stays sorted when `x` goes in at a place between its
/// neighbours.
proof fn lemma_sorted_insert_between(f: Seq<int>, at: int, x: int)
    requires
        sorted_keys(f),
        0 <= at <= f.len(),
        at > 0 ==> f[at - 1] < x,
        at < f.len() ==> x < f[at],
    ensures
        sorted_keys(f.insert(at, x)),
{
    let t = f.insert(at, x);
    assert forall|a: int, b: int| 0 <= a < b < t.len() implies t[a] < t[b] by {
        if b < at {
            assert(t[a] == f[a] && t[b] == f[b]);
        } else if b == at {
            assert(t[a] == f[a]);
            if a < at - 1 {
                assert(f[a] < f[at - 1]);
            }
        } else if a < at {
            assert(t[a] == f[a] && t[b] == f[b - 1]);
            if a < at - 1 {
                assert(f[a] < f[at - 1]);
            }
            if b - 1 > at {
                assert(f[at] < f[b - 1]);
            }
        } else if a == at {
            assert(t[b] == f[b - 1]);
            if b - 1 > at {
                assert(f[at] < f[b - 1]);
            }
        } else {
            assert(t[a] == f[a - 1] && t[b] == f[b - 1]);
        }
    }
}

/// The keys of entries, with one more entry put in, are the keys with its key
/// put in.
proof fn lemma_keys_insert<K: StaticBounded, X>(s: Seq<Entry<K, X>>, at: int, e: Entry<K, X>)
    requires
        0 <= at <= s.len(),
    ensures
        entry_keys(s.insert(at, e)) == entry_keys(s).insert(at, e.key.key_int()),
{
    assert(entry_keys(s.insert(at, e)) =~= entry_keys(s).insert(at, e.key.key_int()));
}

/// An entry of key `s` put after entry `c` (slot `i` of node `p`) of a layer
/// whose child node `c` was cut at `s`: the layer then fences its child layer,
/// and it still fits the fences above it.
proof fn lemma_fence_insert<K: StaticBounded, X>(
    nodes: Seq<Seq<Entry<K, usize>>>,
    gf: Seq<int>,
    child: Seq<Seq<Entry<K, X>>>,
    p: int,
    i: int,
    s: K,
    fanout: int,
    need_heads: bool,
)
    requires
        covers(nodes, gf),
        heads(nodes, gf),
        sorted_keys(gf),
        bounded(nodes, fanout),
        0 <= p < nodes.len(),
        0 <= i < nodes[p].len(),
        nodes[p].len() < fanout,
        pending_of(nodes.flatten(), child, offset(nodes, p) + i, s.key_int()),
        need_heads ==> heads(child, entry_keys(nodes.flatten()).insert(offset(nodes, p) + i + 1, s.key_int())),
    ensures
        ({
            let e = Entry { key: s, value: 0usize };
            let n2 = nodes.update(p, nodes[p].insert(i + 1, e));
            let f2 = entry_keys(n2.flatten());
            &&& f2 == entry_keys(nodes.flatten()).insert(offset(nodes, p) + i + 1, s.key_int())
            &&& sorted_keys(f2)
            &&& n2.flatten().len() == child.len()
            &&& n2.flatten()[0].key.key_int() == K::min_key().key_int()
            &&& covers(child, f2)
            &&& need_heads ==> heads(child, f2)
            &&& covers(n2, gf)
            &&& heads(n2, gf)
            &&& bounded(n2, fanout)
        }),
{
    let e = Entry { key: s, value: 0usize };
    let n2 = nodes.update(p, nodes[p].insert(i + 1, e));
    let pf = nodes.flatten();
    let f = entry_keys(pf);
    let c = offset(nodes, p) + i;
    let sk = s.key_int();
    lemma_flatten_insert(nodes, p, i + 1, e);
    lemma_keys_insert(pf, c + 1, e);
    lemma_flatten_index(nodes, p, i);
    assert(f[c] == nodes[p][i].key.key_int());
    lemma_offset_step(nodes, p);
    lemma_offset_mono(nodes, p + 1, nodes.len() as int);
    // The key after entry c, where there is one, is above s.
    let nk = entry_keys(nodes[p]);
    if i + 1 < nodes[p].len() {
        lemma_flatten_index(nodes, p, i + 1);
        assert(f[c + 1] == nodes[p][i + 1].key.key_int());
        assert(nk[i + 1] == nodes[p][i + 1].key.key_int());
    }
    if p + 1 < nodes.len() {
        assert(nodes[p + 1].len() >= 1);
        if i + 1 == nodes[p].len() {
            lemma_flatten_index(nodes, p + 1, 0);
            assert(f[c + 1] == gf[p + 1]);
        }
    }
    lemma_sorted_insert_between(f, c + 1, sk);
    assert(nodes.flatten().insert(c + 1, e)[0] == pf[0]);
    // The node keeps its order and its fences.
    assert(nk[i] == nodes[p][i].key.key_int());
    lemma_sorted_insert_between(nk, i + 1, sk);
    lemma_keys_insert(nodes[p], i + 1, e);
    assert(gf[p] <= sk) by {
        assert(gf[p] <= nkey(nodes, p, i));
    }
    assert(p + 1 < gf.len() ==> sk < gf[p + 1]) by {
        if p + 1 < gf.len() {
            if i + 1 < nodes[p].len() {
                assert(nkey(nodes, p, i + 1) < gf[p + 1]);
            }
        }
    }
    assert forall|j: int, m: int| 0 <= j < n2.len() && 0 <= m < n2[j].len() implies gf[j] <= #[trigger] nkey(n2, j, m) && (j
        + 1 < gf.len() ==> nkey(n2, j, m) < gf[j + 1]) by {
        if j != p {
            assert(nkey(n2, j, m) == nkey(nodes, j, m));
        } else if m < i + 1 {
            assert(nkey(n2, j, m) == nkey(nodes, j, m));
        } else if m > i + 1 {
            assert(nkey(n2, j, m) == nkey(nodes, j, m - 1));
        }
    }
    assert forall|j: int| 0 <= j < n2.len() implies (#[trigger] n2[j]).len() >= 1 && n2[j][0].key.key_int() == gf[j] by {
        if j == p {
            assert(n2[j][0] == nodes[p][0]);
        }
    }
    assert forall|j: int| 0 <= j < n2.len() implies (#[trigger] n2[j]).len() <= fanout && sorted_keys(entry_keys(n2[j])) by {
        if j != p {
            assert(n2[j] == nodes[j]);
        }
    }
}

/// Cutting node `p` of a fenced layer at its middle: the layer is fenced by the
/// fences with the upper half's first key put after fence `p`.
proof fn lemma_split_fences<K: StaticBounded, X>(nodes: Seq<Seq<Entry<K, X>>>, gf: Seq<int>, p: int, has_heads: bool)
    requires
        covers(nodes, gf),
        sorted_keys(gf),
        0 <= p < nodes.len(),
        nodes[p].len() >= 2,
        sorted_keys(entry_keys(nodes[p])),
        has_heads ==> heads(nodes, gf),
    ensures
        ({
            let mid = nodes[p].len() / 2;
            let lo = nodes[p].take(mid as int);
            let hi = nodes[p].skip(mid as int);
            let n1 = split_node(nodes, p, lo, hi);
            let sp = nodes[p][mid as int].key.key_int();
            let g1 = gf.insert(p + 1, sp);
            &&& gf[p] < sp
            &&& p + 1 < gf.len() ==> sp < gf[p + 1]
            &&& sorted_keys(g1)
            &&& covers(n1, g1)
            &&& has_heads ==> heads(n1, g1)
            &&& n1.flatten() == nodes.flatten()
            &&& n1.len() == nodes.len() + 1
            &&& n1[p] == lo
            &&& n1[p + 1] == hi
            &&& sorted_keys(entry_keys(lo))
            &&& sorted_keys(entry_keys(hi))
            &&& offset(n1, p) == offset(nodes, p)
            &&& offset(n1, p + 1) == offset(nodes, p) + mid
            &&& forall|j: int| 0 <= j < p ==> #[trigger] n1[j] == nodes[j]
            &&& forall|j: int| p + 1 < j < n1.len() ==> #[trigger] n1[j] == nodes[j - 1]
        }),
{
    let mid = (nodes[p].len() / 2) as int;
    let lo = nodes[p].take(mid);
    let hi = nodes[p].skip(mid);
    let n1 = split_node(nodes, p, lo, hi);
    let k = entry_keys(nodes[p]);
    let sp = nodes[p][mid].key.key_int();
    let g1 = gf.insert(p + 1, sp);
    assert(lo + hi =~= nodes[p]);
    lemma_flatten_split(nodes, p, lo, hi);
    assert(k[0] == nodes[p][0].key.key_int());
    assert(k[mid] == sp);
    assert(gf[p] <= nkey(nodes, p, 0));
    assert(gf[p] < sp);
    assert(p + 1 < gf.len() ==> sp < gf[p + 1]) by {
        if p + 1 < gf.len() {
            assert(nkey(nodes, p, mid) < gf[p + 1]);
        }
    }
    lemma_sorted_insert_between(gf, p + 1, sp);
    assert(n1[p] == lo);
    assert(n1[p + 1] == hi);
    assert forall|j: int| 0 <= j < p implies #[trigger] n1[j] == nodes[j] by {}
    assert forall|j: int| p + 1 < j < n1.len() implies #[trigger] n1[j] == nodes[j - 1] by {}
    assert(sorted_keys(entry_keys(lo))) by {
        assert forall|a: int, b: int| 0 <= a < b < lo.len() implies entry_keys(lo)[a] < entry_keys(lo)[b] by {
            assert(entry_keys(lo)[a] == k[a] && entry_keys(lo)[b] == k[b]);
        }
    }
    assert(sorted_keys(entry_keys(hi))) by {
        assert forall|a: int, b: int| 0 <= a < b < hi.len() implies entry_keys(hi)[a] < entry_keys(hi)[b] by {
            assert(entry_keys(hi)[a] == k[a + mid] && entry_keys(hi)[b] == k[b + mid]);
        }
    }
    assert forall|j: int, m: int| 0 <= j < n1.len() && 0 <= m < n1[j].len() implies g1[j] <= #[trigger] nkey(n1, j, m) && (j
        + 1 < g1.len() ==> nkey(n1, j, m) < g1[j + 1]) by {
        if j < p {
            assert(nkey(n1, j, m) == nkey(nodes, j, m));
        } else if j == p {
            assert(nkey(n1, j, m) == nkey(nodes, p, m));
            assert(k[m] == nkey(nodes, p, m));
            assert(k[m] < k[mid]);
        } else if j == p + 1 {
            assert(nkey(n1, j, m) == nkey(nodes, p, m + mid));
            assert(k[m + mid] == nkey(nodes, p, m + mid));
            if m > 0 {
                assert(k[mid] < k[m + mid]);
            }
        } else {
            assert(nkey(n1, j, m) == nkey(nodes, j - 1, m));
        }
    }
    if has_heads {
        assert forall|j: int| 0 <= j < n1.len() implies (#[trigger] n1[j]).len() >= 1 && n1[j][0].key.key_int() == g1[j] by {
            if j < p {
            } else if j == p {
                assert(n1[j][0] == nodes[p][0]);
            } else if j == p + 1 {
                assert(n1[j][0] == nodes[p][mid]);
            } else {
                assert(n1[j] == nodes[j - 1]);
            }
        }
    }
}

/// A layer renumbered: the same nodes with the same keys, and values that are
/// the positions among all entries.
pub open spec fn renumbered<K>(o: Seq<Seq<Entry<K, usize>>>, n: Seq<Seq<Entry<K, usize>>>) -> bool {
    &&& n.len() == o.len()
    &&& forall|j: int| 0 <= j < o.len() ==> (#[trigger] n[j]).len() == o[j].len()
    &&& forall|j: int, m: int|
        0 <= j < o.len() && 0 <= m < o[j].len() ==> (#[trigger] n[j][m]).key == o[j][m].key && n[j][m].value == offset(o, j) + m
}

/// A renumbered layer has the keys of the layer, node by node and in all, and
/// each entry's value is its position.
proof fn lemma_renumbered<K: StaticBounded>(o: Seq<Seq<Entry<K, usize>>>, n: Seq<Seq<Entry<K, usize>>>)
    requires
        renumbered(o, n),
    ensures
        forall|j: int| 0 <= j < o.len() ==> entry_keys(#[trigger] n[j]) == entry_keys(o[j]),
        forall|j: int| 0 <= j <= o.len() ==> #[trigger] offset(n, j) == offset(o, j),
        entry_keys(n.flatten()) == entry_keys(o.flatten()),
        n.flatten().len() == o.flatten().len(),
        forall|g: int| 0 <= g < n.flatten().len() ==> (#[trigger] n.flatten()[g]).value == g,
{
    assert forall|j: int| 0 <= j < o.len() implies entry_keys(#[trigger] n[j]) == entry_keys(o[j]) by {
        assert(entry_keys(n[j]) =~= entry_keys(o[j]));
    }
    lemma_offsets_agree(o, n, o.len() as int);
    assert forall|j: int| 0 <= j <= o.len() implies #[trigger] offset(n, j) == offset(o, j) by {
        lemma_offsets_agree(o, n, j);
    }
    lemma_offset_mono(o, 0, o.len() as int);
    lemma_offset_mono(n, 0, n.len() as int);
    assert(o.take(0) =~= Seq::<Seq<Entry<K, usize>>>::empty());
    assert(n.take(0) =~= Seq::<Seq<Entry<K, usize>>>::empty());
    assert forall|g: int| 0 <= g < n.flatten().len() implies (#[trigger] n.flatten()[g]).value == g && n.flatten()[g].key
        == o.flatten()[g].key by {
        let q = lemma_locate(n, g, 0);
        let m = g - offset(n, q);
        lemma_flatten_index(n, q, m);
        lemma_flatten_index(o, q, m);
        assert(n[q][m].key == o[q][m].key);
    }
    assert(entry_keys(n.flatten()) =~= entry_keys(o.flatten()));
}

/// Layers with nodes of the same lengths have the same offsets.
proof fn lemma_offsets_agree<K>(o: Seq<Seq<Entry<K, usize>>>, n: Seq<Seq<Entry<K, usize>>>, j: int)
    requires
        renumbered(o, n),
        0 <= j <= o.len(),
    ensures
        offset(n, j) == offset(o, j),
    decreases j,
{
    if j == 0 {
        assert(o.take(0) =~= Seq::<Seq<Entry<K, usize>>>::empty());
        assert(n.take(0) =~= Seq::<Seq<Entry<K, usize>>>::empty());
    } else {
        lemma_offsets_agree(o, n, j - 1);
        lemma_offset_step(o, j - 1);
        lemma_offset_step(n, j - 1);
    }
}


/// Putting `key` with `value` into node `q`, the node that covers the key:
/// the layer stays fenced, and its entries are the former ones with the key
/// given the value.
proof fn lemma_node_put<K: StaticBounded, X>(
    nodes: Seq<Seq<Entry<K, X>>>,
    fences: Seq<int>,
    q: int,
    key: K,
    value: X,
    newnode: Seq<Entry<K, X>>,
    r0: Option<X>,
    i: int,
)
    requires
        covers(nodes, fences),
        sorted_keys(fences),
        0 <= q < nodes.len(),
        fences[q] <= key.key_int(),
        q + 1 < nodes.len() ==> key.key_int() < fences[q + 1],
        match r0 {
            Some(prev) => {
                &&& 0 <= i < nodes[q].len()
                &&& nodes[q][i].key.key_int() == key.key_int()
                &&& prev == nodes[q][i].value
                &&& newnode == nodes[q].update(i, Entry { key, value })
            },
            None => {
                &&& 0 <= i <= nodes[q].len()
                &&& !has_key(nodes[q], key.key_int())
                &&& newnode == nodes[q].insert(i, Entry { key, value })
            },
        },
    ensures
        covers(nodes.update(q, newnode), fences),
        inserted(nodes.flatten(), nodes.update(q, newnode).flatten(), key, value, r0),
{
    let e = Entry { key, value };
    let n2 = nodes.update(q, newnode);
    let flat = nodes.flatten();
    let g = offset(nodes, q) + i;
    assert forall|j: int, m: int| 0 <= j < n2.len() && 0 <= m < n2[j].len() implies fences[j] <= #[trigger] nkey(n2, j, m)
        && (j + 1 < fences.len() ==> nkey(n2, j, m) < fences[j + 1]) by {
        if j != q {
            assert(nkey(n2, j, m) == nkey(nodes, j, m));
        } else {
            match r0 {
                Some(_) => {
                    if m != i {
                        assert(nkey(n2, j, m) == nkey(nodes, j, m));
                    }
                },
                None => {
                    if m < i {
                        assert(nkey(n2, j, m) == nkey(nodes, j, m));
                    } else if m > i {
                        assert(nkey(n2, j, m) == nkey(nodes, j, m - 1));
                    }
                },
            }
        }
    }
    match r0 {
        Some(prev) => {
            lemma_flatten_update(nodes, q, i, e);
            lemma_flatten_index(nodes, q, i);
            assert(flat[g].key.key_int() == key.key_int());
            assert(0 <= g < flat.len() && flat[g].key.key_int() == key.key_int() && prev == flat[g].value && n2.flatten()
                == flat.update(g, e));
        },
        None => {
            lemma_flatten_insert(nodes, q, i, e);
            lemma_offset_step(nodes, q);
            lemma_key_in_node(nodes, fences, q, key.key_int());
            assert forall|h: int| 0 <= h < flat.len() implies #[trigger] flat[h].key.key_int() != key.key_int() by {
                if flat[h].key.key_int() == key.key_int() {
                    let m = h - offset(nodes, q);
                    lemma_flatten_index(nodes, q, m);
                    assert(nodes[q][m].key.key_int() == key.key_int());
                }
            }
            lemma_offset_mono(nodes, q, nodes.len() as int);
            lemma_offset_mono(nodes, q + 1, nodes.len() as int);
            assert(0 <= g <= flat.len() && flat.insert(g, e) == n2.flatten());
        },
    }
}


/// Renumbering a layer keeps how it is fenced and how it fences the layer
/// below, and makes its entries stand for the nodes below.
proof fn lemma_renumber_transfer<K: StaticBounded, X>(
    n2: Seq<Seq<Entry<K, usize>>>,
    n3: Seq<Seq<Entry<K, usize>>>,
    fences: Seq<int>,
    fanout: int,
    child: Seq<Seq<Entry<K, X>>>,
    need_heads: bool,
)
    requires
        renumbered(n2, n3),
        covers(n2, fences),
        heads(n2, fences),
        bounded(n2, fanout),
        sorted_keys(entry_keys(n2.flatten())),
        n2.flatten().len() == child.len(),
        n2.flatten().len() >= 1,
        n2.flatten()[0].key.key_int() == K::min_key().key_int(),
        covers(child, entry_keys(n2.flatten())),
        need_heads ==> heads(child, entry_keys(n2.flatten())),
    ensures
        covers(n3, fences),
        heads(n3, fences),
        bounded(n3, fanout),
        parent_of(n3.flatten(), child),
        need_heads ==> heads(child, entry_keys(n3.flatten())),
{
    lemma_renumbered(n2, n3);
    assert forall|j: int, m: int| 0 <= j < n3.len() && 0 <= m < n3[j].len() implies #[trigger] nkey(n3, j, m) == nkey(n2, j, m) by {
        assert(n3[j][m].key == n2[j][m].key);
    }
    assert forall|j: int| 0 <= j < n3.len() implies (#[trigger] n3[j]).len() >= 1 && n3[j][0].key.key_int() == fences[j] by {
        assert(n3[j][0].key == n2[j][0].key);
    }
    assert forall|j: int| 0 <= j < n3.len() implies (#[trigger] n3[j]).len() <= fanout && sorted_keys(entry_keys(n3[j])) by {
        assert(entry_keys(n3[j]) == entry_keys(n2[j]));
    }
    let k3 = entry_keys(n3.flatten());
    assert(k3[0] == n3.flatten()[0].key.key_int());
    assert(entry_keys(n2.flatten())[0] == n2.flatten()[0].key.key_int());
}

/// One layer takes the entry for a node cut below it, in a full node that is
/// cut in two first: the layer is then fenced with the upper half's first key
/// put in, and fences the layer below.
proof fn lemma_split_insert<K: StaticBounded, X>(
    pn: Seq<Seq<Entry<K, usize>>>,
    gf: Seq<int>,
    child: Seq<Seq<Entry<K, X>>>,
    p: int,
    i: int,
    s: K,
    fanout: int,
    need_heads: bool,
)
    requires
        covers(pn, gf),
        heads(pn, gf),
        sorted_keys(gf),
        bounded(pn, fanout),
        fanout >= 2,
        0 <= p < pn.len(),
        0 <= i < pn[p].len(),
        pn[p].len() >= fanout,
        pending_of(pn.flatten(), child, offset(pn, p) + i, s.key_int()),
        need_heads ==> heads(child, entry_keys(pn.flatten()).insert(offset(pn, p) + i + 1, s.key_int())),
    ensures
        ({
            let mid = pn[p].len() / 2;
            let n1 = split_node(pn, p, pn[p].take(mid as int), pn[p].skip(mid as int));
            let q = if i < mid { p } else { p + 1 };
            let iq = if i < mid { i } else { i - mid };
            let n2 = n1.update(q, n1[q].insert(iq + 1, Entry { key: s, value: 0usize }));
            let sp = pn[p][mid as int].key.key_int();
            let g1 = gf.insert(p + 1, sp);
            &&& 0 <= q < n1.len()
            &&& 0 <= iq < n1[q].len()
            &&& gf[p] < sp
            &&& p + 1 < gf.len() ==> sp < gf[p + 1]
            &&& sorted_keys(g1)
            &&& covers(n2, g1)
            &&& heads(n2, g1)
            &&& bounded(n2, fanout)
            &&& sorted_keys(entry_keys(n2.flatten()))
            &&& n2.flatten().len() == child.len()
            &&& n2.flatten()[0].key.key_int() == K::min_key().key_int()
            &&& covers(child, entry_keys(n2.flatten()))
            &&& need_heads ==> heads(child, entry_keys(n2.flatten()))
        }),
{
    let mid = (pn[p].len() / 2) as int;
    let n1 = split_node(pn, p, pn[p].take(mid), pn[p].skip(mid));
    let sp = pn[p][mid].key.key_int();
    let g1 = gf.insert(p + 1, sp);
    let q = if i < mid { p } else { p + 1 };
    let iq = if i < mid { i } else { i - mid };
    assert(sorted_keys(entry_keys(pn[p])));
    lemma_split_fences(pn, gf, p, true);
    assert(offset(pn, p) + i == offset(n1, q) + iq);
    assert(bounded(n1, fanout)) by {
        assert forall|j: int| 0 <= j < n1.len() implies (#[trigger] n1[j]).len() <= fanout && sorted_keys(entry_keys(n1[j])) by {
            if j < p {
                assert(n1[j] == pn[j]);
            } else if j > p + 1 {
                assert(n1[j] == pn[j - 1]);
            }
        }
    }
    lemma_fence_insert(n1, g1, child, q, iq, s, fanout, need_heads);
}

/// Why a layout cannot be built into an index.
#[derive(Debug, Copy, Clone, PartialEq, Eq, Structural)]
pub enum IndexError {
    /// A component that is not a B-tree with a fanout of at least two.
    UnsupportedComponent,
}

/// A hybrid index of B-tree layers, held in memory; the entries of a
/// persisted one are saved and read back by its store.
pub struct HybridIndex<K, V> {
    base: Vec<Vec<Entry<K, V>>>,
    base_fanout: usize,
    inner: Vec<Vec<Vec<Entry<K, usize>>>>,
    inner_fanouts: Vec<usize>,
    top: Vec<Entry<K, usize>>,
}

impl<K: StaticBounded, V> HybridIndex<K, V> {
    /// The nodes of the base layer.
    pub closed spec fn base_nodes(&self) -> Seq<Seq<Entry<K, V>>> {
        vviews(self.base@)
    }

    /// The nodes of internal layer `l` (layer 0 sits on the base).
    pub closed spec fn layer(&self, l: int) -> Seq<Seq<Entry<K, usize>>> {
        vviews(self.inner@[l]@)
    }

    /// The number of internal layers.
    pub closed spec fn depth(&self) -> int {
        self.inner@.len() as int
    }

    /// The entries that stand for the nodes of layer `l` (`-1` for the base):
    /// those of the layer above, or of the top directory.
    pub closed spec fn above(&self, l: int) -> Seq<Entry<K, usize>> {
        if l + 1 < self.depth() {
            self.layer(l + 1).flatten()
        } else {
            self.top@
        }
    }

    /// The number of nodes in layer `l` (`-1` for the base).
    pub closed spec fn layer_len(&self, l: int) -> int {
        if l < 0 {
            self.base@.len() as int
        } else {
            self.inner@[l]@.len() as int
        }
    }

    /// The entries of the index, in key order.
    pub closed spec fn entries(&self) -> Seq<Entry<K, V>> {
        self.base_nodes().flatten()
    }

    /// The layers are consistent: nodes sorted and within their fanouts, and
    /// each layer's entries stand for the nodes of the layer below.
    pub closed spec fn wf(&self) -> bool {
        &&& self.inner@.len() == self.inner_fanouts@.len()
        &&& self.base_fanout >= 2
        &&& forall|l: int| 0 <= l < self.depth() ==> #[trigger] self.inner_fanouts@[l] >= 2
        &&& bounded(self.base_nodes(), self.base_fanout as int)
        &&& forall|l: int| 0 <= l < self.depth() ==> bounded(#[trigger] self.layer(l), self.inner_fanouts@[l] as int)
        &&& parent_of(self.above(-1), self.base_nodes())
        &&& forall|l: int| 0 <= l < self.depth() ==> parent_of(#[trigger] self.above(l), self.layer(l))
        &&& forall|l: int| 0 <= l < self.depth() ==> heads(#[trigger] self.layer(l), entry_keys(self.above(l)))
    }

    /// After an insert of `key` with `value`, a search for `key` finds
    /// `value`, a search for any other key finds what it found before, and the
    /// insert returns what a search for `key` found before.
    pub proof fn lemma_insert_then_search(
        before: Self,
        after: Self,
        key: K,
        value: V,
        r: Option<V>,
        other: int,
        found: Option<V>,
    )
        requires
            before.wf(),
            after.wf(),
            inserted(before.entries(), after.entries(), key, value, r),
        ensures
            finds(after.entries(), key.key_int(), Some(value)),
            finds(before.entries(), key.key_int(), r),
            other != key.key_int() ==> (finds(after.entries(), other, found) <==> finds(before.entries(), other, found)),
    {
        lemma_inserted_lookup(before.entries(), after.entries(), key, value, r, other, found);
    }

    /// The entries of the index have increasing keys.
    pub proof fn lemma_entries_sorted(&self)
        requires
            self.wf(),
        ensures
            sorted_keys(entry_keys(self.entries())),
    {
        lemma_covered_sorted(self.base_nodes(), entry_keys(self.above(-1)));
    }

    /// Finds the base node that covers `key`.
    fn route(&self, key: &K) -> (b: usize)
        requires
            self.wf(),
        ensures
            b < self.base_nodes().len(),
            entry_keys(self.above(-1))[b as int] <= key.key_int(),
            b + 1 < self.base_nodes().len() ==> key.key_int() < entry_keys(self.above(-1))[b + 1],
    {
        proof {
            if self.depth() == 0 {
                assert(self.above(-1) == self.top@);
            } else {
                assert(parent_of(self.above(self.depth() - 1), self.layer(self.depth() - 1)));
                assert(self.above(self.depth() - 1) == self.top@);
            }
        }
        let c0 = lub_index(&self.top, key);
        let mut c = self.top[c0].value;
        let mut l = self.inner.len();
        proof {
            if self.depth() == 0 {
                lemma_descend_top(self.top@, self.base_nodes(), *key, c0 as int);
            } else {
                assert(parent_of(self.above(self.depth() - 1), self.layer(self.depth() - 1)));
                lemma_descend_top(self.top@, self.layer(self.depth() - 1), *key, c0 as int);
            }
        }
        while l > 0
            invariant
                self.wf(),
                0 <= l <= self.depth(),
                0 <= c < self.layer_len(l - 1),
                self.above(l - 1).len() == self.layer_len(l - 1),
                entry_keys(self.above(l - 1))[c as int] <= key.key_int(),
                c + 1 < self.layer_len(l - 1) ==> key.key_int() < entry_keys(self.above(l - 1))[c + 1],
            decreases l,
        {
            l = l - 1;
            let ghost nodes = self.layer(l as int);
            assert(parent_of(self.above(l as int), nodes));
            assert(heads(nodes, entry_keys(self.above(l as int))));
            assert(bounded(nodes, self.inner_fanouts@[l as int] as int));
            assert(nodes[c as int] == self.inner@[l as int]@[c as int]@);
            let node = &self.inner[l][c];
            let i = lub_index(node, key);
            proof {
                assert forall|j: int| 0 <= j < nodes.len() implies sorted_keys(entry_keys(#[trigger] nodes[j])) by {
                    assert(bounded(nodes, self.inner_fanouts@[l as int] as int));
                }
                if l == 0 {
                    assert(self.above(-1) == nodes.flatten());
                    lemma_descend(nodes, self.above(l as int), self.base_nodes(), c as int, key.key_int(), i as int);
                } else {
                    assert(self.above(l - 1) == nodes.flatten());
                    assert(parent_of(self.above(l - 1), self.layer(l - 1)));
                    lemma_descend(nodes, self.above(l as int), self.layer(l - 1), c as int, key.key_int(), i as int);
                }
            }
            c = node[i].value;
        }
        c
    }

    /// The value of `key`, if the index holds it.
    pub fn search(&self, key: K) -> (r: Option<V>)
        where V: Copy
        requires
            self.wf(),
        ensures
            finds(self.entries(), key.key_int(), r),
    {
        let b = self.route(&key);
        let ghost nodes = self.base_nodes();
        let ghost fences = entry_keys(self.above(-1));
        let node = &self.base[b];
        proof {
            assert(nodes[b as int] == node@);
            assert(bounded(nodes, self.base_fanout as int));
            assert(sorted_keys(entry_keys(nodes[b as int])));
        }
        let ghost s = entry_keys(node@);
        match BinarySearch::search_by_key(node.as_slice(), &key) {
            Ok(i) => {
                proof {
                    lemma_flatten_index(nodes, b as int, i as int);
                    assert(s[i as int] == node@[i as int].key.key_int());
                    assert(self.entries()[offset(nodes, b as int) + i] == node@[i as int]);
                    let g = offset(nodes, b as int) + i;
                    assert(0 <= g < self.entries().len() && self.entries()[g].key.key_int() == key.key_int()
                        && self.entries()[g].value == node@[i as int].value);
                }
                Some(node[i].value)
            },
            Err(i) => {
                proof {
                    lemma_key_in_node(nodes, fences, b as int, key.key_int());
                    lemma_offset_step(nodes, b as int);
                    assert forall|g: int| 0 <= g < self.entries().len() implies (#[trigger] self.entries()[g]).key.key_int()
                        != key.key_int() by {
                        if self.entries()[g].key.key_int() == key.key_int() {
                            let m = g - offset(nodes, b as int);
                            lemma_flatten_index(nodes, b as int, m);
                            assert(s[m] == node@[m].key.key_int());
                        }
                    }
                }
                None
            },
        }
    }
}


/// A B-tree base component, kept in memory or persisted, with a fanout of at
/// least two.
pub open spec fn supported_base(c: BaseComponent) -> bool {
    c matches BaseComponent::BTree { fanout, .. } && fanout >= 2
}

/// A B-tree internal component, kept in memory or persisted, with a fanout of
/// at least two.
pub open spec fn supported_internal(c: InternalComponent) -> bool {
    c matches InternalComponent::BTree { fanout, .. } && fanout >= 2
}

/// The fanout of a B-tree internal component.
pub open spec fn internal_fanout(c: InternalComponent) -> int {
    match c {
        InternalComponent::BTree { fanout, .. } => fanout as int,
        InternalComponent::PGM { .. } => 0,
    }
}

impl<K: StaticBounded, V> HybridIndex<K, V> {
    /// The fanout of the base layer.
    pub closed spec fn base_fanout_spec(&self) -> int {
        self.base_fanout as int
    }

    /// The fanout of internal layer `l` (layer 0 sits on the base).
    pub closed spec fn fanout_of(&self, l: int) -> int {
        self.inner_fanouts@[l] as int
    }

    /// An empty index with the layers of `layout`: its base, then its internal
    /// components from the bottom up. B-tree components with a fanout of at
    /// least two are supported; a persisted one works as an in-memory one, its
    /// entries being saved by the store with `stored_entries` and read back
    /// with `open`.
    pub fn empty(layout: &HybridLayout) -> (r: Result<Self, IndexError>)
        ensures
            r is Ok <==> supported_base(layout.base) && forall|j: int|
                0 <= j < layout.internal@.len() ==> supported_internal(#[trigger] layout.internal@[j]),
            r matches Ok(ix) ==> {
                &&& ix.wf()
                &&& ix.entries() == Seq::<Entry<K, V>>::empty()
                &&& ix.depth() == layout.internal@.len()
                &&& layout.base matches BaseComponent::BTree { fanout, .. } && ix.base_fanout_spec() == fanout
                &&& forall|l: int| 0 <= l < ix.depth() ==> #[trigger] ix.fanout_of(l) == internal_fanout(
                    layout.internal@[layout.internal@.len() - 1 - l],
                )
            },
    {
        let base_fanout = match layout.base {
            BaseComponent::BTree { fanout, .. } => {
                if fanout < 2 {
                    return Err(IndexError::UnsupportedComponent);
                }
                fanout
            },
            BaseComponent::PGM { .. } => return Err(IndexError::UnsupportedComponent),
        };
        let n = layout.internal.len();
        let mut inner_fanouts: Vec<usize> = Vec::new();
        let mut j: usize = n;
        while j > 0
            invariant
                n == layout.internal@.len(),
                0 <= j <= n,
                inner_fanouts@.len() == n - j,
                forall|l: int| 0 <= l < n - j ==> #[trigger] inner_fanouts@[l] >= 2 && inner_fanouts@[l] == internal_fanout(
                    layout.internal@[n - 1 - l],
                ),
                forall|q: int| j <= q < n ==> supported_internal(#[trigger] layout.internal@[q]),
            decreases j,
        {
            j = j - 1;
            match layout.internal[j] {
                InternalComponent::BTree { fanout, .. } => {
                    if fanout < 2 {
                        return Err(IndexError::UnsupportedComponent);
                    }
                    inner_fanouts.push(fanout);
                },
                InternalComponent::PGM { .. } => return Err(IndexError::UnsupportedComponent),
            }
        }
        let root = Entry::new(K::min_ref(), 0usize);
        let mut inner: Vec<Vec<Vec<Entry<K, usize>>>> = Vec::new();
        let mut l: usize = 0;
        while l < n
            invariant
                0 <= l <= n,
                inner@.len() == l,
                forall|q: int| 0 <= q < l ==> (#[trigger] inner@[q])@.len() == 1 && inner@[q]@[0]@ == seq![root],
            decreases n - l,
        {
            let mut node: Vec<Entry<K, usize>> = Vec::new();
            node.push(root);
            let mut layer: Vec<Vec<Entry<K, usize>>> = Vec::new();
            layer.push(node);
            inner.push(layer);
            l += 1;
        }
        let mut top: Vec<Entry<K, usize>> = Vec::new();
        top.push(root);
        let mut first: Vec<Entry<K, V>> = Vec::new();
        let mut base: Vec<Vec<Entry<K, V>>> = Vec::new();
        base.push(first);
        let ix = HybridIndex { base, base_fanout, inner, inner_fanouts, top };
        proof {
            let one = seq![root];
            assert(entry_keys(one) =~= seq![K::min_key().key_int()]);
            assert(ix.base_nodes() =~= seq![Seq::<Entry<K, V>>::empty()]);
            assert(ix.entries() =~= Seq::<Entry<K, V>>::empty()) by {
                ix.base_nodes().lemma_flatten_one_element();
            }
            assert forall|q: int| 0 <= q < ix.depth() implies #[trigger] ix.layer(q) == seq![one] by {
                assert(ix.layer(q) =~= seq![one]);
            }
            assert(seq![one].flatten() == one) by {
                seq![one].lemma_flatten_one_element();
            }
            assert(parent_of(one, seq![Seq::<Entry<K, V>>::empty()]));
            assert(parent_of(one, seq![one]));
            assert(heads(seq![one], entry_keys(one)));
            assert(bounded(seq![one], 2));
            assert forall|q: int| -1 <= q < ix.depth() implies #[trigger] ix.above(q) == one by {
                if q + 1 < ix.depth() {
                    assert(ix.layer(q + 1) == seq![one]);
                }
            }
            assert(ix.above(-1) == one);
            assert forall|q: int| 0 <= q < ix.depth() implies bounded(#[trigger] ix.layer(q), ix.inner_fanouts@[q] as int) by {
                assert(ix.layer(q) == seq![one]);
            }
            assert forall|q: int| 0 <= q < ix.depth() implies parent_of(#[trigger] ix.above(q), ix.layer(q)) by {
                assert(ix.layer(q) == seq![one]);
                assert(ix.above(q) == one);
            }
            assert forall|q: int| 0 <= q < ix.depth() implies heads(#[trigger] ix.layer(q), entry_keys(ix.above(q))) by {
                assert(ix.layer(q) == seq![one]);
                assert(ix.above(q) == one);
            }
        }
        Ok(ix)
    }
}


impl<K: StaticBounded, V> HybridIndex<K, V> {
    /// One step down from node `c` of layer `l`, which covers `k`, through
    /// slot `i`: the entry stands for a node of the layer below that covers `k`.
    proof fn lemma_route_step(&self, l: int, c: int, k: int, i: int)
        requires
            self.wf(),
            0 <= l < self.depth(),
            0 <= c < self.layer_len(l),
            entry_keys(self.above(l))[c] <= k,
            c + 1 < self.layer_len(l) ==> k < entry_keys(self.above(l))[c + 1],
            lub_at(entry_keys(self.layer(l)[c]), k, i),
        ensures
            ({
                let g = offset(self.layer(l), c) + i;
                &&& 0 <= i < self.layer(l)[c].len()
                &&& self.layer(l)[c][i].value == g
                &&& 0 <= g < self.layer_len(l - 1)
                &&& self.above(l - 1).len() == self.layer_len(l - 1)
                &&& entry_keys(self.above(l - 1))[g] <= k
                &&& g + 1 < self.layer_len(l - 1) ==> k < entry_keys(self.above(l - 1))[g + 1]
            }),
    {
        let nodes = self.layer(l);
        assert(parent_of(self.above(l), nodes));
        assert(heads(nodes, entry_keys(self.above(l))));
        assert(bounded(nodes, self.inner_fanouts@[l] as int));
        assert(nodes.len() == self.layer_len(l));
        assert forall|j: int| 0 <= j < nodes.len() implies sorted_keys(entry_keys(#[trigger] nodes[j])) by {
            assert(bounded(nodes, self.inner_fanouts@[l] as int));
        }
        if l == 0 {
            assert(self.above(-1) == nodes.flatten());
            assert(self.base_nodes().len() == self.layer_len(-1));
            lemma_descend(nodes, self.above(l), self.base_nodes(), c, k, i);
        } else {
            assert(self.above(l - 1) == nodes.flatten());
            assert(parent_of(self.above(l - 1), self.layer(l - 1)));
            assert(self.layer(l - 1).len() == self.layer_len(l - 1));
            lemma_descend(nodes, self.above(l), self.layer(l - 1), c, k, i);
        }
    }

    /// Finds the base node that covers `key` (`r.0`), with the node and slot
    /// visited in every internal layer: `r.1[l]` is the node of layer `l` and
    /// `r.2[l]` the slot in it, whose entry stands for the node visited below.
    #[verifier::rlimit(80)]
    #[verifier::spinoff_prover]
    fn route_path(&self, key: &K) -> (r: (usize, Vec<usize>, Vec<usize>))
        requires
            self.wf(),
        ensures
            r.1@.len() == self.depth(),
            r.2@.len() == self.depth(),
            r.0 < self.base_nodes().len(),
            entry_keys(self.above(-1))[r.0 as int] <= key.key_int(),
            r.0 + 1 < self.base_nodes().len() ==> key.key_int() < entry_keys(self.above(-1))[r.0 + 1],
            forall|l: int|
                0 <= l < self.depth() ==> {
                    &&& #[trigger] r.1@[l] < self.layer(l).len()
                    &&& r.2@[l] < self.layer(l)[r.1@[l] as int].len()
                    &&& offset(self.layer(l), r.1@[l] as int) + r.2@[l] == (if l == 0 {
                        r.0 as int
                    } else {
                        r.1@[l - 1] as int
                    })
                },
    {
        proof {
            if self.depth() == 0 {
                assert(self.above(-1) == self.top@);
            } else {
                assert(parent_of(self.above(self.depth() - 1), self.layer(self.depth() - 1)));
                assert(self.above(self.depth() - 1) == self.top@);
            }
        }
        let d = self.inner.len();
        let mut path: Vec<usize> = vec![0usize; d];
        let mut locals: Vec<usize> = vec![0usize; d];
        let c0 = lub_index(&self.top, key);
        let mut c = self.top[c0].value;
        let mut l = d;
        proof {
            if self.depth() == 0 {
                lemma_descend_top(self.top@, self.base_nodes(), *key, c0 as int);
            } else {
                lemma_descend_top(self.top@, self.layer(self.depth() - 1), *key, c0 as int);
            }
        }
        while l > 0
            invariant
                self.wf(),
                d == self.depth(),
                path@.len() == d,
                locals@.len() == d,
                0 <= l <= d,
                0 <= c < self.layer_len(l - 1),
                self.above(l - 1).len() == self.layer_len(l - 1),
                entry_keys(self.above(l - 1))[c as int] <= key.key_int(),
                c + 1 < self.layer_len(l - 1) ==> key.key_int() < entry_keys(self.above(l - 1))[c + 1],
                l < d ==> offset(self.layer(l as int), path@[l as int] as int) + locals@[l as int] == c,
                forall|q: int|
                    l <= q < d ==> {
                        &&& #[trigger] path@[q] < self.layer(q).len()
                        &&& locals@[q] < self.layer(q)[path@[q] as int].len()
                        &&& q > l ==> offset(self.layer(q), path@[q] as int) + locals@[q] == path@[q - 1]
                    },
            decreases l,
        {
            l = l - 1;
            let ghost nodes = self.layer(l as int);
            assert(nodes[c as int] == self.inner@[l as int]@[c as int]@);
            proof {
                assert(parent_of(self.above(l as int), nodes));
                assert(bounded(nodes, self.inner_fanouts@[l as int] as int));
                assert(self.layer_len(l as int) == nodes.len());
            }
            let node = &self.inner[l][c];
            let i = lub_index(node, key);
            proof {
                self.lemma_route_step(l as int, c as int, key.key_int(), i as int);
            }
            let next = node[i].value;
            let ghost path0 = path@;
            let ghost locals0 = locals@;
            let ghost c_old = c;
            path[l] = c;
            locals[l] = i;
            c = next;
            proof {
                assert(path@ == path0.update(l as int, c_old));
                assert(locals@ == locals0.update(l as int, i));
                assert forall|q: int|
                    l <= q < d implies {
                        &&& #[trigger] path@[q] < self.layer(q).len()
                        &&& locals@[q] < self.layer(q)[path@[q] as int].len()
                        &&& q > l ==> offset(self.layer(q), path@[q] as int) + locals@[q] == path@[q - 1]
                    } by {
                    if q > l {
                        assert(path@[q] == path0[q]);
                        assert(locals@[q] == locals0[q]);
                        assert(path@[q - 1] == path0[q - 1] || q - 1 == l);
                    }
                }
            }
        }
        (c, path, locals)
    }
}


impl<K: StaticBounded, V> HybridIndex<K, V> {
    /// The entries of layer `j` (`-1` for the base) and the layer above them
    /// agree: the entries above stand for the nodes, which start with their
    /// fences when they are internal nodes.
    pub closed spec fn rel_ok(&self, j: int) -> bool {
        if j < 0 {
            parent_of(self.above(-1), self.base_nodes())
        } else {
            parent_of(self.above(j), self.layer(j)) && heads(self.layer(j), entry_keys(self.above(j)))
        }
    }

    /// Node `c` of layer `j` (`-1` for the base) was cut in two at key `s`,
    /// and the layer above does not stand for the upper part yet.
    pub closed spec fn rel_pending(&self, j: int, c: int, s: int) -> bool {
        if j < 0 {
            pending_of(self.above(-1), self.base_nodes(), c, s)
        } else {
            &&& pending_of(self.above(j), self.layer(j), c, s)
            &&& heads(self.layer(j), entry_keys(self.above(j)).insert(c + 1, s))
        }
    }

    /// The fanouts are fine and every node is sorted and within its fanout.
    pub closed spec fn shape_ok(&self) -> bool {
        &&& self.inner@.len() == self.inner_fanouts@.len()
        &&& self.base_fanout >= 2
        &&& forall|l: int| 0 <= l < self.depth() ==> #[trigger] self.inner_fanouts@[l] >= 2
        &&& bounded(self.base_nodes(), self.base_fanout as int)
        &&& forall|l: int| 0 <= l < self.depth() ==> bounded(#[trigger] self.layer(l), self.inner_fanouts@[l] as int)
    }

    /// Well-formedness is the shape and the agreement of every layer with the
    /// one above.
    proof fn lemma_wf_rel(&self)
        ensures
            self.wf() <==> (self.shape_ok() && forall|j: int| -1 <= j < self.depth() ==> #[trigger] self.rel_ok(j)),
    {
        if self.wf() {
            assert forall|j: int| -1 <= j < self.depth() implies #[trigger] self.rel_ok(j) by {
                if j >= 0 {
                    assert(parent_of(self.above(j), self.layer(j)));
                    assert(heads(self.layer(j), entry_keys(self.above(j))));
                }
            }
        }
        if self.shape_ok() && forall|j: int| -1 <= j < self.depth() ==> #[trigger] self.rel_ok(j) {
            assert(self.rel_ok(-1));
            assert forall|l: int| 0 <= l < self.depth() implies parent_of(#[trigger] self.above(l), self.layer(l)) by {
                assert(self.rel_ok(l));
            }
            assert forall|l: int| 0 <= l < self.depth() implies heads(#[trigger] self.layer(l), entry_keys(self.above(l))) by {
                assert(self.rel_ok(l));
            }
        }
    }

    /// Puts `key` with `value` into base node `b`, which covers the key; a
    /// full node is cut in two first. Returns the former value of the key,
    /// and the first key of the new upper node when the node was cut.
    fn put_base(&mut self, b: usize, key: K, value: V) -> (r: (Option<V>, Option<K>))
        requires
            old(self).wf(),
            b < old(self).base_nodes().len(),
            entry_keys(old(self).above(-1))[b as int] <= key.key_int(),
            b + 1 < old(self).base_nodes().len() ==> key.key_int() < entry_keys(old(self).above(-1))[b + 1],
        ensures
            final(self).inner == old(self).inner,
            final(self).inner_fanouts == old(self).inner_fanouts,
            final(self).top == old(self).top,
            final(self).base_fanout == old(self).base_fanout,
            bounded(final(self).base_nodes(), final(self).base_fanout as int),
            inserted(old(self).entries(), final(self).entries(), key, value, r.0),
            r.1 is None ==> final(self).rel_ok(-1),
            r.1 matches Some(s) ==> final(self).rel_pending(-1, b as int, s.key_int()),
    {
        let ghost nodes = self.base_nodes();
        let ghost fences = entry_keys(self.above(-1));
        let ghost fanout = self.base_fanout as int;
        proof {
            assert(parent_of(self.above(-1), nodes));
            assert(bounded(nodes, fanout));
            assert(nodes[b as int] == self.base@[b as int]@);
            assert(self.base.len() == self.base@.len());
        }
        if self.base[b].len() >= self.base_fanout {
            let s = split_layer(&mut self.base, b);
            proof {
                lemma_split_fences(nodes, fences, b as int, false);
            }
            let ghost n1 = vviews(self.base@);
            let ghost sp = s.key_int();
            let ghost g1 = fences.insert(b as int + 1, sp);
            let ghost mid = (nodes[b as int].len() / 2) as int;
            let q = if key.key_lt(&s) { b } else { b + 1 };
            proof {
                assert(n1 == split_node(nodes, b as int, nodes[b as int].take(mid), nodes[b as int].skip(mid)));
                assert(g1[b as int] == fences[b as int]);
                assert(g1[b as int + 1] == sp);
                if b + 1 < nodes.len() {
                    assert(g1[b as int + 2] == fences[b as int + 1]);
                }
                assert(n1[q as int] == self.base@[q as int]@);
            }
            let (r0, i) = sorted_insert_in_node(&mut self.base, q, key, value);
            proof {
                let n2 = vviews(self.base@);
                lemma_node_put(n1, g1, q as int, key, value, n2[q as int], r0, i as int);
                assert(n2 == n1.update(q as int, n2[q as int]));
                assert(self.base_nodes() == n2);
                assert(self.above(-1) == old(self).above(-1));
                // The halves have room for one more entry.
                assert forall|j: int| 0 <= j < n2.len() implies (#[trigger] n2[j]).len() <= fanout && sorted_keys(entry_keys(n2[j])) by {
                    if j == q {
                    } else if j < b {
                        assert(n2[j] == nodes[j]);
                    } else if j > b + 1 {
                        assert(n2[j] == nodes[j - 1]);
                    } else {
                        assert(n2[j] == n1[j]);
                    }
                }
                assert(pending_of(self.above(-1), n2, b as int, sp));
            }
            (r0, Some(s))
        } else {
            let (r0, i) = sorted_insert_in_node(&mut self.base, b, key, value);
            proof {
                let n2 = vviews(self.base@);
                lemma_node_put(nodes, fences, b as int, key, value, n2[b as int], r0, i as int);
                assert(n2 == nodes.update(b as int, n2[b as int]));
                assert(self.base_nodes() == n2);
                assert(self.above(-1) == old(self).above(-1));
                assert forall|j: int| 0 <= j < n2.len() implies (#[trigger] n2[j]).len() <= fanout && sorted_keys(entry_keys(n2[j])) by {
                    if j != b {
                        assert(n2[j] == nodes[j]);
                    }
                }
            }
            (r0, None)
        }
    }
}


/// A layer (`layer`, fenced from above by `gf`) takes the entry for the node
/// of `child` cut at key `s`: the entry goes after slot `i` of node `p`, whose
/// entry stands for the node that was cut. A full node is cut in two first.
/// Returns the first key of the new upper node when node `p` was cut.
fn fence_layer<K: StaticBounded, X>(
    layer: &mut Vec<Vec<Entry<K, usize>>>,
    Ghost(gf): Ghost<Seq<int>>,
    Ghost(child): Ghost<Seq<Seq<Entry<K, X>>>>,
    child_len: usize,
    fanout: usize,
    need_heads: bool,
    p: usize,
    i: usize,
    s: K,
) -> (r: Option<K>)
    requires
        ({
            let pn = vviews(old(layer)@);
            &&& covers(pn, gf)
            &&& heads(pn, gf)
            &&& sorted_keys(gf)
            &&& bounded(pn, fanout as int)
            &&& fanout >= 2
            &&& p < pn.len()
            &&& i < pn[p as int].len()
            &&& pending_of(pn.flatten(), child, offset(pn, p as int) + i, s.key_int())
            &&& need_heads ==> heads(child, entry_keys(pn.flatten()).insert(offset(pn, p as int) + i + 1, s.key_int()))
        }),
        child_len == child.len(),
    ensures
        ({
            let pn = vviews(old(layer)@);
            let n3 = vviews(final(layer)@);
            &&& bounded(n3, fanout as int)
            &&& parent_of(n3.flatten(), child)
            &&& need_heads ==> heads(child, entry_keys(n3.flatten()))
            &&& r is None ==> covers(n3, gf) && heads(n3, gf) && n3.len() == pn.len()
            &&& r matches Some(sp) ==> {
                &&& gf[p as int] < sp.key_int()
                &&& p + 1 < gf.len() ==> sp.key_int() < gf[p + 1]
                &&& covers(n3, gf.insert(p + 1, sp.key_int()))
                &&& heads(n3, gf.insert(p + 1, sp.key_int()))
                &&& n3.len() == pn.len() + 1
            }
        }),
{
    let ghost pn = vviews(layer@);
    let plen = layer.len();
    assert(p < plen);
    let node_len = layer[p].len();
    if node_len >= fanout {
        let mid = node_len / 2;
        let sp = split_layer(layer, p);
        let q = if i < mid { p } else { p + 1 };
        let iq = if i < mid { i } else { i - mid };
        proof {
            lemma_split_insert(pn, gf, child, p as int, i as int, s, fanout as int, need_heads);
        }
        insert_in_node(layer, q, iq + 1, Entry::new(s, 0usize));
        let ghost n2 = vviews(layer@);
        let ghost g1 = gf.insert(p + 1, sp.key_int());
        renumber(layer);
        proof {
            let n3 = vviews(layer@);
            lemma_renumber_transfer(n2, n3, g1, fanout as int, child, need_heads);
        }
        Some(sp)
    } else {
        proof {
            lemma_fence_insert(pn, gf, child, p as int, i as int, s, fanout as int, need_heads);
        }
        insert_in_node(layer, p, i + 1, Entry::new(s, 0usize));
        let ghost n2 = vviews(layer@);
        renumber(layer);
        proof {
            let n3 = vviews(layer@);
            lemma_renumber_transfer(n2, n3, gf, fanout as int, child, need_heads);
        }
        None
    }
}

impl<K: StaticBounded, V> HybridIndex<K, V> {
    /// Layer `l` gets an entry for the node cut off at key `s` below it: the
    /// entry goes after slot `i` of node `p`, whose entry stands for the node
    /// that was cut. A full node is cut in two first. Returns the first key of
    /// the new upper node when node `p` was cut.
    fn put_fence(&mut self, l: usize, p: usize, i: usize, s: K) -> (r: Option<K>)
        requires
            old(self).shape_ok(),
            l < old(self).depth(),
            old(self).rel_ok(l as int),
            old(self).rel_pending(l - 1, offset(old(self).layer(l as int), p as int) + i, s.key_int()),
            p < old(self).layer(l as int).len(),
            i < old(self).layer(l as int)[p as int].len(),
        ensures
            final(self).base == old(self).base,
            final(self).top == old(self).top,
            final(self).inner_fanouts == old(self).inner_fanouts,
            final(self).base_fanout == old(self).base_fanout,
            final(self).inner@.len() == old(self).inner@.len(),
            forall|q: int| 0 <= q < old(self).depth() && q != l ==> #[trigger] final(self).inner@[q] == old(self).inner@[q],
            final(self).shape_ok(),
            final(self).rel_ok(l - 1),
            r is None ==> final(self).rel_ok(l as int),
            r matches Some(sp) ==> final(self).rel_pending(l as int, p as int, sp.key_int()),
    {
        let ghost pn = self.layer(l as int);
        let ghost gf = entry_keys(self.above(l as int));
        let ghost c = offset(pn, p as int) + i;
        let fanout = self.inner_fanouts[l];
        let child_len = if l == 0 {
            self.base.len()
        } else {
            self.inner[l - 1].len()
        };
        let ghost child_base = self.base_nodes();
        let ghost child_inner = if l > 0 { self.layer(l - 1) } else { Seq::empty() };
        proof {
            assert(bounded(pn, fanout as int));
            assert(parent_of(self.above(l as int), pn));
            assert(heads(pn, gf));
            assert(self.above(l - 1) == pn.flatten());
        }
        let ghost inner0 = self.inner@;
        let mut layer = self.inner.remove(l);
        assert(vviews(layer@) == pn);
        let r = if l == 0 {
            fence_layer::<K, V>(&mut layer, Ghost(gf), Ghost(child_base), child_len, fanout, false, p, i, s)
        } else {
            fence_layer::<K, usize>(&mut layer, Ghost(gf), Ghost(child_inner), child_len, fanout, true, p, i, s)
        };
        let ghost n3 = vviews(layer@);
        self.inner.insert(l, layer);
        proof {
            assert(self.inner@ =~= inner0.update(l as int, layer));
            assert(self.layer(l as int) == n3);
            assert forall|q: int| 0 <= q < self.depth() && q != l implies #[trigger] self.inner@[q] == old(self).inner@[q] by {}
            assert forall|q: int| 0 <= q < self.depth() && q != l implies #[trigger] self.layer(q) == old(self).layer(q) by {
                assert(self.inner@[q] == old(self).inner@[q]);
            }
            assert(self.above(l as int) == old(self).above(l as int)) by {
                if l + 1 < self.depth() {
                    assert(self.layer(l + 1) == old(self).layer(l + 1));
                }
            }
            assert(self.above(l - 1) == n3.flatten());
            if l > 0 {
                assert(self.layer(l - 1) == old(self).layer(l - 1));
            }
            assert(self.shape_ok()) by {
                assert forall|q: int| 0 <= q < self.depth() implies bounded(#[trigger] self.layer(q), self.inner_fanouts@[q] as int) by {
                    if q != l {
                        assert(self.layer(q) == old(self).layer(q));
                        assert(bounded(old(self).layer(q), old(self).inner_fanouts@[q] as int));
                    }
                }
            }
        }
        r
    }
}


impl<K: StaticBounded, V> HybridIndex<K, V> {
    /// The top directory gets an entry for the node cut off at key `s` below
    /// it, after its entry `c`, which stands for the node that was cut.
    fn put_top(&mut self, c: usize, s: K)
        requires
            old(self).shape_ok(),
            old(self).rel_pending(old(self).depth() - 1, c as int, s.key_int()),
        ensures
            final(self).base == old(self).base,
            final(self).inner == old(self).inner,
            final(self).inner_fanouts == old(self).inner_fanouts,
            final(self).base_fanout == old(self).base_fanout,
            final(self).shape_ok(),
            final(self).rel_ok(old(self).depth() - 1),
    {
        let ghost d = self.depth();
        let ghost top0 = self.top@;
        let ghost f = entry_keys(top0);
        proof {
            assert(self.above(d - 1) == top0);
        }
        let tlen = self.top.len();
        let e = Entry::new(s, 0usize);
        self.top.insert(c + 1, e);
        proof {
            lemma_keys_insert(top0, c + 1, e);
            lemma_sorted_insert_between(f, c + 1, s.key_int());
        }
        let ghost top1 = self.top@;
        renumber_top(&mut self.top);
        proof {
            let top2 = self.top@;
            assert(entry_keys(top2) =~= entry_keys(top1));
            assert(top2[0].key == top1[0].key);
            assert(top1[0] == top0[0]);
            assert(self.above(d - 1) == top2);
            if d > 0 {
                assert(self.layer(d - 1) == old(self).layer(d - 1));
            }
            assert(self.base_nodes() == old(self).base_nodes());
            assert forall|q: int| 0 <= q < self.depth() implies #[trigger] self.layer(q) == old(self).layer(q) by {}
        }
    }

    /// Agreements between layers that two indexes share are the same in both.
    proof fn lemma_rels_kept(a: Self, b: Self, lo: int, hi: int)
        requires
            a.inner@.len() == b.inner@.len(),
            -1 <= lo <= hi <= a.depth(),
            lo == -1 ==> a.base == b.base,
            forall|q: int| 0 <= q < a.depth() && lo <= q <= hi ==> #[trigger] a.inner@[q] == b.inner@[q],
            hi == a.depth() ==> a.top == b.top,
            forall|j: int| lo <= j < hi ==> #[trigger] a.rel_ok(j),
        ensures
            forall|j: int| lo <= j < hi ==> #[trigger] b.rel_ok(j),
    {
        assert forall|j: int| lo <= j < hi implies #[trigger] b.rel_ok(j) by {
            assert(a.rel_ok(j));
            if j >= 0 {
                assert(a.inner@[j] == b.inner@[j]);
                assert(a.layer(j) == b.layer(j));
            } else {
                assert(a.base_nodes() == b.base_nodes());
            }
            if j + 1 < a.depth() {
                assert(a.inner@[j + 1] == b.inner@[j + 1]);
                assert(a.layer(j + 1) == b.layer(j + 1));
            }
            assert(a.above(j) == b.above(j));
        }
    }

    /// The frame of the climb of the entries for cut nodes: layers from `l` on
    /// are those of `st`, and `path` and `locals` are the way down in `st`.
    #[verifier::opaque]
    closed spec fn climb_frame(&self, st: Self, l: int, b: int, path: Seq<usize>, locals: Seq<usize>) -> bool {
        let d = st.depth();
        &&& self.inner@.len() == d
        &&& self.inner_fanouts == st.inner_fanouts
        &&& self.base_fanout == st.base_fanout
        &&& self.top == st.top
        &&& st.wf()
        &&& 0 <= l <= d
        &&& path.len() == d
        &&& locals.len() == d
        &&& 0 <= b < st.base_nodes().len()
        &&& forall|q: int| l <= q < d ==> #[trigger] self.inner@[q] == st.inner@[q]
        &&& forall|q: int|
            0 <= q < d ==> {
                &&& #[trigger] path[q] < st.layer(q).len()
                &&& locals[q] < st.layer(q)[path[q] as int].len()
                &&& offset(st.layer(q), path[q] as int) + locals[q] == (if q == 0 {
                    b
                } else {
                    path[q - 1] as int
                })
            }
        &&& self.shape_ok()
    }

    /// The agreements during the climb: the layers below `l` agree with the
    /// ones above them, and the layer below `l` agrees, or has a node cut at
    /// the key `pending`.
    #[verifier::opaque]
    closed spec fn climb_rels(&self, l: int, b: int, path: Seq<usize>, pending: Option<K>) -> bool {
        &&& forall|j: int| -1 <= j < l - 1 ==> #[trigger] self.rel_ok(j)
        &&& pending is None ==> self.rel_ok(l - 1)
        &&& pending matches Some(s) ==> self.rel_pending(
            l - 1,
            if l == 0 {
                b
            } else {
                path[l - 1] as int
            },
            s.key_int(),
        )
    }

    /// The state while the entries for cut nodes climb.
    closed spec fn climbing(&self, st: Self, l: int, b: int, path: Seq<usize>, locals: Seq<usize>, pending: Option<K>) -> bool {
        self.climb_frame(st, l, b, path, locals) && self.climb_rels(l, b, path, pending)
    }

    /// Before a step of the climb: layer `l` is as in `st`, agrees with the
    /// layer above, and the layer below has a node cut at `s`.
    #[verifier::rlimit(60)]
    proof fn lemma_climb_pre(cur: Self, st: Self, l: int, b: int, path: Seq<usize>, locals: Seq<usize>, s: K)
        requires
            cur.climbing(st, l, b, path, locals, Some(s)),
            l < st.depth(),
        ensures
            cur.shape_ok(),
            l < cur.depth(),
            cur.rel_ok(l),
            cur.rel_pending(l - 1, offset(cur.layer(l), path[l] as int) + locals[l], s.key_int()),
            path[l] < cur.layer(l).len(),
            locals[l] < cur.layer(l)[path[l] as int].len(),
            path.len() == st.depth(),
            locals.len() == st.depth(),
    {
        reveal(HybridIndex::climb_frame);
        reveal(HybridIndex::climb_rels);
        let d = st.depth();
        assert(cur.inner@[l] == st.inner@[l]);
        assert(cur.layer(l) == st.layer(l));
        assert(cur.above(l) == st.above(l)) by {
            if l + 1 < d {
                assert(cur.inner@[l + 1] == st.inner@[l + 1]);
                assert(cur.layer(l + 1) == st.layer(l + 1));
            }
        }
        st.lemma_wf_rel();
        assert(st.rel_ok(l));
    }

    /// After a step of the climb, the climb is one layer higher.
    #[verifier::rlimit(100)]
    #[verifier::spinoff_prover]
    proof fn lemma_climb_post(
        before: Self,
        after: Self,
        st: Self,
        l: int,
        b: int,
        path: Seq<usize>,
        locals: Seq<usize>,
        s: K,
        r: Option<K>,
    )
        requires
            before.climbing(st, l, b, path, locals, Some(s)),
            l < st.depth(),
            after.base == before.base,
            after.top == before.top,
            after.inner_fanouts == before.inner_fanouts,
            after.base_fanout == before.base_fanout,
            after.inner@.len() == before.inner@.len(),
            forall|q: int| 0 <= q < before.depth() && q != l ==> #[trigger] after.inner@[q] == before.inner@[q],
            after.shape_ok(),
            after.rel_ok(l - 1),
            r is None ==> after.rel_ok(l),
            r matches Some(sp) ==> after.rel_pending(l, path[l] as int, sp.key_int()),
        ensures
            after.climbing(st, l + 1, b, path, locals, r),
            after.entries() == before.entries(),
    {
        reveal(HybridIndex::climb_frame);
        Self::lemma_climb_post_rels(before, after, l, b, path, s, r);
        assert(after.base_nodes() == before.base_nodes());
        assert forall|q: int| l + 1 <= q < st.depth() implies #[trigger] after.inner@[q] == st.inner@[q] by {
            assert(after.inner@[q] == before.inner@[q]);
        }
    }

    /// After a step of the climb, the layers below the step still agree.
    #[verifier::rlimit(60)]
    proof fn lemma_climb_post_rels(before: Self, after: Self, l: int, b: int, path: Seq<usize>, s: K, r: Option<K>)
        requires
            before.climb_rels(l, b, path, Some(s)),
            0 <= l < before.depth(),
            path.len() == before.depth(),
            after.base == before.base,
            after.top == before.top,
            after.inner@.len() == before.inner@.len(),
            forall|q: int| 0 <= q < before.depth() && q != l ==> #[trigger] after.inner@[q] == before.inner@[q],
            after.rel_ok(l - 1),
            r is None ==> after.rel_ok(l),
            r matches Some(sp) ==> after.rel_pending(l, path[l] as int, sp.key_int()),
        ensures
            after.climb_rels(l + 1, b, path, r),
    {
        reveal(HybridIndex::climb_rels);
        Self::lemma_rels_kept(before, after, -1, l - 1);
    }

    /// One step of the climb: layer `l` takes the entry for the node cut
    /// below it.
    fn climb(
        &mut self,
        Ghost(st): Ghost<Self>,
        l: usize,
        b: usize,
        path: &Vec<usize>,
        locals: &Vec<usize>,
        s: K,
    ) -> (r: Option<K>)
        requires
            old(self).climbing(st, l as int, b as int, path@, locals@, Some(s)),
            l < st.depth(),
        ensures
            final(self).climbing(st, l + 1, b as int, path@, locals@, r),
            final(self).entries() == old(self).entries(),
    {
        proof {
            Self::lemma_climb_pre(*self, st, l as int, b as int, path@, locals@, s);
        }
        let p = path[l];
        let i = locals[l];
        let ghost before = *self;
        let r = self.put_fence(l, p, i, s);
        proof {
            Self::lemma_climb_post(before, *self, st, l as int, b as int, path@, locals@, s, r);
        }
        r
    }

    /// Gives the layers above the base the entries for the nodes cut below
    /// them, from the base up: `split` is the first key of the node cut off
    /// base node `b`, and `path` and `locals` the nodes and slots visited on
    /// the way down.
    fn propagate(&mut self, Ghost(st): Ghost<Self>, b: usize, path: &Vec<usize>, locals: &Vec<usize>, split: Option<K>)
        requires
            old(self).climbing(st, 0, b as int, path@, locals@, split),
        ensures
            final(self).wf(),
            final(self).entries() == old(self).entries(),
            final(self).depth() == old(self).depth(),
    {
        proof {
            reveal(HybridIndex::climb_frame);
        }
        let d = self.inner.len();
        let mut pending = split;
        let mut l: usize = 0;
        while l < d && pending.is_some()
            invariant
                d == st.depth(),
                self.climbing(st, l as int, b as int, path@, locals@, pending),
                self.entries() == old(self).entries(),
            decreases d - l,
        {
            let s = pending.unwrap();
            pending = self.climb(Ghost(st), l, b, path, locals, s);
            l += 1;
        }
        proof {
            Self::lemma_climb_done(*self, st, l as int, b as int, path@, locals@, pending);
        }
        match pending {
            Some(s) => {
                let c = if d == 0 { b } else { path[d - 1] };
                self.finish_top(c, s);
            },
            None => {},
        }
    }

    /// When the climb stops, the index is well formed, or the top directory
    /// is left to take the entry for a node cut below it.
    #[verifier::rlimit(100)]
    proof fn lemma_climb_done(cur: Self, st: Self, l: int, b: int, path: Seq<usize>, locals: Seq<usize>, pending: Option<K>)
        requires
            cur.climbing(st, l, b, path, locals, pending),
            !(l < st.depth() && pending is Some),
        ensures
            cur.depth() == st.depth(),
            pending is None ==> cur.wf(),
            pending matches Some(s) ==> {
                &&& l == st.depth()
                &&& cur.shape_ok()
                &&& forall|j: int| -1 <= j < cur.depth() - 1 ==> #[trigger] cur.rel_ok(j)
                &&& cur.rel_pending(
                    cur.depth() - 1,
                    if cur.depth() == 0 {
                        b
                    } else {
                        path[cur.depth() - 1] as int
                    },
                    s.key_int(),
                )
                &&& path.len() == cur.depth()
            },
    {
        reveal(HybridIndex::climb_frame);
        reveal(HybridIndex::climb_rels);
        if pending is None {
            Self::lemma_finish_kept(st, cur, l);
        }
    }

    /// The top directory takes the entry for the node cut below it, which
    /// makes the index well formed.
    fn finish_top(&mut self, c: usize, s: K)
        requires
            old(self).shape_ok(),
            forall|j: int| -1 <= j < old(self).depth() - 1 ==> #[trigger] old(self).rel_ok(j),
            old(self).rel_pending(old(self).depth() - 1, c as int, s.key_int()),
        ensures
            final(self).wf(),
            final(self).entries() == old(self).entries(),
            final(self).depth() == old(self).depth(),
    {
        let ghost before = *self;
        self.put_top(c, s);
        proof {
            Self::lemma_rels_kept(before, *self, -1, self.depth() - 1);
            self.lemma_wf_rel();
            assert(self.entries() == before.entries());
        }
    }

    /// When the entries stop climbing at layer `l`, the layers from `l` on
    /// are those of a well-formed index, and the index is well formed.
    proof fn lemma_finish_kept(st: Self, cur: Self, l: int)
        requires
            st.wf(),
            cur.shape_ok(),
            0 <= l <= st.depth(),
            cur.inner@.len() == st.depth(),
            cur.top == st.top,
            forall|q: int| l <= q < st.depth() ==> #[trigger] cur.inner@[q] == st.inner@[q],
            forall|j: int| -1 <= j < l - 1 ==> #[trigger] cur.rel_ok(j),
            cur.rel_ok(l - 1),
        ensures
            cur.wf(),
    {
        st.lemma_wf_rel();
        Self::lemma_rels_kept(st, cur, l, st.depth());
        assert forall|j: int| -1 <= j < cur.depth() implies #[trigger] cur.rel_ok(j) by {
            if j < l - 1 {
            } else if j == l - 1 {
            } else {
                assert(l <= j);
            }
        }
        cur.lemma_wf_rel();
    }

    /// Puts `key` with `value` into the index, and returns the key's former
    /// value, if it had one.
    pub fn insert(&mut self, key: K, value: V) -> (r: Option<V>)
        requires
            old(self).wf(),
        ensures
            final(self).wf(),
            inserted(old(self).entries(), final(self).entries(), key, value, r),
            final(self).depth() == old(self).depth(),
    {
        let (b, path, locals) = self.route_path(&key);
        let ghost st = *self;
        let (r, split) = self.put_base(b, key, value);
        proof {
            st.lemma_wf_rel();
            assert forall|q: int| 0 <= q < self.depth() implies #[trigger] self.layer(q) == st.layer(q) by {}
            assert forall|q: int| 0 <= q < self.depth() implies bounded(#[trigger] self.layer(q), self.inner_fanouts@[q] as int) by {
                assert(self.layer(q) == st.layer(q));
            }
            assert(self.shape_ok());
        }
        proof {
            reveal(HybridIndex::climb_frame);
            reveal(HybridIndex::climb_rels);
            assert(self.climb_frame(st, 0, b as int, path@, locals@));
            assert(self.climb_rels(0, b as int, path@, split));
        }
        self.propagate(Ghost(st), b, &path, &locals, split);
        r
    }
}


/// The pairs of key and value of `s`, in order.
pub open spec fn entry_pairs<K, V>(s: Seq<Entry<K, V>>) -> Seq<(K, V)> {
    s.map_values(|e: Entry<K, V>| (e.key, e.value))
}

/// The value that the last pair of `items` with key `k` holds, if any pair has
/// that key: what a map holds of `k` after the pairs are put in it in order.
pub open spec fn last_value<K: StaticBounded, V>(items: Seq<(K, V)>, k: int) -> Option<V>
    decreases items.len(),
{
    if items.len() == 0 {
        None
    } else if items.last().0.key_int() == k {
        Some(items.last().1)
    } else {
        last_value(items.drop_last(), k)
    }
}

/// A lookup in entries finds the value of the last entry with the key.
pub proof fn lemma_finds_last_value<K: StaticBounded, V>(s: Seq<Entry<K, V>>, k: int)
    ensures
        finds(s, k, last_value(entry_pairs(s), k)),
    decreases s.len(),
{
    if s.len() > 0 {
        let t = s.drop_last();
        assert(entry_pairs(s).drop_last() =~= entry_pairs(t));
        lemma_finds_last_value(t, k);
        if s.last().key.key_int() != k {
            match last_value(entry_pairs(t), k) {
                Some(v) => {
                    let g = choose|g: int| 0 <= g < t.len() && #[trigger] t[g].key.key_int() == k && t[g].value == v;
                    assert(s[g] == t[g]);
                },
                None => {
                    assert forall|g: int| 0 <= g < s.len() implies #[trigger] s[g].key.key_int() != k by {
                        if g < t.len() {
                            assert(s[g] == t[g]);
                        }
                    }
                },
            }
        } else {
            assert(s[s.len() - 1] == s.last());
        }
    }
}

impl<K: StaticBounded, V> HybridIndex<K, V> {
    /// The pairs of key and value that the index holds, in key order: what a
    /// store saves of a persisted index.
    pub fn stored_entries(&self) -> (r: Vec<(K, V)>)
        where V: Copy
        ensures
            r@ == entry_pairs(self.entries()),
    {
        let ghost nodes = self.base_nodes();
        let mut out: Vec<(K, V)> = Vec::new();
        let ghost mut acc: Seq<Entry<K, V>> = Seq::empty();
        let mut b: usize = 0;
        proof {
            assert(nodes.take(0) =~= Seq::<Seq<Entry<K, V>>>::empty());
            assert(nodes.take(0).flatten() =~= Seq::<Entry<K, V>>::empty());
        }
        while b < self.base.len()
            invariant
                nodes == self.base_nodes(),
                nodes.len() == self.base@.len(),
                0 <= b <= nodes.len(),
                acc == nodes.take(b as int).flatten(),
                out@ == entry_pairs(acc),
            decreases nodes.len() - b,
        {
            let node = &self.base[b];
            let mut i: usize = 0;
            let ghost start = acc;
            proof {
                assert(node@ == nodes[b as int]);
                assert(node@.take(0) =~= Seq::<Entry<K, V>>::empty());
                assert(acc =~= start + node@.take(0));
            }
            while i < node.len()
                invariant
                    0 <= i <= node@.len(),
                    acc == start + node@.take(i as int),
                    out@ == entry_pairs(acc),
                decreases node@.len() - i,
            {
                let e = node[i];
                out.push((e.key, e.value));
                proof {
                    assert(node@.take(i + 1) =~= node@.take(i as int).push(node@[i as int]));
                    acc = acc.push(node@[i as int]);
                    assert(acc =~= start + node@.take(i + 1));
                    assert(out@ =~= entry_pairs(acc));
                }
                i += 1;
            }
            proof {
                assert(node@.take(i as int) =~= node@);
                assert(nodes.take(b + 1) =~= nodes.take(b as int).push(nodes[b as int]));
                nodes.take(b as int).lemma_flatten_push(nodes[b as int]);
            }
            b += 1;
        }
        proof {
            assert(nodes.take(b as int) =~= nodes);
        }
        out
    }

    /// An index with the layers of `layout` that holds the pairs `stored`, put
    /// in it in order: what a store reads back of a persisted index. The
    /// layout is refused as by `empty`.
    pub fn open(layout: &HybridLayout, stored: &Vec<(K, V)>) -> (r: Result<Self, IndexError>)
        where V: Copy
        ensures
            r is Ok <==> supported_base(layout.base) && forall|j: int|
                0 <= j < layout.internal@.len() ==> supported_internal(#[trigger] layout.internal@[j]),
            r matches Ok(ix) ==> {
                &&& ix.wf()
                &&& ix.depth() == layout.internal@.len()
                &&& forall|k: int| #[trigger] finds(ix.entries(), k, last_value(stored@, k))
            },
    {
        let mut ix = match Self::empty(layout) {
            Ok(ix) => ix,
            Err(e) => return Err(e),
        };
        let mut i: usize = 0;
        proof {
            assert(stored@.take(0).len() == 0);
        }
        while i < stored.len()
            invariant
                ix.wf(),
                ix.depth() == layout.internal@.len(),
                0 <= i <= stored@.len(),
                forall|k: int| #[trigger] finds(ix.entries(), k, last_value(stored@.take(i as int), k)),
            decreases stored@.len() - i,
        {
            let (key, value) = stored[i];
            let ghost before = ix;
            let got = ix.insert(key, value);
            proof {
                let t = stored@.take(i + 1);
                assert(t.drop_last() =~= stored@.take(i as int));
                assert(t.last() == stored@[i as int]);
                assert forall|k: int| #[trigger] finds(ix.entries(), k, last_value(t, k)) by {
                    HybridIndex::lemma_insert_then_search(before, ix, key, value, got, k, last_value(stored@.take(i as int), k));
                }
            }
            i += 1;
        }
        proof {
            assert(stored@.take(i as int) =~= stored@);
        }
        Ok(ix)
    }

    /// An index read back from the pairs that a store saved of another finds,
    /// for every key, what the other one finds.
    pub proof fn lemma_reopen_finds(ix: Self, reopened: Self, k: int, r: Option<V>)
        requires
            ix.wf(),
            reopened.wf(),
            forall|k: int| #[trigger] finds(reopened.entries(), k, last_value(entry_pairs(ix.entries()), k)),
        ensures
            finds(reopened.entries(), k, r) <==> finds(ix.entries(), k, r),
    {
        let lv = last_value(entry_pairs(ix.entries()), k);
        lemma_finds_last_value(ix.entries(), k);
        assert(finds(reopened.entries(), k, lv));
        ix.lemma_entries_sorted();
        reopened.lemma_entries_sorted();
        if finds(reopened.entries(), k, r) {
            crate::node::lemma_finds_unique(reopened.entries(), k, r, lv);
        }
        if finds(ix.entries(), k, r) {
            crate::node::lemma_finds_unique(ix.entries(), k, r, lv);
        }
    }
}

} // verus!
