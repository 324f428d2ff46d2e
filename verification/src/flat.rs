//! Facts about a sequence of nodes and the sequence of their entries, read
//! node after node.
use vstd::prelude::*;
use vstd::seq_lib::lemma_flatten_concat;

verus! {

/// The position, among the entries of all nodes, of the first entry of node `p`.
pub open spec fn offset<A>(nodes: Seq<Seq<A>>, p: int) -> int {
    nodes.take(p).flatten().len() as int
}

/// The entries are those of the nodes before `p`, then node `p`'s, then those
/// of the nodes after it.
pub proof fn lemma_flatten_around<A>(nodes: Seq<Seq<A>>, p: int)
    requires
        0 <= p < nodes.len(),
    ensures
        nodes.flatten() == nodes.take(p).flatten() + nodes[p] + nodes.skip(p + 1).flatten(),
{
    let pre = nodes.take(p);
    let mid = seq![nodes[p]];
    let post = nodes.skip(p + 1);
    assert(nodes =~= pre + (mid + post));
    lemma_flatten_concat(pre, mid + post);
    lemma_flatten_concat(mid, post);
    assert(mid.flatten() == nodes[p]) by {
        mid.lemma_flatten_one_element();
    }
    assert(pre.flatten() + (nodes[p] + post.flatten()) =~= pre.flatten() + nodes[p] + post.flatten());
}

/// The offset of the node after `p` is `p`'s offset plus its length.
pub proof fn lemma_offset_step<A>(nodes: Seq<Seq<A>>, p: int)
    requires
        0 <= p < nodes.len(),
    ensures
        offset(nodes, p + 1) == offset(nodes, p) + nodes[p].len(),
{
    assert(nodes.take(p + 1) =~= nodes.take(p).push(nodes[p]));
    nodes.take(p).lemma_flatten_push(nodes[p]);
}

/// Entry `i` of node `p` is entry `offset(p) + i` of all entries.
pub proof fn lemma_flatten_index<A>(nodes: Seq<Seq<A>>, p: int, i: int)
    requires
        0 <= p < nodes.len(),
        0 <= i < nodes[p].len(),
    ensures
        offset(nodes, p) + i < nodes.flatten().len(),
        nodes.flatten()[offset(nodes, p) + i] == nodes[p][i],
{
    lemma_flatten_around(nodes, p);
}

/// Offsets grow with the node's position; the offset past the last node is the
/// number of entries.
pub proof fn lemma_offset_mono<A>(nodes: Seq<Seq<A>>, p: int, q: int)
    requires
        0 <= p <= q <= nodes.len(),
    ensures
        offset(nodes, p) <= offset(nodes, q),
        offset(nodes, nodes.len() as int) == nodes.flatten().len(),
    decreases q - p,
{
    assert(nodes.take(nodes.len() as int) =~= nodes);
    if p < q {
        lemma_offset_step(nodes, q - 1);
        lemma_offset_mono(nodes, p, q - 1);
    }
}

/// Every entry belongs to some node: there is a node whose offsets enclose it.
pub proof fn lemma_locate<A>(nodes: Seq<Seq<A>>, g: int, p: int) -> (q: int)
    requires
        0 <= p < nodes.len(),
        offset(nodes, p) <= g < nodes.flatten().len(),
    ensures
        p <= q < nodes.len(),
        offset(nodes, q) <= g < offset(nodes, q + 1),
        g - offset(nodes, q) < nodes[q].len(),
    decreases nodes.len() - p,
{
    lemma_offset_step(nodes, p);
    lemma_offset_mono(nodes, p + 1, nodes.len() as int);
    if g < offset(nodes, p + 1) {
        p
    } else {
        lemma_locate(nodes, g, p + 1)
    }
}

/// Putting an entry at position `i` of node `p` puts it at position
/// `offset(p) + i` of all entries.
pub proof fn lemma_flatten_insert<A>(nodes: Seq<Seq<A>>, p: int, i: int, e: A)
    requires
        0 <= p < nodes.len(),
        0 <= i <= nodes[p].len(),
    ensures
        nodes.update(p, nodes[p].insert(i, e)).flatten() == nodes.flatten().insert(offset(nodes, p) + i, e),
        forall|q: int| 0 <= q <= p ==> #[trigger] offset(nodes.update(p, nodes[p].insert(i, e)), q) == offset(nodes, q),
{
    let n2 = nodes.update(p, nodes[p].insert(i, e));
    lemma_flatten_around(nodes, p);
    lemma_flatten_around(n2, p);
    assert(n2.take(p) =~= nodes.take(p));
    assert(n2.skip(p + 1) =~= nodes.skip(p + 1));
    let o = offset(nodes, p);
    assert(n2.flatten() =~= nodes.flatten().insert(o + i, e));
    assert forall|q: int| 0 <= q <= p implies #[trigger] offset(n2, q) == offset(nodes, q) by {
        assert(n2.take(q) =~= nodes.take(q));
    }
}

/// Changing entry `i` of node `p` changes entry `offset(p) + i` of all entries.
pub proof fn lemma_flatten_update<A>(nodes: Seq<Seq<A>>, p: int, i: int, e: A)
    requires
        0 <= p < nodes.len(),
        0 <= i < nodes[p].len(),
    ensures
        nodes.update(p, nodes[p].update(i, e)).flatten() == nodes.flatten().update(offset(nodes, p) + i, e),
        forall|q: int| 0 <= q <= nodes.len() ==> #[trigger] offset(nodes.update(p, nodes[p].update(i, e)), q) == offset(nodes, q),
{
    let n2 = nodes.update(p, nodes[p].update(i, e));
    lemma_flatten_around(nodes, p);
    lemma_flatten_around(n2, p);
    assert(n2.take(p) =~= nodes.take(p));
    assert(n2.skip(p + 1) =~= nodes.skip(p + 1));
    let o = offset(nodes, p);
    assert(n2.flatten() =~= nodes.flatten().update(o + i, e));
    assert forall|q: int| 0 <= q <= nodes.len() implies #[trigger] offset(n2, q) == offset(nodes, q) by {
        if q <= p {
            assert(n2.take(q) =~= nodes.take(q));
        } else {
            lemma_flatten_around(nodes.take(q), p);
            lemma_flatten_around(n2.take(q), p);
            assert(n2.take(q).take(p) =~= nodes.take(q).take(p));
            assert(n2.take(q).skip(p + 1) =~= nodes.take(q).skip(p + 1));
        }
    }
}

/// The nodes with node `p` replaced by the two nodes `a` and `b`.
pub open spec fn split_node<A>(nodes: Seq<Seq<A>>, p: int, a: Seq<A>, b: Seq<A>) -> Seq<Seq<A>> {
    nodes.take(p) + seq![a, b] + nodes.skip(p + 1)
}

/// Cutting node `p` in two nodes `a` and `b` leaves the entries as they are.
pub proof fn lemma_flatten_split<A>(nodes: Seq<Seq<A>>, p: int, a: Seq<A>, b: Seq<A>)
    requires
        0 <= p < nodes.len(),
        a + b == nodes[p],
    ensures
        split_node(nodes, p, a, b).flatten() == nodes.flatten(),
        forall|q: int| 0 <= q <= p ==> #[trigger] offset(split_node(nodes, p, a, b), q) == offset(nodes, q),
        offset(split_node(nodes, p, a, b), p + 1) == offset(nodes, p) + a.len(),
        forall|q: int| p < q <= nodes.len() ==> #[trigger] offset(split_node(nodes, p, a, b), q + 1) == offset(nodes, q),
{
    let n2 = split_node(nodes, p, a, b);
    lemma_flatten_around(nodes, p);
    lemma_flatten_concat(nodes.take(p) + seq![a, b], nodes.skip(p + 1));
    lemma_flatten_concat(nodes.take(p), seq![a, b]);
    assert(seq![a, b].flatten() =~= a + b) by {
        assert(seq![a, b] =~= seq![a].push(b));
        seq![a].lemma_flatten_push(b);
        seq![a].lemma_flatten_one_element();
    }
    assert(n2.flatten() =~= nodes.flatten());
    assert forall|q: int| 0 <= q <= p implies #[trigger] offset(n2, q) == offset(nodes, q) by {
        assert(n2.take(q) =~= nodes.take(q));
    }
    assert(n2.take(p + 1) =~= nodes.take(p).push(a));
    nodes.take(p).lemma_flatten_push(a);
    assert forall|q: int| p < q <= nodes.len() implies #[trigger] offset(n2, q + 1) == offset(nodes, q) by {
        let t = nodes.take(q);
        assert(n2.take(q + 1) =~= t.take(p) + seq![a, b] + t.skip(p + 1));
        lemma_flatten_split_len(t, p, a, b);
    }
}

proof fn lemma_flatten_split_len<A>(t: Seq<Seq<A>>, p: int, a: Seq<A>, b: Seq<A>)
    requires
        0 <= p < t.len(),
        a + b == t[p],
    ensures
        (t.take(p) + seq![a, b] + t.skip(p + 1)).flatten().len() == t.flatten().len(),
{
    lemma_flatten_around(t, p);
    lemma_flatten_concat(t.take(p) + seq![a, b], t.skip(p + 1));
    lemma_flatten_concat(t.take(p), seq![a, b]);
    assert(seq![a, b] =~= seq![a].push(b));
    seq![a].lemma_flatten_push(b);
    seq![a].lemma_flatten_one_element();
}

} // verus!
