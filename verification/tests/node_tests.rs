use limousine_core::{Address, Arena, BTreeNode, Entry, Index, KeyBounded, LinkedList, MemoryBTreeLayer};

#[test]
fn arena_add_and_deref() {
    let mut arena: Arena<u32> = Arena::new();
    let a = arena.add(10);
    let b = arena.add(20);
    assert_ne!(a, b);
    assert_eq!(*arena.deref(a), 10);
    assert_eq!(*arena.deref(b), 20);
    *arena.deref_mut(a) = 11;
    assert_eq!(*arena.deref(a), 11);
    arena.reset();
    let c: Address = arena.add(30);
    assert_eq!(c, a);
    assert_eq!(*arena.deref(c), 30);
}

#[test]
fn entry_bounds_by_key() {
    let e = Entry::new(5i64, "five");
    assert_eq!(e.key, 5);
    assert_eq!(e.value, "five");
    assert_eq!(e.lower_bound(), 5);
}

#[test]
fn node_insert_search_split() {
    let mut node: BTreeNode<i64, u32, 4> = BTreeNode::empty();
    assert!(node.is_empty());
    assert_eq!(node.min(), i64::MIN);
    assert_eq!(node.insert(20, 2), None);
    assert_eq!(node.insert(10, 1), None);
    assert!(node.is_half_full());
    assert!(!node.is_full());
    assert_eq!(node.insert(40, 4), None);
    assert_eq!(node.insert(30, 3), None);
    assert!(node.is_full());
    assert_eq!(node.insert(30, 33), Some(3));
    let keys: Vec<i64> = node.entries().iter().map(|e| e.key).collect();
    assert_eq!(keys, vec![10, 20, 30, 40]);
    assert_eq!(node.min(), 10);
    assert_eq!(node.search_exact(&30), Some(&33));
    assert_eq!(node.search_exact(&35), None);
    assert_eq!(*node.search_lub(&35), 33);
    assert_eq!(*node.search_lub(&5), 1);
    assert_eq!(*node.search_lub(&100), 4);
    let (split_key, upper) = node.split();
    assert_eq!(split_key, 30);
    let low: Vec<i64> = node.entries().iter().map(|e| e.key).collect();
    let high: Vec<i64> = upper.entries().iter().map(|e| e.key).collect();
    assert_eq!(low, vec![10, 20]);
    assert_eq!(high, vec![30, 40]);
    assert_eq!(upper.lower_bound(), 30);
}

/// The keys of each node of a layer, walked from its first node.
fn layer_keys<PA>(layer: &MemoryBTreeLayer<u64, Index, 4, PA>) -> Vec<Vec<u64>> {
    let mut out = Vec::new();
    let mut cur = Some(layer.first());
    while let Some(p) = cur {
        out.push(layer.deref(p).entries().iter().map(|e| e.key).collect());
        cur = layer.next(p);
    }
    out
}

#[test]
fn layer_fill_chunks_by_half_fanout() {
    let mut layer: MemoryBTreeLayer<u64, u64, 4, ()> = MemoryBTreeLayer::empty();
    let items: Vec<(u64, u64)> = (0..5).map(|i| (i * 10, i)).collect();
    layer.fill(items);
    let mut sizes = Vec::new();
    let mut cur = Some(layer.first());
    while let Some(p) = cur {
        sizes.push(layer.deref(p).entries().len());
        cur = layer.next(p);
    }
    assert_eq!(sizes, vec![2, 2, 1]);
    assert_eq!(layer.deref(layer.last()).entries()[0].key, 40);
}

/// A base list of nodes keyed 10, 20, ..., and a sentinel keyed at the top.
fn base_list(n: u64) -> LinkedList<Entry<u64, u64>, Index> {
    let mut base: LinkedList<Entry<u64, u64>, Index> = LinkedList::new(Entry::new(u64::MAX, 0));
    for i in 1..=n {
        base.append_before_sentinel(Entry::new(i * 10, i));
    }
    base
}

#[test]
fn layer_fill_with_parent_points_base_nodes_up() {
    let mut base = base_list(4);
    let mut layer: MemoryBTreeLayer<u64, Index, 4, u32> = MemoryBTreeLayer::empty();
    layer.fill_with_parent(&mut base);
    assert_eq!(layer_keys(&layer), vec![vec![10, 20], vec![30, 40], vec![u64::MAX]]);
    let first = layer.first();
    let second = layer.next(first).unwrap();
    let mut cur = Some(base.first);
    let mut parents = Vec::new();
    while let Some(p) = cur {
        parents.push(base.parent(p).unwrap());
        cur = base.deref(p).next();
    }
    assert_eq!(parents, vec![first, first, second, second, layer.last()]);
}

#[test]
fn layer_insert_into_room_and_split() {
    let mut layer: MemoryBTreeLayer<u64, u64, 4, u32> = MemoryBTreeLayer::empty();
    layer.fill((0..4).map(|i| (i * 10 + 10, i)).collect());
    let first = layer.first();
    assert_eq!(layer.insert(15, 9, first), None);
    assert_eq!(layer.deref(first).entries().iter().map(|e| e.key).collect::<Vec<_>>(), vec![10, 15, 20]);
    assert_eq!(layer.insert(5, 8, first), None);
    layer.set_parent(first, 77);
    // The first node is full now: it splits, and 25 goes to the upper half.
    let got = layer.insert(25, 7, first);
    let (key, new_ptr, parent) = got.unwrap();
    assert_eq!(key, 15);
    assert_eq!(parent, 77);
    assert_eq!(layer.next(first), Some(new_ptr));
    assert_eq!(layer.deref(first).entries().iter().map(|e| e.key).collect::<Vec<_>>(), vec![5, 10]);
    assert_eq!(layer.deref(new_ptr).entries().iter().map(|e| e.key).collect::<Vec<_>>(), vec![15, 20, 25]);
    assert_eq!(layer.parent(new_ptr), None);
}

#[test]
fn layer_insert_with_parent_moves_children() {
    let mut base = base_list(4);
    let mut layer: MemoryBTreeLayer<u64, Index, 4, u32> = MemoryBTreeLayer::empty();
    layer.fill_with_parent(&mut base);
    let first = layer.first();
    let new_base = base.insert_after(Entry::new(15, 99), base.first);
    assert_eq!(layer.insert_with_parent(15, new_base, &mut base, first), None);
    assert_eq!(base.parent(new_base), Some(first));
    let newer = base.insert_after(Entry::new(17, 98), new_base);
    layer.set_parent(first, 5);
    // One more entry fills the first node; the next one splits it.
    assert_eq!(layer.insert_with_parent(17, newer, &mut base, first), None);
    let extra = base.insert_after(Entry::new(18, 97), newer);
    let got = layer.insert_with_parent(18, extra, &mut base, first).unwrap();
    let (key, np, parent) = got;
    assert_eq!(parent, 5);
    assert_eq!(key, 17);
    assert_eq!(layer.deref(first).entries().iter().map(|e| e.key).collect::<Vec<_>>(), vec![10, 15]);
    assert_eq!(layer.deref(np).entries().iter().map(|e| e.key).collect::<Vec<_>>(), vec![17, 18, 20]);
    assert_eq!(base.parent(newer), Some(np));
    assert_eq!(base.parent(extra), Some(np));
    assert_eq!(base.parent(new_base), Some(first));
    assert_eq!(base.parent(base.first), Some(first));
}
