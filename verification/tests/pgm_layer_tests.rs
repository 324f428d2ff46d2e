use limousine_core::{CanonicalSegment, Entry, Index, LinkedList, MemoryPGMLayer, PGMNode, Point};

fn leaf(key: i64) -> PGMNode<i64> {
    PGMNode {
        segment: CanonicalSegment::diagonal(Point { x: key, y: 0 }, Point { x: key, y: 0 }, key),
        entries: Vec::new(),
    }
}

fn base_of(keys: &[i64]) -> (LinkedList<PGMNode<i64>, Index>, Vec<Index>) {
    let mut base = LinkedList::new(leaf(i64::MAX));
    let mut handles = Vec::new();
    for k in keys {
        handles.push(base.append_before_sentinel(leaf(*k)));
    }
    (base, handles)
}

/// The new nodes of the layer that stand before the sentinel, first to last.
fn layer_nodes(layer: &MemoryPGMLayer<i64, 1, Index>) -> Vec<(Index, Vec<(i64, Index)>)> {
    let mut out = Vec::new();
    let mut cur = Some(layer.inner.first());
    while let Some(h) = cur {
        let node = layer.inner.deref(h);
        cur = node.next();
        if cur.is_some() {
            let entries = layer.inner.get(h).entries.iter().map(|e: &Entry<i64, Index>| (e.key, e.value)).collect();
            out.push((h, entries));
        }
    }
    out
}

#[test]
fn replace_builds_one_node_per_segment_and_sets_parents() {
    let keys = [0i64, 1, 2, 3, 1000, 1001, 1002];
    let (mut base, handles) = base_of(&keys);
    let mut layer: MemoryPGMLayer<i64, 1, Index> = MemoryPGMLayer::empty();
    let poison = layer.inner.append_before_sentinel(leaf(0));
    layer.replace(&mut base, poison, poison, handles[0], handles[6]);
    let nodes = layer_nodes(&layer);
    assert_eq!(nodes.len(), 2);
    let first: Vec<i64> = nodes[0].1.iter().map(|e| e.0).collect();
    let second: Vec<i64> = nodes[1].1.iter().map(|e| e.0).collect();
    assert_eq!(first, vec![0, 1, 2, 3]);
    assert_eq!(second, vec![1000, 1001, 1002]);
    assert_eq!(layer.inner.get(nodes[0].0).segment.first, 0);
    assert_eq!(layer.inner.get(nodes[1].0).segment.first, 1000);
    for (i, h) in handles.iter().enumerate() {
        let expected = if i < 4 { nodes[0].0 } else { nodes[1].0 };
        assert_eq!(base.parent(*h), Some(expected));
    }
}

#[test]
fn replace_of_a_part_leaves_other_parents() {
    let keys = [10i64, 20, 30, 40];
    let (mut base, handles) = base_of(&keys);
    let mut layer: MemoryPGMLayer<i64, 1, Index> = MemoryPGMLayer::empty();
    let poison = layer.inner.append_before_sentinel(leaf(10));
    layer.replace(&mut base, poison, poison, handles[1], handles[2]);
    let nodes = layer_nodes(&layer);
    assert_eq!(nodes.len(), 1);
    assert_eq!(nodes[0].1, vec![(20, handles[1]), (30, handles[2])]);
    assert_eq!(base.parent(handles[0]), None);
    assert_eq!(base.parent(handles[3]), None);
    assert_eq!(base.parent(handles[1]), Some(nodes[0].0));
    assert_eq!(base.parent(handles[2]), Some(nodes[0].0));
}

#[test]
fn fill_from_beneath_covers_every_base_node() {
    let keys = [0i64, 1, 2, 3, 1000, 1001, 1002];
    let (mut base, mut handles) = base_of(&keys);
    handles.push(base.last());
    let mut layer: MemoryPGMLayer<i64, 1, Index> = MemoryPGMLayer::empty();
    layer.fill_from_beneath(&mut base);
    let nodes = layer_nodes(&layer);
    assert!(nodes.len() >= 2);
    assert_eq!(layer.inner.get(layer.inner.last()).segment.first, i64::MAX);
    assert!(layer.inner.get(layer.inner.last()).entries.is_empty());
    let flat: Vec<(i64, Index)> = nodes.iter().flat_map(|n| n.1.clone()).collect();
    let mut expected: Vec<(i64, Index)> = keys.iter().zip(handles.iter()).map(|(k, h)| (*k, *h)).collect();
    expected.push((i64::MAX, handles[7]));
    assert_eq!(flat, expected);
    for node in nodes.iter() {
        for (_, h) in node.1.iter() {
            assert_eq!(base.parent(*h), Some(node.0));
        }
    }
    assert_eq!(nodes[0].1.iter().map(|e| e.0).collect::<Vec<i64>>(), vec![0, 1, 2, 3]);
}

#[test]
fn fill_lays_out_items_behind_a_sentinel() {
    let (_, handles) = base_of(&[10i64, 20, 30]);
    let items: Vec<(i64, Index)> = vec![(10, handles[0]), (20, handles[1]), (30, handles[2])];
    let mut layer: MemoryPGMLayer<i64, 1, Index> = MemoryPGMLayer::empty();
    layer.fill(items.clone());
    let nodes = layer_nodes(&layer);
    assert_eq!(nodes.len(), 1);
    assert_eq!(nodes[0].1, items);
    assert_eq!(layer.inner.parent(nodes[0].0), None);
    assert_eq!(layer.inner.get(layer.inner.last()).segment.first, i64::MAX);
}

/// Every entry of every node before the sentinel lies within `EPSILON` of
/// the node's line of largest slope at its rank among all the entries, and
/// the entries, in order, are `expected`.
fn check_layer_normal(layer: &MemoryPGMLayer<i64, 1, Index>, expected: &[(i64, Index)]) {
    let epsilon: i128 = 1;
    let nodes = layer_nodes(layer);
    let mut rank: i128 = 0;
    let mut seen = Vec::new();
    for (h, entries) in nodes.iter() {
        let seg = layer.inner.get(*h).segment;
        assert_eq!(seg.first, entries[0].0);
        let r1 = seg.rectangle[1];
        let r3 = seg.rectangle[3];
        let dx = r3.x as i128 - r1.x as i128;
        let dy = r3.y as i128 - r1.y as i128;
        for (key, handle) in entries.iter() {
            let low = if rank >= epsilon { rank - epsilon } else { 0 };
            if seg.one_point() {
                assert!(low <= r1.y as i128 && r1.y as i128 <= rank + epsilon);
            } else {
                let on_line = r1.y as i128 * dx + dy * (*key as i128 - r1.x as i128);
                assert!(low * dx <= on_line && on_line <= (rank + epsilon) * dx);
            }
            seen.push((*key, *handle));
            rank += 1;
        }
    }
    assert_eq!(seen, expected);
}

#[test]
fn basic_fill() {
    let size: usize = 10_000;
    let keys: Vec<i64> = (0..size as i64).map(|i| i * 7 + (i * i) % 5).collect();
    let (_, handles) = base_of(&keys);
    let items: Vec<(i64, Index)> = keys.iter().zip(handles.iter()).map(|(k, h)| (*k, *h)).collect();
    let mut layer: MemoryPGMLayer<i64, 1, Index> = MemoryPGMLayer::empty();
    layer.fill(items.clone());
    check_layer_normal(&layer, &items);
}

#[test]
fn fill_from_beneath() {
    let beneath_size: usize = 100_000;
    let keys: Vec<i64> = (0..beneath_size as i64).map(|i| i * 3 + (i % 11) / 4).collect();
    let (mut base, mut handles) = base_of(&keys);
    handles.push(base.last());
    let mut layer: MemoryPGMLayer<i64, 1, Index> = MemoryPGMLayer::empty();
    layer.fill_from_beneath(&mut base);
    let mut expected: Vec<(i64, Index)> = keys.iter().zip(handles.iter()).map(|(k, h)| (*k, *h)).collect();
    expected.push((i64::MAX, handles[beneath_size]));
    check_layer_normal(&layer, &expected);
    for (h, entries) in layer_nodes(&layer).iter() {
        for (_, b) in entries.iter() {
            assert_eq!(base.parent(*b), Some(*h));
        }
    }
}
