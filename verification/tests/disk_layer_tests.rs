use limousine_core::{BTreeNode, BoundaryDiskBTreeLayer, DeepDiskList, DiskCatalog};
use std::collections::HashMap;

type Node = BTreeNode<u64, u64, 4>;

fn keys(node: &Node) -> Vec<u64> {
    node.entries().iter().map(|e| e.key).collect()
}

#[test]
fn catalog_links_pages_in_order() {
    let mut catalog = DiskCatalog::new(7);
    assert_eq!(catalog.first(), 7);
    assert_eq!(catalog.last(), 7);
    assert_eq!(catalog.next(7), None);
    catalog.insert_after(7, 9);
    catalog.insert_after(7, 8);
    assert_eq!(catalog.next(7), Some(8));
    assert_eq!(catalog.next(8), Some(9));
    assert_eq!(catalog.next(9), None);
    assert_eq!(catalog.first(), 7);
    assert_eq!(catalog.last(), 9);
    let chained = DiskCatalog::chain(&vec![3, 1, 2]);
    assert_eq!(chained.first(), 3);
    assert_eq!(chained.next(3), Some(1));
    assert_eq!(chained.next(1), Some(2));
    assert_eq!(chained.last(), 2);
}

#[test]
fn loaded_layer_has_one_page_and_no_parents() {
    let layer: BoundaryDiskBTreeLayer<u64, u64, 4, usize> = BoundaryDiskBTreeLayer::load(None, 1);
    assert_eq!(layer.first(), 1);
    assert_eq!(layer.last(), 1);
    assert_eq!(layer.parent(1), None);
    let stored = DiskCatalog::chain(&vec![4, 5]);
    let layer: BoundaryDiskBTreeLayer<u64, u64, 4, usize> = BoundaryDiskBTreeLayer::load(Some(stored), 1);
    assert_eq!(layer.first(), 4);
    assert_eq!(layer.next(4), Some(5));
    assert_eq!(layer.last(), 5);
}

#[test]
fn insert_into_a_node_with_room_writes_its_page() {
    let mut layer: BoundaryDiskBTreeLayer<u64, u64, 4, usize> = BoundaryDiskBTreeLayer::load(None, 1);
    let mut node = Node::empty();
    node.insert(10, 100);
    let (writes, split) = layer.insert(node, 5, 50, 1, 2);
    assert!(split.is_none());
    assert_eq!(writes.len(), 1);
    assert_eq!(writes[0].0, 1);
    assert_eq!(keys(&writes[0].1), vec![5, 10]);
    assert_eq!(layer.last(), 1);
    assert_eq!(layer.next(1), None);
}

#[test]
fn insert_into_a_full_node_splits_it() {
    let mut layer: BoundaryDiskBTreeLayer<u64, u64, 4, usize> = BoundaryDiskBTreeLayer::load(None, 1);
    layer.set_parent(1, 0);
    let mut node = Node::empty();
    for k in [10, 20, 30, 40] {
        node.insert(k, k * 10);
    }
    let (writes, split) = layer.insert(node, 35, 350, 1, 2);
    assert_eq!(split, Some((30, 2, 0)));
    assert_eq!(writes.len(), 2);
    assert_eq!(writes[0].0, 1);
    assert_eq!(keys(&writes[0].1), vec![10, 20]);
    assert_eq!(writes[1].0, 2);
    assert_eq!(keys(&writes[1].1), vec![30, 35, 40]);
    assert_eq!(layer.next(1), Some(2));
    assert_eq!(layer.last(), 2);
    assert_eq!(layer.parent(1), Some(0));
    assert_eq!(layer.parent(2), None);

    let mut low = Node::empty();
    for k in [1, 2, 3, 4] {
        low.insert(k, k);
    }
    let (writes, split) = layer.insert(low, 0, 0, 1, 3);
    assert_eq!(split, Some((3, 3, 0)));
    assert_eq!(keys(&writes[0].1), vec![0, 1, 2]);
    assert_eq!(keys(&writes[1].1), vec![3, 4]);
    assert_eq!(layer.next(1), Some(3));
    assert_eq!(layer.next(3), Some(2));
    assert_eq!(layer.last(), 2);
}

#[test]
fn fill_lays_items_out_in_half_full_nodes() {
    let mut layer: BoundaryDiskBTreeLayer<u64, u64, 4, usize> = BoundaryDiskBTreeLayer::load(None, 1);
    layer.set_parent(1, 3);
    let items: Vec<(u64, u64)> = (1..=5).map(|k| (k, k * 10)).collect();
    let writes = layer.fill(items, &vec![10, 11, 12, 13, 14, 15]);
    assert_eq!(writes.len(), 3);
    let ids: Vec<u64> = writes.iter().map(|w| w.0).collect();
    assert_eq!(ids, vec![10, 11, 12]);
    assert_eq!(keys(&writes[0].1), vec![1, 2]);
    assert_eq!(keys(&writes[1].1), vec![3, 4]);
    assert_eq!(keys(&writes[2].1), vec![5]);
    assert_eq!(layer.first(), 10);
    assert_eq!(layer.next(10), Some(11));
    assert_eq!(layer.next(11), Some(12));
    assert_eq!(layer.next(12), None);
    assert_eq!(layer.last(), 12);
    assert_eq!(layer.parent(10), None);
    assert_eq!(layer.parent(1), None);

    let writes = layer.fill(Vec::new(), &vec![20]);
    assert_eq!(writes.len(), 1);
    assert_eq!(writes[0].0, 20);
    assert!(writes[0].1.is_empty());
    assert_eq!(layer.last(), 20);
}

#[test]
fn deep_list_keeps_parents_with_its_pages() {
    let mut parents = HashMap::new();
    parents.insert(2u64, 9usize);
    let mut list = DeepDiskList::load(DiskCatalog::chain(&vec![1, 2, 3]), parents);
    assert_eq!(list.first(), 1);
    assert_eq!(list.last(), 3);
    assert_eq!(list.next(1), Some(2));
    assert_eq!(list.next(3), None);
    assert_eq!(list.parent(2), Some(9));
    assert_eq!(list.parent(1), None);
    list.set_parent(1, 5);
    assert_eq!(list.parent(1), Some(5));
    assert_eq!(list.parent(2), Some(9));
}
