use limousine_core::{Bound, Index, LinkedList, LinkedNode};

/// The data of the linked nodes, walked from `first` along the `next` links.
fn walk(list: &LinkedList<i32, ()>) -> Vec<i32> {
    let mut out = Vec::new();
    let mut cur: Option<Index> = Some(list.first);
    while let Some(ix) = cur {
        out.push(*list.get(ix));
        cur = list.deref(ix).next();
    }
    out
}

/// The data of the linked nodes, walked from `last` along the `previous` links.
fn walk_back(list: &LinkedList<i32, ()>) -> Vec<i32> {
    let mut out = Vec::new();
    let mut cur: Option<Index> = Some(list.last);
    while let Some(ix) = cur {
        out.push(*list.get(ix));
        cur = list.deref(ix).previous();
    }
    out.reverse();
    out
}

#[test]
fn test_linked_list_new() {
    let list: LinkedList<i32, ()> = LinkedList::new(1);

    assert_eq!(list.len(), 1);
    assert_eq!(*list.get(list.first), 1);
    assert_eq!(list.first, list.last);
}

#[test]
fn test_linked_list_insert_after() {
    let mut list: LinkedList<i32, ()> = LinkedList::new(1);

    let first_ptr = list.first;
    let second_ptr = list.insert_after(2, first_ptr);

    assert_eq!(list.deref(first_ptr).next(), Some(second_ptr));
    assert_eq!(list.deref(second_ptr).previous(), Some(first_ptr));
    assert_eq!(list.last, second_ptr);
}

#[test]
fn test_linked_list_insert_before() {
    let mut list: LinkedList<i32, ()> = LinkedList::new(1);

    let first_ptr = list.first;
    let zero_ptr = list.insert_before(0, first_ptr);

    assert_eq!(list.deref(first_ptr).previous(), Some(zero_ptr));
    assert_eq!(list.deref(zero_ptr).next(), Some(first_ptr));
    assert_eq!(list.first, zero_ptr);
}

#[test]
fn test_linked_list_clear() {
    let mut list: LinkedList<i32, ()> = LinkedList::new(1);
    list.insert_after(2, list.first);

    assert_eq!(list.len(), 2);

    list.clear(5);

    assert_eq!(list.len(), 1);
    assert_eq!(*list.get(list.first), 5);
    assert_eq!(list.first, list.last);
}

#[test]
fn test_linked_node_new() {
    let node: LinkedNode<i32, ()> = LinkedNode::new(10);

    assert_eq!(node.inner, 10);
    assert_eq!(node.next(), None);
    assert_eq!(node.previous(), None);
    assert_eq!(node.parent(), None);
}

#[test]
fn test_linked_append_before_sentinel() {
    let mut list: LinkedList<i32, ()> = LinkedList::new(100);

    let new_head_ptr = list.append_before_sentinel(2);
    let sentinel_ptr = list.last;

    assert_eq!(list.deref(new_head_ptr).next(), Some(sentinel_ptr));
    assert_eq!(list.deref(sentinel_ptr).previous(), Some(new_head_ptr));
    assert_eq!(list.first, new_head_ptr);
}

fn four_nodes() -> (LinkedList<i32, ()>, Vec<Index>) {
    let mut list: LinkedList<i32, ()> = LinkedList::new(100);
    let a = list.append_before_sentinel(1);
    let b = list.append_before_sentinel(2);
    let c = list.append_before_sentinel(3);
    let sentinel = list.last;
    (list, vec![a, b, c, sentinel])
}

#[test]
fn append_keeps_the_sentinel_last() {
    let (list, _) = four_nodes();
    assert_eq!(walk(&list), vec![1, 2, 3, 100]);
    assert_eq!(walk_back(&list), vec![1, 2, 3, 100]);
    assert_eq!(list.len(), 4);
}

#[test]
fn delete_subchain_included_run() {
    let (mut list, h) = four_nodes();
    list.delete_subchain(Bound::Included(h[0]), Bound::Included(h[1]));
    assert_eq!(walk(&list), vec![3, 100]);
    assert_eq!(walk_back(&list), vec![3, 100]);
    assert_eq!(list.first, h[2]);
    assert_eq!(list.len(), 2);
}

#[test]
fn delete_subchain_excluded_and_unbounded() {
    let (mut list, h) = four_nodes();
    list.delete_subchain(Bound::Excluded(h[0]), Bound::Unbounded);
    assert_eq!(walk(&list), vec![1, 100]);
    assert_eq!(walk_back(&list), vec![1, 100]);
    assert_eq!(list.len(), 2);

    let (mut list, h) = four_nodes();
    list.delete_subchain(Bound::Unbounded, Bound::Excluded(h[2]));
    assert_eq!(walk(&list), vec![3, 100]);
    assert_eq!(list.first, h[2]);
}

#[test]
fn delete_subchain_after_the_last_node_does_nothing() {
    let (mut list, h) = four_nodes();
    list.delete_subchain(Bound::Excluded(h[3]), Bound::Unbounded);
    assert_eq!(walk(&list), vec![1, 2, 3, 100]);
    assert_eq!(list.len(), 4);
}

#[test]
fn delete_subchain_empty_run_unlinks_one_node() {
    let (mut list, h) = four_nodes();
    list.delete_subchain(Bound::Included(h[1]), Bound::Excluded(h[1]));
    assert_eq!(walk(&list), vec![1, 3, 100]);
    assert_eq!(walk_back(&list), vec![1, 3, 100]);
    assert_eq!(list.len(), 4);
}

#[test]
fn replace_puts_new_nodes_in_place_of_a_run() {
    let (mut list, h) = four_nodes();
    list.replace(h[1], h[2], vec![7, 8, 9]);
    assert_eq!(walk(&list), vec![1, 7, 8, 9, 100]);
    assert_eq!(walk_back(&list), vec![1, 7, 8, 9, 100]);
    assert_eq!(list.len(), 5);

    let (mut list, h) = four_nodes();
    list.replace(h[0], h[0], vec![5]);
    assert_eq!(walk(&list), vec![5, 2, 3, 100]);
    assert_eq!(*list.get(list.first), 5);
}

#[test]
fn parents_are_kept_per_node() {
    let mut list: LinkedList<i32, u32> = LinkedList::new(100);
    let a = list.append_before_sentinel(1);
    assert_eq!(list.parent(a), None);
    list.set_parent(a, 7);
    assert_eq!(list.parent(a), Some(7));
    assert_eq!(list.parent(list.last), None);
    let b = list.insert_after(2, a);
    assert_eq!(list.parent(a), Some(7));
    assert_eq!(list.parent(b), None);
}
