use limousine_core::{Bound, Entry, Index, Iter, LinkedList, MutIter};

fn layer() -> (LinkedList<Entry<i32, i32>, u32>, Vec<Index>) {
    let mut list: LinkedList<Entry<i32, i32>, u32> = LinkedList::new(Entry::new(i32::MAX, 0));
    let a = list.append_before_sentinel(Entry::new(10, 1));
    let b = list.append_before_sentinel(Entry::new(20, 2));
    let c = list.append_before_sentinel(Entry::new(30, 3));
    let s = list.last;
    (list, vec![a, b, c, s])
}

fn collect(mut it: Iter<i32, Entry<i32, i32>, u32>) -> Vec<(i32, Index)> {
    let mut out = Vec::new();
    while let Some(item) = it.next() {
        out.push(item);
    }
    out
}

#[test]
fn iter_included_bounds() {
    let (list, h) = layer();
    let got = collect(Iter::range(&list, Bound::Included(h[0]), Bound::Included(h[1])));
    assert_eq!(got, vec![(10, h[0]), (20, h[1])]);
}

#[test]
fn iter_excluded_bounds() {
    let (list, h) = layer();
    let got = collect(Iter::range(&list, Bound::Excluded(h[0]), Bound::Excluded(h[2])));
    assert_eq!(got, vec![(20, h[1])]);
}

#[test]
fn iter_unbounded_reaches_the_sentinel() {
    let (list, h) = layer();
    let got = collect(Iter::range(&list, Bound::Unbounded, Bound::Unbounded));
    assert_eq!(got, vec![(10, h[0]), (20, h[1]), (30, h[2]), (i32::MAX, h[3])]);
}

#[test]
fn iter_empty_when_start_is_the_excluded_end() {
    let (list, h) = layer();
    let got = collect(Iter::range(&list, Bound::Included(h[1]), Bound::Excluded(h[1])));
    assert!(got.is_empty());
}

#[test]
fn mut_iter_sets_parents_along_the_run() {
    let (mut list, h) = layer();
    let mut it: MutIter<i32> = MutIter::range(&list, Bound::Included(h[1]), Bound::Unbounded);
    let mut keys = Vec::new();
    while let Some(view) = it.next(&list) {
        keys.push(view.key());
        view.set_parent(&mut list, 7);
    }
    assert_eq!(keys, vec![20, 30, i32::MAX]);
    assert_eq!(list.parent(h[0]), None);
    assert_eq!(list.parent(h[1]), Some(7));
    assert_eq!(list.parent(h[2]), Some(7));
    assert_eq!(list.parent(h[3]), Some(7));
}
