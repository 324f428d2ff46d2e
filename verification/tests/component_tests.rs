use limousine_core::{BTreeBaseComponent, BTreeInternalComponent, BTreeTopComponent, Index, NodeLayer, PropogateInsert};

type Base = BTreeBaseComponent<u64, u64, 4, Index>;
type Internal = BTreeInternalComponent<u64, (), 4, Index>;

fn keys_of<L: NodeLayer<u64, Index>>(layer: &L) -> Vec<u64> {
    let mut out = Vec::new();
    let mut cur = Some(layer.first());
    while let Some(p) = cur {
        out.push(layer.lower_bound(p));
        cur = layer.next_node(p);
    }
    out
}

fn three_levels() -> (Base, Internal, BTreeTopComponent<u64>) {
    let mut base: Base = BTreeBaseComponent::build((1..=8).map(|i| (i * 10, i)).collect());
    let internal: Internal = BTreeInternalComponent::build(&mut base);
    let top = BTreeTopComponent::build(&internal);
    (base, internal, top)
}

#[test]
fn components_build_in_levels() {
    let (base, internal, _) = three_levels();
    assert_eq!(keys_of(&base), vec![10, 30, 50, 70]);
    assert_eq!(keys_of(&internal), vec![10, 50]);
    let mut cur = Some(base.first());
    let mut parents = Vec::new();
    while let Some(p) = cur {
        parents.push(base.parent(p).unwrap());
        cur = base.next_node(p);
    }
    let i0 = internal.first();
    let i1 = internal.last();
    assert_eq!(parents, vec![i0, i0, i1, i1]);
}

#[test]
fn components_search_down_the_levels() {
    let (base, internal, top) = three_levels();
    let i = top.search(&internal, &55);
    assert_eq!(i, internal.last());
    let b = internal.search(&base, i, &55);
    assert_eq!(base.lower_bound(b), 50);
    assert_eq!(base.search(b, &55), None);
    assert_eq!(base.search(b, &60), Some(&6));
    let b0 = internal.search(&base, top.search(&internal, &10), &10);
    assert_eq!(base.search(b0, &10), Some(&1));
}

#[test]
fn components_propagate_a_split() {
    let (mut base, mut internal, mut top) = three_levels();
    let b = internal.search(&base, top.search(&internal, &55), &55);
    assert!(base.insert(b, 55, 99).is_none());
    assert!(base.insert(b, 57, 98).is_none());
    let prop = base.insert(b, 58, 97).unwrap();
    let new_node = match prop {
        PropogateInsert::Single(key, address, parent) => {
            assert_eq!(key, 57);
            assert_eq!(parent, internal.last());
            address
        }
        PropogateInsert::Replace(..) => panic!("a split hands up one node"),
    };
    assert_eq!(keys_of(&base), vec![10, 30, 50, 57, 70]);
    assert!(internal.insert(&mut base, PropogateInsert::Single(57, new_node, internal.last())).is_none());
    assert_eq!(base.parent(new_node), Some(internal.last()));
    assert_eq!(base.search(new_node, &58), Some(&97));
    let found = internal.search(&base, top.search(&internal, &58), &58);
    assert_eq!(found, new_node);
    top.insert::<Internal, ()>(&internal, PropogateInsert::Replace((), ()));
    assert_eq!(top.search(&internal, &99), internal.last());
}
