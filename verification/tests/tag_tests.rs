use limousine_core::{DiskNode, GetTypeTag, HeapMap, TypeTag};

struct Pages;

impl GetTypeTag for Pages {
    fn tag() -> TypeTag {
        TypeTag("pages".to_string())
    }
}

#[test]
fn type_tag_to_string_gives_the_name() {
    assert_eq!(Pages::tag().to_string(), "pages".to_string());
    assert!(TypeTag("a".to_string()) == TypeTag("a".to_string()));
    assert!(TypeTag("a".to_string()) != TypeTag("b".to_string()));
}

#[test]
fn disk_node_new_holds_its_data() {
    let node: DiskNode<u32> = DiskNode::new(9);
    assert_eq!(node.inner, 9);
}

#[test]
fn heap_map_holds_its_pairs() {
    let map: HeapMap<u32, u32> = HeapMap { len: 2, data: vec![(1, 10), (2, 20)].into_boxed_slice() };
    assert_eq!(map.len, 2);
    assert_eq!(map.data[1], (2, 20));
}
