use limousine_core::{
    AttributeValue, BaseComponent, Component, ComponentAttribute, ComponentError, HybridLayout, InternalComponent,
    LayerBaseType, LayerType, LayoutError, TopComponent,
};

fn attr(key: &str, value: AttributeValue) -> ComponentAttribute {
    ComponentAttribute { key: key.to_string(), value }
}

#[test]
fn components_read_from_attributes() {
    let top = Component::from_attributes(&"btree_top".to_string(), &vec![]);
    assert_eq!(top, Ok(Component::BTreeTop));
    let btree = Component::from_attributes(
        &"btree".to_string(),
        &vec![attr("fanout", AttributeValue::Int(Some(32))), attr("persist", AttributeValue::Flag)],
    );
    assert_eq!(btree, Ok(Component::BTree { fanout: 32, persist: true }));
    let pgm = Component::from_attributes(&"pgm".to_string(), &vec![attr("epsilon", AttributeValue::Int(Some(8)))]);
    assert_eq!(pgm, Ok(Component::PGM { epsilon: 8 }));
    let dup = Component::from_attributes(
        &"btree".to_string(),
        &vec![attr("fanout", AttributeValue::Int(Some(8))), attr("fanout", AttributeValue::Int(Some(64)))],
    );
    assert_eq!(dup, Ok(Component::BTree { fanout: 8, persist: false }));
}

#[test]
fn component_errors() {
    let extra = Component::from_attributes(
        &"pgm".to_string(),
        &vec![attr("epsilon", AttributeValue::Int(Some(8))), attr("fanout", AttributeValue::Int(Some(8)))],
    );
    assert_eq!(extra, Err(ComponentError::InvalidAttribute));
    let top_attr = Component::from_attributes(&"btree_top".to_string(), &vec![attr("persist", AttributeValue::Flag)]);
    assert_eq!(top_attr, Err(ComponentError::InvalidAttribute));
    let unknown = Component::from_attributes(&"lsm".to_string(), &vec![]);
    assert_eq!(unknown, Err(ComponentError::InvalidComponentType));
    assert_eq!(unknown.unwrap_err().message(), "Invalid component type!");
    let unknown_attr = Component::from_attributes(&"lsm".to_string(), &vec![attr("x", AttributeValue::Other)]);
    assert_eq!(unknown_attr, Err(ComponentError::InvalidAttribute));
    let large = Component::from_attributes(&"btree".to_string(), &vec![attr("fanout", AttributeValue::Int(None))]);
    assert_eq!(large, Err(ComponentError::NumberTooLarge));
}

#[test]
fn layout_from_readme_stack() {
    let cs = vec![
        Component::BTreeTop,
        Component::BTree { fanout: 8, persist: false },
        Component::BTree { fanout: 32, persist: false },
        Component::BTree { fanout: 32, persist: true },
        Component::BTree { fanout: 64, persist: true },
    ];
    let layout = HybridLayout::from_components(&cs).unwrap();
    assert_eq!(layout.top, TopComponent::BTreeTop);
    assert_eq!(
        layout.internal,
        vec![
            InternalComponent::BTree { fanout: 8, persist: false },
            InternalComponent::BTree { fanout: 32, persist: false },
            InternalComponent::BTree { fanout: 32, persist: true },
        ]
    );
    assert_eq!(layout.base, BaseComponent::BTree { fanout: 64, persist: true });
    assert!(layout.is_persisted());
}

#[test]
fn layout_errors() {
    assert_eq!(HybridLayout::from_components(&vec![]).err(), Some(LayoutError::EmptyLayout));
    assert_eq!(
        HybridLayout::from_components(&vec![Component::PGM { epsilon: 8 }, Component::PGM { epsilon: 8 }]).err(),
        Some(LayoutError::InvalidTop)
    );
    assert_eq!(HybridLayout::from_components(&vec![Component::BTreeTop]).err(), Some(LayoutError::NoInternalOrBase));
    let below = vec![
        Component::BTreeTop,
        Component::BTree { fanout: 32, persist: true },
        Component::BTree { fanout: 32, persist: false },
    ];
    assert_eq!(HybridLayout::from_components(&below).err(), Some(LayoutError::InMemoryBelowPersisted(2)));
    let two_tops = vec![Component::BTreeTop, Component::BTreeTop, Component::BTree { fanout: 8, persist: false }];
    assert_eq!(HybridLayout::from_components(&two_tops).err(), Some(LayoutError::InvalidInternal(1)));
    assert_eq!(LayoutError::EmptyLayout.message(), "Empty layout!");
}

#[test]
fn component_kinds() {
    assert!(!Component::BTreeTop.is_persisted());
    assert!(Component::BTree { fanout: 4, persist: true }.is_persisted());
    assert_eq!(TopComponent::from_general(Component::PGM { epsilon: 2 }), None);
    assert_eq!(InternalComponent::from_general(Component::BTreeTop), None);
    assert_eq!(
        BaseComponent::from_general(Component::PGM { epsilon: 2 }),
        Some(BaseComponent::PGM { epsilon: 2 })
    );
    assert_eq!(LayerType::BTree { fanout: 4 }.to_base(), LayerBaseType::BTree);
    assert_eq!(LayerType::PGM { epsilon: 4 }.to_base(), LayerBaseType::PGM);
    let in_memory = HybridLayout::from_components(&vec![Component::BTreeTop, Component::BTree { fanout: 8, persist: false }])
        .unwrap();
    assert!(!in_memory.is_persisted());
}

#[test]
fn layer_types_from_names() {
    assert_eq!(LayerBaseType::from_name(&"btree".to_string()), Some(LayerBaseType::BTree));
    assert_eq!(LayerBaseType::from_name(&"pgm".to_string()), Some(LayerBaseType::PGM));
    assert_eq!(LayerBaseType::from_name(&"lsm".to_string()), None);
    assert_eq!(LayerType::new(LayerBaseType::BTree, 8), LayerType::BTree { fanout: 8 });
    assert_eq!(LayerType::new(LayerBaseType::PGM, 4), LayerType::PGM { epsilon: 4 });
    assert_eq!(LayerBaseType::unknown_message(), "expected 'btree()', 'pgm()'");
}
