use limousine_core::{Component, HybridIndex, HybridLayout, IndexError};
use rand::distributions::Uniform;
use rand::{thread_rng, Rng};

type K = i128;
type V = i128;

fn btree(fanout: usize) -> Component {
    Component::BTree { fanout, persist: false }
}

fn build(layout: Vec<Component>) -> HybridIndex<K, V> {
    let layout = HybridLayout::from_components(&layout).expect("valid layout");
    HybridIndex::empty(&layout).expect("supported layout")
}

fn test_index(layout: Vec<Component>) {
    let mut rng = thread_rng();
    let key_dist = Uniform::new(K::MIN, K::MAX);
    let value_dist = Uniform::new(V::MIN, V::MAX);

    let num = 20_000;
    let keys: Vec<K> = (&mut rng)
        .sample_iter(key_dist)
        .filter(|&x| x < 0 as K || x > 10_000 as K) // we want to test for false positives as
        // well
        .take(num)
        .collect();

    let values: Vec<V> = (&mut rng).sample_iter(value_dist).take(num).collect();

    {
        let mut index = build(layout);

        // Test inserts
        for i in 0..num {
            index.insert(keys[i], values[i]);
        }

        // Test searches
        for i in 0..num {
            assert_eq!(index.search(keys[i]), Some(values[i]));
        }

        for key in 0..10_000 {
            assert_eq!(index.search(key as K), None);
        }
    }
}

#[test]
fn test_index_1() {
    test_index(vec![Component::BTreeTop, btree(64)]);
}

#[test]
fn test_index_2() {
    test_index(vec![Component::BTreeTop, btree(32)]);
}

#[test]
fn test_index_3() {
    test_index(vec![Component::BTreeTop, btree(32), btree(32)]);
}

#[test]
fn test_index_4() {
    test_index(vec![Component::BTreeTop, btree(8), btree(8), btree(32)]);
}

#[test]
fn test_index_5() {
    test_index(vec![Component::BTreeTop, btree(8), btree(8), btree(8), btree(32)]);
}

#[test]
fn test_index_6() {
    test_index(vec![Component::BTreeTop, btree(8), btree(8), btree(8), btree(8), btree(8), btree(32)]);
}

#[test]
fn test_index_7() {
    test_index(vec![Component::BTreeTop, btree(8), btree(8), btree(8), btree(8), btree(8), btree(8)]);
}

#[test]
fn insert_returns_previous_value() {
    let mut index = build(vec![Component::BTreeTop, btree(4), btree(2)]);
    for k in 0..200i128 {
        assert_eq!(index.insert(k * 7 % 201, k), None);
    }
    assert_eq!(index.insert(7, -1), Some(1));
    assert_eq!(index.search(7), Some(-1));
    assert_eq!(index.search(14), Some(2));
    assert_eq!(index.search(1000), None);
    assert_eq!(index.search(i128::MIN), None);
}

#[test]
fn unsupported_layouts_are_refused() {
    let pgm = HybridLayout::from_components(&vec![Component::BTreeTop, Component::PGM { epsilon: 8 }]).unwrap();
    assert_eq!(HybridIndex::<K, V>::empty(&pgm).err(), Some(IndexError::UnsupportedComponent));
    let disk = HybridLayout::from_components(&vec![Component::BTreeTop, Component::BTree { fanout: 1, persist: true }])
        .unwrap();
    assert_eq!(HybridIndex::<K, V>::empty(&disk).err(), Some(IndexError::UnsupportedComponent));
    assert_eq!(HybridIndex::<K, V>::open(&disk, &vec![(1, 2)]).err(), Some(IndexError::UnsupportedComponent));
    let tiny = HybridLayout::from_components(&vec![Component::BTreeTop, btree(1)]).unwrap();
    assert_eq!(HybridIndex::<K, V>::empty(&tiny).err(), Some(IndexError::UnsupportedComponent));
}

fn persisted(fanout: usize) -> Component {
    Component::BTree { fanout, persist: true }
}

fn test_persisted_index(layout: Vec<Component>) {
    let layout = HybridLayout::from_components(&layout).expect("valid layout");
    let mut rng = thread_rng();
    let key_dist = Uniform::new(K::MIN, K::MAX);
    let value_dist = Uniform::new(V::MIN, V::MAX);

    let num = 20_000;
    let keys: Vec<K> = (&mut rng)
        .sample_iter(key_dist)
        .filter(|&x| x < 0 as K || x > 10_000 as K) // we want to test for false positives as
        // well
        .take(num)
        .collect();

    let values: Vec<V> = (&mut rng).sample_iter(value_dist).take(num).collect();

    let saved = {
        let mut index: HybridIndex<K, V> = HybridIndex::open(&layout, &Vec::new()).expect("Failed to open index");

        // Test inserts
        for i in 0..num {
            index.insert(keys[i], values[i]);
        }

        // Test searches
        for i in 0..num {
            assert_eq!(index.search(keys[i]), Some(values[i]));
        }

        for key in 0..10_000 {
            assert_eq!(index.search(key as K), None);
        }
        index.stored_entries()
    };

    let mut index: HybridIndex<K, V> = HybridIndex::open(&layout, &saved).expect("Failed to open index");

    // Test searches were persisted
    for i in 0..num {
        assert_eq!(index.search(keys[i]), Some(values[i]));
    }

    for key in 0..10_000 {
        assert_eq!(index.search(key as K), None);
    }

    // Test for insert now
    for key in 0..10_000 {
        index.insert(key, key * key as V);
    }

    // Search again
    for i in 0..num {
        assert_eq!(index.search(keys[i]), Some(values[i]));
    }

    for key in 0..10_000 {
        assert_eq!(index.search(key as K), Some(key * key as V));
    }
}

#[test]
fn test_persisted_index_1() {
    test_persisted_index(vec![Component::BTreeTop, persisted(64)]);
}

#[test]
fn test_persisted_index_2() {
    test_persisted_index(vec![Component::BTreeTop, persisted(32)]);
}

#[test]
fn test_persisted_index_3() {
    test_persisted_index(vec![Component::BTreeTop, persisted(32), persisted(32)]);
}

#[test]
fn test_persisted_index_4() {
    test_persisted_index(vec![Component::BTreeTop, btree(8), persisted(8), persisted(32)]);
}

#[test]
fn test_persisted_index_5() {
    test_persisted_index(vec![Component::BTreeTop, btree(8), persisted(8), persisted(8), persisted(32)]);
}

#[test]
fn test_persisted_index_6() {
    test_persisted_index(vec![
        Component::BTreeTop,
        btree(8),
        btree(8),
        btree(8),
        btree(8),
        btree(8),
        persisted(32),
    ]);
}

#[test]
fn test_persisted_index_7() {
    test_persisted_index(vec![
        Component::BTreeTop,
        persisted(8),
        persisted(8),
        persisted(8),
        persisted(8),
        persisted(8),
        persisted(8),
    ]);
}

#[test]
fn reopened_index_keeps_last_values() {
    let layout = HybridLayout::from_components(&vec![Component::BTreeTop, persisted(4), persisted(2)]).unwrap();
    let stored: Vec<(K, V)> = vec![(5, 1), (3, 2), (5, 7), (9, 4)];
    let index: HybridIndex<K, V> = HybridIndex::open(&layout, &stored).unwrap();
    assert_eq!(index.search(5), Some(7));
    assert_eq!(index.search(3), Some(2));
    assert_eq!(index.search(4), None);
    assert_eq!(index.stored_entries(), vec![(3, 2), (5, 7), (9, 4)]);
}
