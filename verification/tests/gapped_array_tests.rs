use limousine_core::GappedKVArray;

fn print_gapped_array(ga: &GappedKVArray<i32, i32>) {
    let mut line1 = String::new();
    let mut line2 = String::new();
    let mut line3 = String::new();
    for ix in 0..ga.len() {
        line1 += &format!("{}", if ga.bitmap[ix] { 1 } else { 0 });
        line2 += &format!("{}", ga.keys[ix]);
        line3 += &format!("{}", ga.vals[ix]);
    }
    println!("bitmap: {}", &line1);
    println!("keys: {}", &line2);
    println!("vals: {}", &line3);
}

fn get_all_possible_hints(size: usize, num_hints: usize) -> Vec<Vec<usize>> {
    if num_hints == 0 {
        return vec![];
    }
    if num_hints == 1 {
        return (0..size).into_iter().map(|val| vec![val]).collect();
    }
    let mut result: Vec<Vec<usize>> = vec![];
    for first_val in 0..size {
        let tails = get_all_possible_hints(size, num_hints - 1);
        for tail in tails {
            let mut new_thing = vec![first_val];
            new_thing.extend(tail.into_iter());
            result.push(new_thing);
        }
    }
    result
}

fn fill_forward_with_hint(size: usize, hint: usize) {
    let mut ga = GappedKVArray::<i32, i32>::new(size);
    for num in 0..size {
        let result = ga.upsert_with_hint((num as i32, num as i32), hint);
        assert!(result.is_ok());
    }
    for ix in 0..size {
        assert!(ga.bitmap[ix]);
        assert!(ga.keys[ix] == ix as i32);
    }
}

#[test]
fn fill_forward() {
    const SIZE: usize = 10;
    for hint in 0..SIZE {
        fill_forward_with_hint(SIZE, hint);
    }
}

fn fill_backward_with_hint(size: usize, hint: usize) {
    let mut ga = GappedKVArray::<i32, i32>::new(size);
    for num in 0..size {
        let result = ga.upsert_with_hint(((size - num - 1) as i32, (size - num - 1) as i32), hint);
        assert!(result.is_ok());
    }
    for ix in 0..size {
        assert!(ga.bitmap[ix]);
        assert!(ga.keys[ix] == ix as i32);
    }
}

#[test]
fn fill_backward() {
    const SIZE: usize = 100;
    for hint in 0..SIZE {
        fill_backward_with_hint(SIZE, hint);
    }
}

#[test]
fn debug_gapped() {
    let perm = vec![1, 2, 0, 3, 4];
    let hints = vec![0, 0, 3, 0, 0];
    let mut ga = GappedKVArray::<i32, i32>::new(perm.len());
    print_gapped_array(&ga);
    for (value, hint) in perm.iter().zip(hints.iter()) {
        assert!(ga.upsert_with_hint((value.clone(), value.clone()), hint.clone()).is_ok());
        println!("");
        print_gapped_array(&ga);
    }
}

fn test_nondec_seq(items: &Vec<i32>, hints: &Vec<usize>) {
    let mut ga = GappedKVArray::<i32, i32>::new(items.len());
    for (value, hint) in items.iter().zip(hints.iter()) {
        assert!(ga.initial_model_based_insert((value.clone(), value.clone()), hint.clone()).is_ok());
    }
    for ix in 0..ga.len() {
        let good = ga.bitmap[ix] && ga.keys[ix] == ix as i32;
        if !good {
            println!("Items: {:?}", items);
            println!("Hints: {:?}", hints);
            print_gapped_array(&ga);
        }
        assert!(good);
    }
}

#[test]
fn initial_inserts() {
    const SIZE: usize = 6;
    let items: Vec<i32> = (0..SIZE).into_iter().map(|val| val as i32).collect();
    let mut sequences = get_all_possible_hints(SIZE, SIZE);
    sequences.retain(|seq| {
        let mut last: Option<usize> = None;
        for thing in seq.iter() {
            if last.is_some() && *thing < last.unwrap() {
                return false;
            }
            last = Some(*thing);
        }
        true
    });
    for seq in sequences {
        test_nondec_seq(&items, &seq);
    }
}

#[test]
fn update_gapped_array() {
    const SIZE: usize = 6;
    let keys = vec![0, 1, 2, 3, 2, 3];
    let vals = vec![10, 11, 22, 33, 42, 53];
    let all_hints = get_all_possible_hints(SIZE, SIZE);
    let mut ga = GappedKVArray::<i32, i32>::new(SIZE + 1);
    let final_keys = vec![0, 1, 2, 3];
    let final_vals = vec![10, 11, 42, 53];
    for hints in all_hints {
        for ((key, val), hint) in (keys.iter().zip(vals.iter())).zip(hints.iter()) {
            assert!(ga.upsert_with_hint((key.clone(), val.clone()), hint.clone()).is_ok());
        }
        for (ix, (key, val)) in ga.keys.iter().zip(ga.vals.iter()).enumerate().take(final_keys.len()) {
            assert!(*key == final_keys[ix]);
            assert!(*val == final_vals[ix]);
        }
    }
}

fn get_fresh_ga(size: usize) -> GappedKVArray<i32, i32> {
    let keys = vec![0, 1, 2, 3, 4, 5];
    let vals = vec![0, 1, 2, 3, 4, 5];
    let mut ga = GappedKVArray::<i32, i32>::new(size);
    for (key, val) in keys.iter().zip(vals.iter()) {
        let _ = ga.upsert_with_hint((*key, *val), 3);
    }
    ga
}

#[test]
fn trim_gapped_array() {
    const SIZE: usize = 6;
    for hint in 0..SIZE {
        // Trim in the middle
        let mut mid_ga = get_fresh_ga(SIZE);
        let _ = mid_ga.trim_window(2, 1, hint);
        let expected_keys = vec![0, 0, 0, 0, 4, 5];
        let expected_vals = vec![0, 0, 0, 0, 4, 5];
        let expected_bitmap = vec![true, false, false, false, true, true];
        for ix in 0..SIZE {
            assert!(mid_ga.keys[ix] == expected_keys[ix]);
            assert!(mid_ga.vals[ix] == expected_vals[ix]);
            assert!(mid_ga.bitmap[ix] == expected_bitmap[ix]);
        }
    }
    for hint in 0..SIZE {
        // Trim with clipping at both sides
        let mut mid_ga = get_fresh_ga(SIZE);
        let _ = mid_ga.trim_window(2, u32::MAX, hint);
        let expected_keys = vec![0, 0, 0, 0, 0, 0];
        let expected_vals = vec![0, 0, 0, 0, 0, 0];
        let expected_bitmap = vec![false, false, false, false, false, false];
        for ix in 0..SIZE {
            assert!(mid_ga.keys[ix] == expected_keys[ix]);
            assert!(mid_ga.vals[ix] == expected_vals[ix]);
            assert!(mid_ga.bitmap[ix] == expected_bitmap[ix]);
        }
    }
    for hint in 0..SIZE {
        // Trim from beginning
        let mut front_ga = get_fresh_ga(SIZE);
        let _ = front_ga.trim_window(0, 1, hint);
        let expected_keys = vec![0, 0, 2, 3, 4, 5];
        let expected_vals = vec![0, 0, 2, 3, 4, 5];
        let expected_bitmap = vec![false, false, true, true, true, true];
        for ix in 0..SIZE {
            assert!(front_ga.keys[ix] == expected_keys[ix]);
            assert!(front_ga.vals[ix] == expected_vals[ix]);
            assert!(front_ga.bitmap[ix] == expected_bitmap[ix]);
        }
    }
    for hint in 0..SIZE {
        // Trim from end
        let mut end_ga = get_fresh_ga(SIZE);
        let last = (end_ga.len() - 1) as i32;
        let _ = end_ga.trim_window(last, 1, hint);
        let expected_keys = vec![0, 1, 2, 3, 0, 0];
        let expected_vals = vec![0, 1, 2, 3, 0, 0];
        let expected_bitmap = vec![true, true, true, true, false, false];
        for ix in 0..SIZE {
            assert!(end_ga.keys[ix] == expected_keys[ix]);
            assert!(end_ga.vals[ix] == expected_vals[ix]);
            assert!(end_ga.bitmap[ix] == expected_bitmap[ix]);
        }
    }
}

#[test]
fn debug_initial_gapped() {
    let perm = vec![0, 1, 2, 3, 4, 5];
    let hints = vec![0, 0, 0, 4, 4, 4];
    let mut ga = GappedKVArray::<i32, i32>::new(perm.len());
    print_gapped_array(&ga);
    for (value, hint) in perm.iter().zip(hints.iter()) {
        assert!(ga.initial_model_based_insert((value.clone(), value.clone()), hint.clone()).is_ok());
        println!("");
        print_gapped_array(&ga);
    }
}

#[test]
fn upsert_then_search_reads_back() {
    let mut ga = GappedKVArray::<i64, u32>::new(8);
    for (k, v) in [(40i64, 4u32), (10, 1), (30, 3), (20, 2)] {
        assert!(ga.upsert_with_hint((k, v), 5).is_ok());
    }
    assert_eq!(ga.search_exact(&30, Some(0)), Some(&3));
    assert_eq!(ga.search_exact(&25, None), None);
    assert_eq!(ga.search_pir(&25, Some(7)), Some(&2));
    assert_eq!(ga.search_pir(&5, Some(3)), None);
    assert!(ga.upsert_with_hint((30, 33), 0).is_ok());
    assert_eq!(ga.search_exact(&30, Some(6)), Some(&33));
    assert_eq!(ga.search_exact(&10, Some(6)), Some(&1));
    assert_eq!(ga.search_exact(&40, Some(1)), Some(&4));
}

#[test]
fn upsert_into_full_array_fails() {
    let mut ga = GappedKVArray::<i32, i32>::new(2);
    assert!(ga.upsert_with_hint((1, 1), 0).is_ok());
    assert!(ga.upsert_with_hint((2, 2), 0).is_ok());
    assert!(ga.is_full());
    assert!(ga.upsert_with_hint((3, 3), 0).is_err());
    // An existing key can still be updated.
    assert!(ga.upsert_with_hint((2, 20), 0).is_ok());
    assert_eq!(ga.search_exact(&2, None), Some(&20));
}

#[test]
fn trim_missing_key_fails_and_returns_values() {
    let mut ga = get_fresh_ga(6);
    let before = (ga.bitmap.clone(), ga.keys.clone(), ga.vals.clone());
    assert!(ga.trim_window(17, 1, 0).is_err());
    assert_eq!((ga.bitmap.clone(), ga.keys.clone(), ga.vals.clone()), before);
    let removed = ga.trim_window(3, 1, 2).unwrap();
    assert_eq!(removed, vec![2, 3, 4]);
}

#[test]
fn next_and_prev_slots() {
    let mut ga = GappedKVArray::<i32, i32>::new(6);
    assert!(ga.initial_model_based_insert((7, 70), 2).is_ok());
    assert_eq!(ga.next_occupied_ix(0), Some(2));
    assert_eq!(ga.next_occupied_ix(3), None);
    assert_eq!(ga.next_free_ix(2), Some(3));
    assert_eq!(ga.len(), 6);
    assert!(!ga.is_full());
}

#[test]
fn trim_with_radius_zero_removes_only_the_key() {
    let mut ga = get_fresh_ga(6);
    assert_eq!(ga.trim_window(2, 0, 0), Ok(vec![2]));
    assert_eq!(ga.bitmap, vec![true, true, false, true, true, true]);
    assert_eq!(ga.keys, vec![0, 1, 0, 3, 4, 5]);
    assert_eq!(ga.vals, vec![0, 1, 0, 3, 4, 5]);
    assert_eq!(ga.size(), 5);
}

#[test]
fn trim_counts_removed_entries() {
    let mut ga = get_fresh_ga(6);
    assert_eq!(ga.size(), 6);
    assert!(ga.is_full());
    assert_eq!(ga.trim_window(2, u32::MAX, 4), Ok(vec![0, 1, 2, 3, 4, 5]));
    assert_eq!(ga.size(), 0);
    assert!(!ga.is_full());
}

#[test]
fn initial_inserts_count_every_entry() {
    let mut ga = GappedKVArray::<i32, i32>::new(2);
    assert!(ga.initial_model_based_insert((0, 0), 1).is_ok());
    assert!(ga.initial_model_based_insert((1, 1), 1).is_ok());
    assert_eq!(ga.keys, vec![0, 1]);
    assert_eq!(ga.bitmap, vec![true, true]);
    assert_eq!(ga.size(), 2);
    assert!(ga.is_full());
    assert!(ga.initial_model_based_insert((2, 2), 1).is_err());
}

#[test]
fn smallest_key_upsert_counts_the_entry() {
    let mut ga = GappedKVArray::<i32, i32>::new(2);
    assert!(ga.upsert_with_hint((1, 1), 0).is_ok());
    assert!(ga.upsert_with_hint((0, 0), 0).is_ok());
    assert_eq!(ga.keys, vec![0, 1]);
    assert_eq!(ga.bitmap, vec![true, true]);
    assert_eq!(ga.size(), 2);
    assert!(ga.is_full());
}

#[test]
fn update_keeps_slots_and_count() {
    let mut ga = GappedKVArray::<i32, i32>::new(7);
    for (k, v) in [(0, 10), (1, 11), (2, 22), (3, 33), (2, 42)] {
        assert!(ga.upsert_with_hint((k, v), 0).is_ok());
    }
    assert!(ga.upsert_with_hint((3, 53), 0).is_ok());
    assert_eq!(&ga.keys[0..4], &[0, 1, 2, 3]);
    assert_eq!(&ga.vals[0..4], &[10, 11, 42, 53]);
    assert_eq!(ga.size(), 4);
}

#[test]
fn pir_search_ignores_the_hint() {
    let ga = get_fresh_ga(6);
    for needle in -1..7 {
        let first = ga.search_pir(&needle, Some(0));
        for hint in 0..6 {
            assert_eq!(ga.search_pir(&needle, Some(hint)), first);
        }
        assert_eq!(ga.search_pir(&needle, None), first);
    }
    assert_eq!(ga.search_pir(&-1, Some(3)), None);
    assert_eq!(ga.search_pir(&6, Some(0)), Some(&5));
}
