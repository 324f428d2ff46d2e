use limousine_core::{lower_bound, upper_bound, BinarySearch, LinearSearch, Search};

#[test]
fn test_upper_bound() {
    assert_eq!(upper_bound(Ok(3), 5), 3);
    assert_eq!(upper_bound(Err(3), 5), 3);
    assert_eq!(upper_bound(Err(7), 5), 5);
}

#[test]
fn test_lower_bound() {
    assert_eq!(lower_bound(Ok(3)), 3);
    assert_eq!(lower_bound(Err(3)), 2);
    assert_eq!(lower_bound(Err(0)), 0);
}

#[test]
fn binary_linear_search() {
    let array = [1, 2, 3, 4, 7, 10, 24, 55, 56, 57, 100];
    for i in -10..110 {
        assert_eq!(
            BinarySearch::search(&array[..], &i),
            LinearSearch::search(&array[..], &i)
        );
    }
}

#[test]
fn binary_search_exact_positions() {
    let array: [i64; 5] = [-5, 0, 3, 8, 13];
    assert_eq!(BinarySearch::search(&array[..], &3), Ok(2));
    assert_eq!(BinarySearch::search(&array[..], &-6), Err(0));
    assert_eq!(BinarySearch::search(&array[..], &4), Err(3));
    assert_eq!(BinarySearch::search(&array[..], &20), Err(5));
    assert_eq!(LinearSearch::search(&array[..], &13), Ok(4));
    let empty: [u64; 0] = [];
    assert_eq!(LinearSearch::search(&empty[..], &1), Err(0));
    assert_eq!(BinarySearch::search(&empty[..], &1), Err(0));
}

#[test]
fn search_with_offset_shifts_both_outcomes() {
    let array: [u32; 4] = [2, 4, 6, 8];
    assert_eq!(BinarySearch::search_with_offset(&array[..], &6, 10), Ok(12));
    assert_eq!(LinearSearch::search_with_offset(&array[..], &5, 10), Err(12));
    assert_eq!(BinarySearch::search_by_key_with_offset(&array[..], &9u32, 1), Err(5));
}
