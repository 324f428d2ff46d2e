//! Searching sorted slices of keyed values.
use vstd::prelude::*;
use crate::traits::{KeyBounded, StaticBounded};

verus! {

/// The integers of the keys that bound the values of `s`, in order.
pub open spec fn key_seq<K: StaticBounded, T: KeyBounded<K>>(s: Seq<T>) -> Seq<int> {
    s.map_values(|t: T| t.bound_of().key_int())
}

/// `s` is strictly increasing.
pub open spec fn sorted_keys(s: Seq<int>) -> bool {
    forall|i: int, j: int| 0 <= i < j < s.len() ==> s[i] < s[j]
}

/// `r` is what a search for `x` in the sorted keys `s` answers: `Ok` with the
/// index of `x`, or `Err` with the index where `x` would be inserted.
pub open spec fn is_search_result(s: Seq<int>, x: int, r: Result<usize, usize>) -> bool {
    match r {
        Ok(i) => i < s.len() && s[i as int] == x,
        Err(i) => {
            &&& i <= s.len()
            &&& forall|j: int| 0 <= j < i ==> s[j] < x
            &&& forall|j: int| i <= j < s.len() ==> x < s[j]
        },
    }
}

/// `r` is a search result for `x` in `s` with `offset` added to its index.
pub open spec fn is_offset_search_result(s: Seq<int>, x: int, r: Result<usize, usize>, offset: usize) -> bool {
    match r {
        Ok(i) => i >= offset && is_search_result(s, x, Ok((i - offset) as usize)),
        Err(i) => i >= offset && is_search_result(s, x, Err((i - offset) as usize)),
    }
}

/// On sorted keys a search has exactly one answer, so any two correct searches
/// (a binary one and a linear one among them) agree.
pub proof fn lemma_search_result_unique(s: Seq<int>, x: int, r1: Result<usize, usize>, r2: Result<usize, usize>)
    requires
        sorted_keys(s),
        is_search_result(s, x, r1),
        is_search_result(s, x, r2),
    ensures
        r1 == r2,
{
    match (r1, r2) {
        (Ok(i), Ok(j)) => {
            if i < j {
                assert(s[i as int] < s[j as int]);
            } else if j < i {
                assert(s[j as int] < s[i as int]);
            }
        },
        (Ok(i), Err(j)) => {
            if (i as int) < (j as int) {
                assert(s[i as int] < x);
            } else {
                assert(x < s[i as int]);
            }
        },
        (Err(i), Ok(j)) => {
            if (j as int) < (i as int) {
                assert(s[j as int] < x);
            } else {
                assert(x < s[j as int]);
            }
        },
        (Err(i), Err(j)) => {
            if i < j {
                assert(s[i as int] < x);
                assert(x < s[i as int]);
            } else if j < i {
                assert(s[j as int] < x);
                assert(x < s[j as int]);
            }
        },
    }
}

/// Returns the `upper bound` index from a search result: a found index, or the
/// insertion index capped at `cap`.
pub fn upper_bound(search: Result<usize, usize>, cap: usize) -> (r: usize)
    ensures
        r == match search {
            Ok(index) => index,
            Err(index) => if index <= cap { index } else { cap },
        },
{
    match search {
        Ok(index) => index,
        Err(index) => if index <= cap { index } else { cap },
    }
}

/// Returns the `lower bound` index from a search result: a found index, or the
/// index just before the insertion index (never below zero).
pub fn lower_bound(search: Result<usize, usize>) -> (r: usize)
    ensures
        r == match search {
            Ok(index) => index,
            Err(index) => if index == 0 { 0 } else { (index - 1) as usize },
        },
{
    match search {
        Ok(index) => index,
        Err(index) => index.saturating_sub(1),
    }
}

/// Some algorithm for searching a slice, e.g. Binary or Linear.
pub trait Search {
    /// If the key is found in the slice, returns `Ok(index)` with the index of
    /// the value that it bounds. If it is not found, returns `Err(index)` with the
    /// index where it should be inserted to keep the slice sorted.
    ///
    /// The slice must be sorted by key and hold no key twice.
    fn search_by_key<K: StaticBounded, T: KeyBounded<K>>(slice: &[T], x: &K) -> (r: Result<usize, usize>)
        requires
            sorted_keys(key_seq::<K, T>(slice@)),
        ensures
            is_search_result(key_seq::<K, T>(slice@), x.key_int(), r),
    ;

    /// Same as calling `search_by_key` when the values are the keys.
    fn search<T: StaticBounded + KeyBounded<T>>(slice: &[T], x: &T) -> (r: Result<usize, usize>)
        requires
            sorted_keys(key_seq::<T, T>(slice@)),
        ensures
            is_search_result(key_seq::<T, T>(slice@), x.key_int(), r),
    {
        Self::search_by_key(slice, x)
    }

    /// Same as calling `search`, but adjusts for the case when the slice's index
    /// 0 is actually `offset` in some larger slice.
    fn search_with_offset<T: StaticBounded + KeyBounded<T>>(slice: &[T], x: &T, offset: usize) -> (r: Result<usize, usize>)
        requires
            sorted_keys(key_seq::<T, T>(slice@)),
            slice@.len() + offset <= usize::MAX,
        ensures
            is_offset_search_result(key_seq::<T, T>(slice@), x.key_int(), r, offset),
    {
        match Self::search_by_key(slice, x) {
            Ok(i) => Ok(i + offset),
            Err(i) => Err(i + offset),
        }
    }

    /// Same as calling `search_by_key`, but adjusts for the case when the slice's
    /// index 0 is actually `offset` in some larger slice.
    fn search_by_key_with_offset<K: StaticBounded, T: KeyBounded<K>>(slice: &[T], x: &K, offset: usize) -> (r: Result<usize, usize>)
        requires
            sorted_keys(key_seq::<K, T>(slice@)),
            slice@.len() + offset <= usize::MAX,
        ensures
            is_offset_search_result(key_seq::<K, T>(slice@), x.key_int(), r, offset),
    {
        match Self::search_by_key(slice, x) {
            Ok(i) => Ok(i + offset),
            Err(i) => Err(i + offset),
        }
    }
}

/// Performs a binary search on a slice, with computational complexity `O(log n)`.
/// However, for small searches, a linear search may be faster.
pub struct BinarySearch;

impl Search for BinarySearch {
    fn search_by_key<K: StaticBounded, T: KeyBounded<K>>(slice: &[T], x: &K) -> (r: Result<usize, usize>) {
        let ghost s = key_seq::<K, T>(slice@);
        let mut lo: usize = 0;
        let mut hi: usize = slice.len();
        while lo < hi
            invariant
                s == key_seq::<K, T>(slice@),
                sorted_keys(s),
                0 <= lo <= hi <= slice@.len(),
                forall|j: int| 0 <= j < lo ==> s[j] < x.key_int(),
                forall|j: int| hi <= j < s.len() ==> x.key_int() < s[j],
            decreases hi - lo,
        {
            let mid = lo + (hi - lo) / 2;
            let k = slice[mid].lower_bound();
            assert(s[mid as int] == k.key_int());
            if k.key_eq(x) {
                return Ok(mid);
            } else if k.key_lt(x) {
                lo = mid + 1;
            } else {
                hi = mid;
            }
        }
        Err(lo)
    }
}

/// Performs a simple linear search on a slice, with computational complexity `O(n)`.
pub struct LinearSearch;

impl Search for LinearSearch {
    fn search_by_key<K: StaticBounded, T: KeyBounded<K>>(slice: &[T], x: &K) -> (r: Result<usize, usize>) {
        let ghost s = key_seq::<K, T>(slice@);
        let mut index: usize = 0;
        let size = slice.len();
        while index < size && slice[index].lower_bound().key_lt(x)
            invariant
                s == key_seq::<K, T>(slice@),
                size == slice@.len(),
                0 <= index <= size,
                forall|j: int| 0 <= j < index ==> s[j] < x.key_int(),
            decreases size - index,
        {
            index += 1;
        }
        if index >= size {
            Err(size)
        } else if slice[index].lower_bound().key_eq(x) {
            Ok(index)
        } else {
            assert(s[index as int] > x.key_int());
            assert forall|j: int| index <= j < s.len() implies x.key_int() < s[j] by {
                if j > index {
                    assert(s[index as int] < s[j]);
                }
            }
            Err(index)
        }
    }
}

} // verus!
