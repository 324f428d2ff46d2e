//! Keys of the stores: primitive integers ordered as the integers they stand for.
use vstd::prelude::*;

verus! {

/// A key type with a smallest and a largest value, ordered as the mathematical
/// integers that its values stand for.
pub trait StaticBounded: Copy + Sized {
    /// The integer that a key stands for.
    spec fn key_int(self) -> int;

    /// The smallest key.
    spec fn min_key() -> Self;

    /// The largest key.
    spec fn max_key() -> Self;

    /// Every key lies between the smallest and the largest one.
    proof fn lemma_key_range(k: Self)
        ensures
            Self::min_key().key_int() <= k.key_int() <= Self::max_key().key_int(),
    ;

    /// Two keys that stand for the same integer are the same key.
    proof fn lemma_key_injective(a: Self, b: Self)
        ensures
            a.key_int() == b.key_int() ==> a == b,
    ;

    /// The smallest key.
    fn min_ref() -> (r: Self)
        ensures
            r == Self::min_key(),
    ;

    /// The largest key.
    fn max_ref() -> (r: Self)
        ensures
            r == Self::max_key(),
    ;

    /// Whether `self` is strictly smaller than `other`.
    fn key_lt(&self, other: &Self) -> (r: bool)
        ensures
            r == (self.key_int() < other.key_int()),
    ;

    /// Whether `self` is smaller than or equal to `other`.
    fn key_le(&self, other: &Self) -> (r: bool)
        ensures
            r == (self.key_int() <= other.key_int()),
    ;

    /// Whether `self` and `other` are the same key.
    fn key_eq(&self, other: &Self) -> (r: bool)
        ensures
            r == (self.key_int() == other.key_int()),
    ;

    /// The key that stands for zero.
    fn zero() -> (r: Self)
        ensures
            r.key_int() == 0,
    ;

    /// The key as an `i128`.
    fn key_to_i128(&self) -> (r: i128)
        requires
            i128::MIN <= self.key_int() <= i128::MAX,
        ensures
            r == self.key_int(),
    ;

    /// The next key.
    fn key_succ(&self) -> (r: Self)
        requires
            self.key_int() < Self::max_key().key_int(),
        ensures
            r.key_int() == self.key_int() + 1,
    ;
}

/// A value that is bounded below by a key: an entry by its key, a node by the
/// smallest key that it covers.
pub trait KeyBounded<K> {
    /// The key that bounds `self` from below.
    spec fn bound_of(&self) -> K;

    /// Returns the key that bounds `self` from below.
    fn lower_bound(&self) -> (r: K)
        ensures
            r == self.bound_of(),
    ;
}

impl StaticBounded for i32 {
    open spec fn key_int(self) -> int { self as int }
    open spec fn min_key() -> Self { i32::MIN }
    open spec fn max_key() -> Self { i32::MAX }
    proof fn lemma_key_range(k: Self) {}
    proof fn lemma_key_injective(a: Self, b: Self) {}
    fn min_ref() -> (r: Self) { i32::MIN }
    fn max_ref() -> (r: Self) { i32::MAX }
    fn key_lt(&self, other: &Self) -> (r: bool) { *self < *other }
    fn key_le(&self, other: &Self) -> (r: bool) { *self <= *other }
    fn key_eq(&self, other: &Self) -> (r: bool) { *self == *other }
    fn zero() -> (r: Self) { 0 }
    fn key_to_i128(&self) -> (r: i128) { *self as i128 }
    fn key_succ(&self) -> (r: Self) { *self + 1 }
}

impl StaticBounded for i64 {
    open spec fn key_int(self) -> int { self as int }
    open spec fn min_key() -> Self { i64::MIN }
    open spec fn max_key() -> Self { i64::MAX }
    proof fn lemma_key_range(k: Self) {}
    proof fn lemma_key_injective(a: Self, b: Self) {}
    fn min_ref() -> (r: Self) { i64::MIN }
    fn max_ref() -> (r: Self) { i64::MAX }
    fn key_lt(&self, other: &Self) -> (r: bool) { *self < *other }
    fn key_le(&self, other: &Self) -> (r: bool) { *self <= *other }
    fn key_eq(&self, other: &Self) -> (r: bool) { *self == *other }
    fn zero() -> (r: Self) { 0 }
    fn key_to_i128(&self) -> (r: i128) { *self as i128 }
    fn key_succ(&self) -> (r: Self) { *self + 1 }
}

impl StaticBounded for i128 {
    open spec fn key_int(self) -> int { self as int }
    open spec fn min_key() -> Self { i128::MIN }
    open spec fn max_key() -> Self { i128::MAX }
    proof fn lemma_key_range(k: Self) {}
    proof fn lemma_key_injective(a: Self, b: Self) {}
    fn min_ref() -> (r: Self) { i128::MIN }
    fn max_ref() -> (r: Self) { i128::MAX }
    fn key_lt(&self, other: &Self) -> (r: bool) { *self < *other }
    fn key_le(&self, other: &Self) -> (r: bool) { *self <= *other }
    fn key_eq(&self, other: &Self) -> (r: bool) { *self == *other }
    fn zero() -> (r: Self) { 0 }
    fn key_to_i128(&self) -> (r: i128) { *self as i128 }
    fn key_succ(&self) -> (r: Self) { *self + 1 }
}

impl StaticBounded for u32 {
    open spec fn key_int(self) -> int { self as int }
    open spec fn min_key() -> Self { 0 }
    open spec fn max_key() -> Self { u32::MAX }
    proof fn lemma_key_range(k: Self) {}
    proof fn lemma_key_injective(a: Self, b: Self) {}
    fn min_ref() -> (r: Self) { 0 }
    fn max_ref() -> (r: Self) { u32::MAX }
    fn key_lt(&self, other: &Self) -> (r: bool) { *self < *other }
    fn key_le(&self, other: &Self) -> (r: bool) { *self <= *other }
    fn key_eq(&self, other: &Self) -> (r: bool) { *self == *other }
    fn zero() -> (r: Self) { 0 }
    fn key_to_i128(&self) -> (r: i128) { *self as i128 }
    fn key_succ(&self) -> (r: Self) { *self + 1 }
}

impl StaticBounded for u64 {
    open spec fn key_int(self) -> int { self as int }
    open spec fn min_key() -> Self { 0 }
    open spec fn max_key() -> Self { u64::MAX }
    proof fn lemma_key_range(k: Self) {}
    proof fn lemma_key_injective(a: Self, b: Self) {}
    fn min_ref() -> (r: Self) { 0 }
    fn max_ref() -> (r: Self) { u64::MAX }
    fn key_lt(&self, other: &Self) -> (r: bool) { *self < *other }
    fn key_le(&self, other: &Self) -> (r: bool) { *self <= *other }
    fn key_eq(&self, other: &Self) -> (r: bool) { *self == *other }
    fn zero() -> (r: Self) { 0 }
    fn key_to_i128(&self) -> (r: i128) { *self as i128 }
    fn key_succ(&self) -> (r: Self) { *self + 1 }
}

impl StaticBounded for u128 {
    open spec fn key_int(self) -> int { self as int }
    open spec fn min_key() -> Self { 0 }
    open spec fn max_key() -> Self { u128::MAX }
    proof fn lemma_key_range(k: Self) {}
    proof fn lemma_key_injective(a: Self, b: Self) {}
    fn min_ref() -> (r: Self) { 0 }
    fn max_ref() -> (r: Self) { u128::MAX }
    fn key_lt(&self, other: &Self) -> (r: bool) { *self < *other }
    fn key_le(&self, other: &Self) -> (r: bool) { *self <= *other }
    fn key_eq(&self, other: &Self) -> (r: bool) { *self == *other }
    fn zero() -> (r: Self) { 0 }
    fn key_to_i128(&self) -> (r: i128) { *self as i128 }
    fn key_succ(&self) -> (r: Self) { *self + 1 }
}

impl StaticBounded for usize {
    open spec fn key_int(self) -> int { self as int }
    open spec fn min_key() -> Self { 0 }
    open spec fn max_key() -> Self { usize::MAX }
    proof fn lemma_key_range(k: Self) {}
    proof fn lemma_key_injective(a: Self, b: Self) {}
    fn min_ref() -> (r: Self) { 0 }
    fn max_ref() -> (r: Self) { usize::MAX }
    fn key_lt(&self, other: &Self) -> (r: bool) { *self < *other }
    fn key_le(&self, other: &Self) -> (r: bool) { *self <= *other }
    fn key_eq(&self, other: &Self) -> (r: bool) { *self == *other }
    fn zero() -> (r: Self) { 0 }
    fn key_to_i128(&self) -> (r: i128) { *self as i128 }
    fn key_succ(&self) -> (r: Self) { *self + 1 }
}

impl KeyBounded<i32> for i32 {
    open spec fn bound_of(&self) -> i32 { *self }
    fn lower_bound(&self) -> (r: i32) { *self }
}

impl KeyBounded<i64> for i64 {
    open spec fn bound_of(&self) -> i64 { *self }
    fn lower_bound(&self) -> (r: i64) { *self }
}

impl KeyBounded<i128> for i128 {
    open spec fn bound_of(&self) -> i128 { *self }
    fn lower_bound(&self) -> (r: i128) { *self }
}

impl KeyBounded<u32> for u32 {
    open spec fn bound_of(&self) -> u32 { *self }
    fn lower_bound(&self) -> (r: u32) { *self }
}

impl KeyBounded<u64> for u64 {
    open spec fn bound_of(&self) -> u64 { *self }
    fn lower_bound(&self) -> (r: u64) { *self }
}

impl KeyBounded<u128> for u128 {
    open spec fn bound_of(&self) -> u128 { *self }
    fn lower_bound(&self) -> (r: u128) { *self }
}

impl KeyBounded<usize> for usize {
    open spec fn bound_of(&self) -> usize { *self }
    fn lower_bound(&self) -> (r: usize) { *self }
}

} // verus!
