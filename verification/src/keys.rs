use vstd::prelude::*;

verus! {

/// A key type for the cache. Lookup compares keys by their mathematical
/// views, so the cache's contents can be modelled as a map keyed by views.
pub trait CacheKey: View + Sized {
    /// Decides whether two keys have the same view.
    fn key_eq(&self, other: &Self) -> (r: bool)
        ensures
            r == (self@ == other@),
    ;
}

/// A value type for the cache. A lookup hands out a copy of the stored
/// value, so values must be copyable without changing their view.
pub trait CacheValue: View + Sized {
    /// Produces a copy whose view equals the original's.
    fn duplicate(&self) -> (r: Self)
        ensures
            r@ == self@,
    ;
}

impl CacheKey for String {
    fn key_eq(&self, other: &Self) -> (r: bool) {
        self.eq(other)
    }
}

impl CacheKey for i32 {
    fn key_eq(&self, other: &Self) -> (r: bool) {
        *self == *other
    }
}

impl CacheKey for char {
    fn key_eq(&self, other: &Self) -> (r: bool) {
        *self == *other
    }
}

impl CacheKey for u64 {
    fn key_eq(&self, other: &Self) -> (r: bool) {
        *self == *other
    }
}

impl CacheValue for String {
    fn duplicate(&self) -> (r: Self) {
        self.clone()
    }
}

impl CacheValue for i32 {
    fn duplicate(&self) -> (r: Self) {
        *self
    }
}

impl CacheValue for u64 {
    fn duplicate(&self) -> (r: Self) {
        *self
    }
}

} // verus!
