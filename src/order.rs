//! A strict total order on values, usable both in specifications and at run time.
use vstd::prelude::*;

verus! {

/// A type whose values are totally ordered.
///
/// `less` is the strict order that specifications speak of; `compare` is the
/// three-way comparison that code runs, and it agrees with `less` and with
/// equality.
pub trait TotalOrder: Sized {
    /// `self` comes strictly before `other`.
    spec fn less(self, other: Self) -> bool;

    /// No value comes before itself.
    proof fn lemma_irreflexive(x: Self)
        ensures
            !x.less(x),
    ;

    /// Order is transitive.
    proof fn lemma_transitive(x: Self, y: Self, z: Self)
        requires
            x.less(y),
            y.less(z),
        ensures
            x.less(z),
    ;

    /// Any two values are equal or one comes before the other.
    proof fn lemma_connected(x: Self, y: Self)
        ensures
            x.less(y) || x == y || y.less(x),
    ;

    /// Three-way comparison of `self` with `other`.
    fn compare(&self, other: &Self) -> (r: std::cmp::Ordering)
        ensures
            (r == std::cmp::Ordering::Less) == self.less(*other),
            (r == std::cmp::Ordering::Equal) == (*self == *other),
            (r == std::cmp::Ordering::Greater) == other.less(*self),
    ;
}

impl TotalOrder for u32 {
    open spec fn less(self, other: Self) -> bool {
        self < other
    }

    proof fn lemma_irreflexive(x: Self) {
    }

    proof fn lemma_transitive(x: Self, y: Self, z: Self) {
    }

    proof fn lemma_connected(x: Self, y: Self) {
    }

    fn compare(&self, other: &Self) -> (r: std::cmp::Ordering) {
        if *self < *other {
            std::cmp::Ordering::Less
        } else if *self == *other {
            std::cmp::Ordering::Equal
        } else {
            std::cmp::Ordering::Greater
        }
    }
}

impl TotalOrder for u64 {
    open spec fn less(self, other: Self) -> bool {
        self < other
    }

    proof fn lemma_irreflexive(x: Self) {
    }

    proof fn lemma_transitive(x: Self, y: Self, z: Self) {
    }

    proof fn lemma_connected(x: Self, y: Self) {
    }

    fn compare(&self, other: &Self) -> (r: std::cmp::Ordering) {
        if *self < *other {
            std::cmp::Ordering::Less
        } else if *self == *other {
            std::cmp::Ordering::Equal
        } else {
            std::cmp::Ordering::Greater
        }
    }
}

impl TotalOrder for usize {
    open spec fn less(self, other: Self) -> bool {
        self < other
    }

    proof fn lemma_irreflexive(x: Self) {
    }

    proof fn lemma_transitive(x: Self, y: Self, z: Self) {
    }

    proof fn lemma_connected(x: Self, y: Self) {
    }

    fn compare(&self, other: &Self) -> (r: std::cmp::Ordering) {
        if *self < *other {
            std::cmp::Ordering::Less
        } else if *self == *other {
            std::cmp::Ordering::Equal
        } else {
            std::cmp::Ordering::Greater
        }
    }
}

impl TotalOrder for i32 {
    open spec fn less(self, other: Self) -> bool {
        self < other
    }

    proof fn lemma_irreflexive(x: Self) {
    }

    proof fn lemma_transitive(x: Self, y: Self, z: Self) {
    }

    proof fn lemma_connected(x: Self, y: Self) {
    }

    fn compare(&self, other: &Self) -> (r: std::cmp::Ordering) {
        if *self < *other {
            std::cmp::Ordering::Less
        } else if *self == *other {
            std::cmp::Ordering::Equal
        } else {
            std::cmp::Ordering::Greater
        }
    }
}

impl TotalOrder for i64 {
    open spec fn less(self, other: Self) -> bool {
        self < other
    }

    proof fn lemma_irreflexive(x: Self) {
    }

    proof fn lemma_transitive(x: Self, y: Self, z: Self) {
    }

    proof fn lemma_connected(x: Self, y: Self) {
    }

    fn compare(&self, other: &Self) -> (r: std::cmp::Ordering) {
        if *self < *other {
            std::cmp::Ordering::Less
        } else if *self == *other {
            std::cmp::Ordering::Equal
        } else {
            std::cmp::Ordering::Greater
        }
    }
}

} // verus!
