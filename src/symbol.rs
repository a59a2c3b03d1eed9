//! Key symbols: totally ordered, copyable elements of a key.
use core::cmp::Ordering;
use vstd::prelude::*;

verus! {

/// An element of a key. Symbols are ordered by `rank`, an integer that two
/// different symbols never share, and `compare` computes that order.
pub trait Symbol: Copy + Sized {
    /// The position of this symbol in the total order of symbols.
    spec fn rank(self) -> int;

    /// Three-way comparison that agrees with `rank`.
    fn compare(&self, other: &Self) -> (r: Ordering)
        ensures
            r == Ordering::Less ==> self.rank() < other.rank(),
            r == Ordering::Equal ==> *self == *other,
            r == Ordering::Greater ==> self.rank() > other.rank(),
    ;
}

impl Symbol for u8 {
    open spec fn rank(self) -> int {
        self as int
    }

    fn compare(&self, other: &u8) -> (r: Ordering) {
        if *self < *other {
            Ordering::Less
        } else if *self == *other {
            Ordering::Equal
        } else {
            Ordering::Greater
        }
    }
}

impl Symbol for u16 {
    open spec fn rank(self) -> int {
        self as int
    }

    fn compare(&self, other: &u16) -> (r: Ordering) {
        if *self < *other {
            Ordering::Less
        } else if *self == *other {
            Ordering::Equal
        } else {
            Ordering::Greater
        }
    }
}

impl Symbol for u32 {
    open spec fn rank(self) -> int {
        self as int
    }

    fn compare(&self, other: &u32) -> (r: Ordering) {
        if *self < *other {
            Ordering::Less
        } else if *self == *other {
            Ordering::Equal
        } else {
            Ordering::Greater
        }
    }
}

impl Symbol for u64 {
    open spec fn rank(self) -> int {
        self as int
    }

    fn compare(&self, other: &u64) -> (r: Ordering) {
        if *self < *other {
            Ordering::Less
        } else if *self == *other {
            Ordering::Equal
        } else {
            Ordering::Greater
        }
    }
}

impl Symbol for char {
    open spec fn rank(self) -> int {
        self as int
    }

    fn compare(&self, other: &char) -> (r: Ordering) {
        if *self < *other {
            Ordering::Less
        } else if *self == *other {
            Ordering::Equal
        } else {
            Ordering::Greater
        }
    }
}

} // verus!
