//! Total order on tree keys.
//!
//! Keys are compared through the [`TotalOrder`] trait: an executable
//! three-way test backed by a specification relation `le`, together with
//! proof obligations that pin `le` down as a total order that agrees
//! with equality. The integer key types used in practice all implement
//! it below.

use vstd::prelude::*;

verus! {

/// Outcome of a three-way comparison.
#[derive(Debug, Clone, Copy, PartialEq, Eq, Structural)]
pub enum Cmp {
    Lt,
    Eq,
    Gt,
}

/// A total order that agrees with equality. `le` is the ordering
/// relation; the proof members oblige every implementation to make it
/// reflexive, antisymmetric, transitive and total; `compare` is the
/// executable three-way test that decides it.
pub trait TotalOrder: Sized {
    /// The ordering relation: `self` comes at or before `other`.
    spec fn le(self, other: Self) -> bool;

    proof fn reflexive(a: Self)
        ensures
            Self::le(a, a),
    ;

    proof fn antisymmetric(a: Self, b: Self)
        requires
            Self::le(a, b),
            Self::le(b, a),
        ensures
            a == b,
    ;

    proof fn transitive(a: Self, b: Self, c: Self)
        requires
            Self::le(a, b),
            Self::le(b, c),
        ensures
            Self::le(a, c),
    ;

    proof fn total(a: Self, b: Self)
        ensures
            Self::le(a, b) || Self::le(b, a),
    ;

    /// Decide the order of two values.
    fn compare(&self, other: &Self) -> (c: Cmp)
        ensures
            c == Cmp::Lt ==> self.le(*other) && self != other,
            c == Cmp::Eq ==> self == other,
            c == Cmp::Gt ==> other.le(*self) && self != other,
    ;
}

/// `a` comes strictly before `b`.
pub open spec fn lt<K: TotalOrder>(a: K, b: K) -> bool {
    a.le(b) && a != b
}

impl TotalOrder for u8 {
    open spec fn le(self, other: Self) -> bool {
        self <= other
    }

    proof fn reflexive(a: Self) {
    }

    proof fn antisymmetric(a: Self, b: Self) {
    }

    proof fn transitive(a: Self, b: Self, c: Self) {
    }

    proof fn total(a: Self, b: Self) {
    }

    fn compare(&self, other: &Self) -> (c: Cmp) {
        if *self == *other {
            Cmp::Eq
        } else if *self < *other {
            Cmp::Lt
        } else {
            Cmp::Gt
        }
    }
}

impl TotalOrder for u32 {
    open spec fn le(self, other: Self) -> bool {
        self <= other
    }

    proof fn reflexive(a: Self) {
    }

    proof fn antisymmetric(a: Self, b: Self) {
    }

    proof fn transitive(a: Self, b: Self, c: Self) {
    }

    proof fn total(a: Self, b: Self) {
    }

    fn compare(&self, other: &Self) -> (c: Cmp) {
        if *self == *other {
            Cmp::Eq
        } else if *self < *other {
            Cmp::Lt
        } else {
            Cmp::Gt
        }
    }
}

impl TotalOrder for u64 {
    open spec fn le(self, other: Self) -> bool {
        self <= other
    }

    proof fn reflexive(a: Self) {
    }

    proof fn antisymmetric(a: Self, b: Self) {
    }

    proof fn transitive(a: Self, b: Self, c: Self) {
    }

    proof fn total(a: Self, b: Self) {
    }

    fn compare(&self, other: &Self) -> (c: Cmp) {
        if *self == *other {
            Cmp::Eq
        } else if *self < *other {
            Cmp::Lt
        } else {
            Cmp::Gt
        }
    }
}

impl TotalOrder for usize {
    open spec fn le(self, other: Self) -> bool {
        self <= other
    }

    proof fn reflexive(a: Self) {
    }

    proof fn antisymmetric(a: Self, b: Self) {
    }

    proof fn transitive(a: Self, b: Self, c: Self) {
    }

    proof fn total(a: Self, b: Self) {
    }

    fn compare(&self, other: &Self) -> (c: Cmp) {
        if *self == *other {
            Cmp::Eq
        } else if *self < *other {
            Cmp::Lt
        } else {
            Cmp::Gt
        }
    }
}

impl TotalOrder for i32 {
    open spec fn le(self, other: Self) -> bool {
        self <= other
    }

    proof fn reflexive(a: Self) {
    }

    proof fn antisymmetric(a: Self, b: Self) {
    }

    proof fn transitive(a: Self, b: Self, c: Self) {
    }

    proof fn total(a: Self, b: Self) {
    }

    fn compare(&self, other: &Self) -> (c: Cmp) {
        if *self == *other {
            Cmp::Eq
        } else if *self < *other {
            Cmp::Lt
        } else {
            Cmp::Gt
        }
    }
}

impl TotalOrder for i64 {
    open spec fn le(self, other: Self) -> bool {
        self <= other
    }

    proof fn reflexive(a: Self) {
    }

    proof fn antisymmetric(a: Self, b: Self) {
    }

    proof fn transitive(a: Self, b: Self, c: Self) {
    }

    proof fn total(a: Self, b: Self) {
    }

    fn compare(&self, other: &Self) -> (c: Cmp) {
        if *self == *other {
            Cmp::Eq
        } else if *self < *other {
            Cmp::Lt
        } else {
            Cmp::Gt
        }
    }
}

} // verus!
