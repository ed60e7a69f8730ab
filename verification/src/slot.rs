//! The identifier types a generator can hand out.

use vstd::prelude::*;

verus! {

/// An integer type whose values can serve as slot identifiers.
///
/// Contracts speak of an identifier through the mathematical integer it
/// stands for, `value()`. Different identifiers stand for different
/// integers, so what a contract says of `value()` it says of the identifier
/// itself. The values of a type are bounded above by `greatest()`.
pub trait Slot: Copy {
    /// The integer this identifier stands for.
    spec fn value(self) -> int;

    /// The largest integer the type can hold.
    spec fn greatest() -> int;

    /// Distinct identifiers stand for distinct integers.
    proof fn lemma_value_injective(a: Self, b: Self)
        requires
            a.value() == b.value(),
        ensures
            a == b,
    ;

    /// No identifier exceeds `greatest()`.
    proof fn lemma_value_bounded(a: Self)
        ensures
            a.value() <= Self::greatest(),
    ;

    /// Whether `self` is numerically below `other`.
    fn precedes(self, other: Self) -> (r: bool)
        ensures
            r == (self.value() < other.value()),
    ;

    /// Whether `self` and `other` are the same identifier.
    fn same(self, other: Self) -> (r: bool)
        ensures
            r == (self.value() == other.value()),
    ;

    /// The identifier one above `self`.
    fn succ(self) -> (r: Self)
        requires
            self.value() < Self::greatest(),
        ensures
            r.value() == self.value() + 1,
    ;
}

} // verus!
