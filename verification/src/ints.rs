//! `Slot` for the primitive integer types.
//!
//! Each type takes its unit step from `num_traits::One`. What that call
//! returns is not proved here: the function above each impl states it.

use crate::slot::Slot;
use vstd::prelude::*;

verus! {

/// `<u8 as num_traits::One>::one`: the multiplicative identity of `u8`,
/// which is the number 1.
#[verifier::external_body]
fn one_u8() -> (r: u8)
    ensures
        r == 1,
{
    num_traits::One::one()
}

impl Slot for u8 {
    open spec fn value(self) -> int {
        self as int
    }

    open spec fn greatest() -> int {
        u8::MAX as int
    }

    proof fn lemma_value_injective(a: Self, b: Self) {
    }

    proof fn lemma_value_bounded(a: Self) {
    }

    fn precedes(self, other: Self) -> (r: bool) {
        self < other
    }

    fn same(self, other: Self) -> (r: bool) {
        self == other
    }

    fn succ(self) -> (r: Self) {
        self + one_u8()
    }
}

/// `<u16 as num_traits::One>::one`: the multiplicative identity of `u16`,
/// which is the number 1.
#[verifier::external_body]
fn one_u16() -> (r: u16)
    ensures
        r == 1,
{
    num_traits::One::one()
}

impl Slot for u16 {
    open spec fn value(self) -> int {
        self as int
    }

    open spec fn greatest() -> int {
        u16::MAX as int
    }

    proof fn lemma_value_injective(a: Self, b: Self) {
    }

    proof fn lemma_value_bounded(a: Self) {
    }

    fn precedes(self, other: Self) -> (r: bool) {
        self < other
    }

    fn same(self, other: Self) -> (r: bool) {
        self == other
    }

    fn succ(self) -> (r: Self) {
        self + one_u16()
    }
}

/// `<u32 as num_traits::One>::one`: the multiplicative identity of `u32`,
/// which is the number 1.
#[verifier::external_body]
fn one_u32() -> (r: u32)
    ensures
        r == 1,
{
    num_traits::One::one()
}

impl Slot for u32 {
    open spec fn value(self) -> int {
        self as int
    }

    open spec fn greatest() -> int {
        u32::MAX as int
    }

    proof fn lemma_value_injective(a: Self, b: Self) {
    }

    proof fn lemma_value_bounded(a: Self) {
    }

    fn precedes(self, other: Self) -> (r: bool) {
        self < other
    }

    fn same(self, other: Self) -> (r: bool) {
        self == other
    }

    fn succ(self) -> (r: Self) {
        self + one_u32()
    }
}

/// `<u64 as num_traits::One>::one`: the multiplicative identity of `u64`,
/// which is the number 1.
#[verifier::external_body]
fn one_u64() -> (r: u64)
    ensures
        r == 1,
{
    num_traits::One::one()
}

impl Slot for u64 {
    open spec fn value(self) -> int {
        self as int
    }

    open spec fn greatest() -> int {
        u64::MAX as int
    }

    proof fn lemma_value_injective(a: Self, b: Self) {
    }

    proof fn lemma_value_bounded(a: Self) {
    }

    fn precedes(self, other: Self) -> (r: bool) {
        self < other
    }

    fn same(self, other: Self) -> (r: bool) {
        self == other
    }

    fn succ(self) -> (r: Self) {
        self + one_u64()
    }
}

/// `<u128 as num_traits::One>::one`: the multiplicative identity of `u128`,
/// which is the number 1.
#[verifier::external_body]
fn one_u128() -> (r: u128)
    ensures
        r == 1,
{
    num_traits::One::one()
}

impl Slot for u128 {
    open spec fn value(self) -> int {
        self as int
    }

    open spec fn greatest() -> int {
        u128::MAX as int
    }

    proof fn lemma_value_injective(a: Self, b: Self) {
    }

    proof fn lemma_value_bounded(a: Self) {
    }

    fn precedes(self, other: Self) -> (r: bool) {
        self < other
    }

    fn same(self, other: Self) -> (r: bool) {
        self == other
    }

    fn succ(self) -> (r: Self) {
        self + one_u128()
    }
}

/// `<usize as num_traits::One>::one`: the multiplicative identity of `usize`,
/// which is the number 1.
#[verifier::external_body]
fn one_usize() -> (r: usize)
    ensures
        r == 1,
{
    num_traits::One::one()
}

impl Slot for usize {
    open spec fn value(self) -> int {
        self as int
    }

    open spec fn greatest() -> int {
        usize::MAX as int
    }

    proof fn lemma_value_injective(a: Self, b: Self) {
    }

    proof fn lemma_value_bounded(a: Self) {
    }

    fn precedes(self, other: Self) -> (r: bool) {
        self < other
    }

    fn same(self, other: Self) -> (r: bool) {
        self == other
    }

    fn succ(self) -> (r: Self) {
        self + one_usize()
    }
}

/// `<i8 as num_traits::One>::one`: the multiplicative identity of `i8`,
/// which is the number 1.
#[verifier::external_body]
fn one_i8() -> (r: i8)
    ensures
        r == 1,
{
    num_traits::One::one()
}

impl Slot for i8 {
    open spec fn value(self) -> int {
        self as int
    }

    open spec fn greatest() -> int {
        i8::MAX as int
    }

    proof fn lemma_value_injective(a: Self, b: Self) {
    }

    proof fn lemma_value_bounded(a: Self) {
    }

    fn precedes(self, other: Self) -> (r: bool) {
        self < other
    }

    fn same(self, other: Self) -> (r: bool) {
        self == other
    }

    fn succ(self) -> (r: Self) {
        self + one_i8()
    }
}

/// `<i16 as num_traits::One>::one`: the multiplicative identity of `i16`,
/// which is the number 1.
#[verifier::external_body]
fn one_i16() -> (r: i16)
    ensures
        r == 1,
{
    num_traits::One::one()
}

impl Slot for i16 {
    open spec fn value(self) -> int {
        self as int
    }

    open spec fn greatest() -> int {
        i16::MAX as int
    }

    proof fn lemma_value_injective(a: Self, b: Self) {
    }

    proof fn lemma_value_bounded(a: Self) {
    }

    fn precedes(self, other: Self) -> (r: bool) {
        self < other
    }

    fn same(self, other: Self) -> (r: bool) {
        self == other
    }

    fn succ(self) -> (r: Self) {
        self + one_i16()
    }
}

/// `<i32 as num_traits::One>::one`: the multiplicative identity of `i32`,
/// which is the number 1.
#[verifier::external_body]
fn one_i32() -> (r: i32)
    ensures
        r == 1,
{
    num_traits::One::one()
}

impl Slot for i32 {
    open spec fn value(self) -> int {
        self as int
    }

    open spec fn greatest() -> int {
        i32::MAX as int
    }

    proof fn lemma_value_injective(a: Self, b: Self) {
    }

    proof fn lemma_value_bounded(a: Self) {
    }

    fn precedes(self, other: Self) -> (r: bool) {
        self < other
    }

    fn same(self, other: Self) -> (r: bool) {
        self == other
    }

    fn succ(self) -> (r: Self) {
        self + one_i32()
    }
}

/// `<i64 as num_traits::One>::one`: the multiplicative identity of `i64`,
/// which is the number 1.
#[verifier::external_body]
fn one_i64() -> (r: i64)
    ensures
        r == 1,
{
    num_traits::One::one()
}

impl Slot for i64 {
    open spec fn value(self) -> int {
        self as int
    }

    open spec fn greatest() -> int {
        i64::MAX as int
    }

    proof fn lemma_value_injective(a: Self, b: Self) {
    }

    proof fn lemma_value_bounded(a: Self) {
    }

    fn precedes(self, other: Self) -> (r: bool) {
        self < other
    }

    fn same(self, other: Self) -> (r: bool) {
        self == other
    }

    fn succ(self) -> (r: Self) {
        self + one_i64()
    }
}

/// `<i128 as num_traits::One>::one`: the multiplicative identity of `i128`,
/// which is the number 1.
#[verifier::external_body]
fn one_i128() -> (r: i128)
    ensures
        r == 1,
{
    num_traits::One::one()
}

impl Slot for i128 {
    open spec fn value(self) -> int {
        self as int
    }

    open spec fn greatest() -> int {
        i128::MAX as int
    }

    proof fn lemma_value_injective(a: Self, b: Self) {
    }

    proof fn lemma_value_bounded(a: Self) {
    }

    fn precedes(self, other: Self) -> (r: bool) {
        self < other
    }

    fn same(self, other: Self) -> (r: bool) {
        self == other
    }

    fn succ(self) -> (r: Self) {
        self + one_i128()
    }
}

/// `<isize as num_traits::One>::one`: the multiplicative identity of `isize`,
/// which is the number 1.
#[verifier::external_body]
fn one_isize() -> (r: isize)
    ensures
        r == 1,
{
    num_traits::One::one()
}

impl Slot for isize {
    open spec fn value(self) -> int {
        self as int
    }

    open spec fn greatest() -> int {
        isize::MAX as int
    }

    proof fn lemma_value_injective(a: Self, b: Self) {
    }

    proof fn lemma_value_bounded(a: Self) {
    }

    fn precedes(self, other: Self) -> (r: bool) {
        self < other
    }

    fn same(self, other: Self) -> (r: bool) {
        self == other
    }

    fn succ(self) -> (r: Self) {
        self + one_isize()
    }
}

} // verus!
