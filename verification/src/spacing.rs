//! The position algebra: what a numeric type must offer to serve as the
//! coordinate of a spaced list.

use vstd::prelude::*;

verus! {

/// A totally ordered additive domain with a zero, used for positions and
/// distances.
///
/// Every value stands for a mathematical integer, its `value`. Arithmetic and
/// comparison on the type agree with arithmetic and comparison on those
/// integers, as long as the result is one the type can hold.
pub trait Spacing: Copy + Sized {
    /// The integer that this value stands for.
    spec fn value(&self) -> int;

    /// Whether the type can hold the integer `v`.
    spec fn fits(v: int) -> bool;

    /// Every value of the type stands for an integer that the type can hold.
    proof fn lemma_value_fits(&self)
        ensures
            Self::fits(self.value()),
    ;

    /// The type can hold zero.
    proof fn lemma_zero_fits()
        ensures
            Self::fits(0),
    ;

    /// Two values that stand for the same integer are the same value.
    proof fn lemma_value_injective(a: Self, b: Self)
        requires
            a.value() == b.value(),
        ensures
            a == b,
    ;

    /// The integers that the type can hold form an interval.
    proof fn lemma_fits_between(low: int, v: int, high: int)
        requires
            Self::fits(low),
            Self::fits(high),
            low <= v <= high,
        ensures
            Self::fits(v),
    ;

    /// The additive identity.
    fn zero() -> (z: Self)
        ensures
            z.value() == 0,
    ;

    /// The sum of two values.
    fn plus(self, rhs: Self) -> (sum: Self)
        requires
            Self::fits(self.value() + rhs.value()),
        ensures
            sum.value() == self.value() + rhs.value(),
    ;

    /// The difference of two values.
    fn minus(self, rhs: Self) -> (difference: Self)
        requires
            Self::fits(self.value() - rhs.value()),
        ensures
            difference.value() == self.value() - rhs.value(),
    ;

    /// Strict order.
    fn less(&self, rhs: &Self) -> (b: bool)
        ensures
            b == (self.value() < rhs.value()),
    ;

    /// The value as a count, for a non-negative value that a `usize` can hold.
    fn to_usize(self) -> (n: usize)
        requires
            0 <= self.value() <= usize::MAX,
        ensures
            n == self.value(),
    ;

    /// Non-strict order.
    fn at_most(&self, rhs: &Self) -> (b: bool)
        ensures
            b == (self.value() <= rhs.value()),
    {
        !rhs.less(self)
    }

    /// Equality.
    fn same(&self, rhs: &Self) -> (b: bool)
        ensures
            b == (self.value() == rhs.value()),
    {
        !self.less(rhs) && !rhs.less(self)
    }
}

/// `num_traits::zero` at `usize`: the additive identity of the unsigned
/// machine word, which is the number 0.
#[verifier::external_body]
fn zero_usize() -> (z: usize)
    ensures
        z == 0,
{
    num_traits::zero()
}

/// `num_traits::zero` at `isize`: the additive identity of the signed machine
/// word, which is the number 0.
#[verifier::external_body]
fn zero_isize() -> (z: isize)
    ensures
        z == 0,
{
    num_traits::zero()
}

/// `num_traits::zero` at `u64`: the additive identity of the unsigned 64-bit
/// integers, which is the number 0.
#[verifier::external_body]
fn zero_u64() -> (z: u64)
    ensures
        z == 0,
{
    num_traits::zero()
}

/// `num_traits::zero` at `i64`: the additive identity of the signed 64-bit
/// integers, which is the number 0.
#[verifier::external_body]
fn zero_i64() -> (z: i64)
    ensures
        z == 0,
{
    num_traits::zero()
}

impl Spacing for usize {
    open spec fn value(&self) -> int {
        *self as int
    }

    open spec fn fits(v: int) -> bool {
        usize::MIN <= v <= usize::MAX
    }

    proof fn lemma_value_fits(&self) {
    }

    proof fn lemma_zero_fits() {
    }

    proof fn lemma_value_injective(a: Self, b: Self) {
    }

    proof fn lemma_fits_between(low: int, v: int, high: int) {
    }

    fn zero() -> (z: Self) {
        zero_usize()
    }

    fn plus(self, rhs: Self) -> (sum: Self) {
        self + rhs
    }

    fn minus(self, rhs: Self) -> (difference: Self) {
        self - rhs
    }

    fn less(&self, rhs: &Self) -> (b: bool) {
        *self < *rhs
    }

    fn to_usize(self) -> (n: usize) {
        self
    }
}

impl Spacing for isize {
    open spec fn value(&self) -> int {
        *self as int
    }

    open spec fn fits(v: int) -> bool {
        isize::MIN <= v <= isize::MAX
    }

    proof fn lemma_value_fits(&self) {
    }

    proof fn lemma_zero_fits() {
    }

    proof fn lemma_value_injective(a: Self, b: Self) {
    }

    proof fn lemma_fits_between(low: int, v: int, high: int) {
    }

    fn zero() -> (z: Self) {
        zero_isize()
    }

    fn plus(self, rhs: Self) -> (sum: Self) {
        self + rhs
    }

    fn minus(self, rhs: Self) -> (difference: Self) {
        self - rhs
    }

    fn less(&self, rhs: &Self) -> (b: bool) {
        *self < *rhs
    }

    fn to_usize(self) -> (n: usize) {
        self as usize
    }
}

impl Spacing for u64 {
    open spec fn value(&self) -> int {
        *self as int
    }

    open spec fn fits(v: int) -> bool {
        u64::MIN <= v <= u64::MAX
    }

    proof fn lemma_value_fits(&self) {
    }

    proof fn lemma_zero_fits() {
    }

    proof fn lemma_value_injective(a: Self, b: Self) {
    }

    proof fn lemma_fits_between(low: int, v: int, high: int) {
    }

    fn zero() -> (z: Self) {
        zero_u64()
    }

    fn plus(self, rhs: Self) -> (sum: Self) {
        self + rhs
    }

    fn minus(self, rhs: Self) -> (difference: Self) {
        self - rhs
    }

    fn less(&self, rhs: &Self) -> (b: bool) {
        *self < *rhs
    }

    fn to_usize(self) -> (n: usize) {
        self as usize
    }
}

impl Spacing for i64 {
    open spec fn value(&self) -> int {
        *self as int
    }

    open spec fn fits(v: int) -> bool {
        i64::MIN <= v <= i64::MAX
    }

    proof fn lemma_value_fits(&self) {
    }

    proof fn lemma_zero_fits() {
    }

    proof fn lemma_value_injective(a: Self, b: Self) {
    }

    proof fn lemma_fits_between(low: int, v: int, high: int) {
    }

    fn zero() -> (z: Self) {
        zero_i64()
    }

    fn plus(self, rhs: Self) -> (sum: Self) {
        self + rhs
    }

    fn minus(self, rhs: Self) -> (difference: Self) {
        self - rhs
    }

    fn less(&self, rhs: &Self) -> (b: bool) {
        *self < *rhs
    }

    fn to_usize(self) -> (n: usize) {
        self as usize
    }
}

} // verus!
