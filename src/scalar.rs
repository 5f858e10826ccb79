use vstd::prelude::*;

verus! {

/// The numeric domain the engine computes in.
///
/// Each operation is a function of its arguments, named by a spec function;
/// the contracts of the engine state every value and gradient in terms of
/// these functions.
pub trait Scalar: Copy + Sized {
    spec fn spec_add(self, other: Self) -> Self;

    spec fn spec_sub(self, other: Self) -> Self;

    spec fn spec_mul(self, other: Self) -> Self;

    /// `self` raised to the power `exponent`.
    spec fn spec_powf(self, exponent: Self) -> Self;

    spec fn spec_exp(self) -> Self;

    spec fn spec_tanh(self) -> Self;

    /// `self` is strictly greater than zero.
    spec fn spec_is_positive(self) -> bool;

    /// The additive identity, used for fresh gradients.
    fn zero() -> Self;

    /// The multiplicative identity, used to seed a backward pass.
    fn one() -> Self;

    /// Minus one, used to build subtraction and division from other operators.
    fn neg_one() -> Self;

    fn add(&self, other: &Self) -> (r: Self)
        ensures
            r == self.spec_add(*other),
    ;

    fn sub(&self, other: &Self) -> (r: Self)
        ensures
            r == self.spec_sub(*other),
    ;

    fn mul(&self, other: &Self) -> (r: Self)
        ensures
            r == self.spec_mul(*other),
    ;

    /// `self` raised to the power `exponent`.
    fn powf(&self, exponent: &Self) -> (r: Self)
        ensures
            r == self.spec_powf(*exponent),
    ;

    fn exp(&self) -> (r: Self)
        ensures
            r == self.spec_exp(),
    ;

    fn tanh(&self) -> (r: Self)
        ensures
            r == self.spec_tanh(),
    ;

    /// Whether `self` is strictly greater than zero.
    fn is_positive(&self) -> (r: bool)
        ensures
            r == self.spec_is_positive(),
    ;
}

} // verus!
