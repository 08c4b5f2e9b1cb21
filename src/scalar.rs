use vstd::prelude::*;

verus! {

/// The arithmetic that the graph engine needs from its scalar type.
///
/// Each operation is a function of its arguments: the spec function beside it
/// names that function, and the operation returns exactly its value. The
/// engine's contracts are stated over these names, so they hold for any
/// instance, a binary floating-point type being the intended one.
pub trait Scalar: Sized + Copy {
    spec fn spec_zero() -> Self;

    spec fn spec_one() -> Self;

    spec fn spec_add(self, rhs: Self) -> Self;

    spec fn spec_sub(self, rhs: Self) -> Self;

    spec fn spec_mul(self, rhs: Self) -> Self;

    spec fn spec_div(self, rhs: Self) -> Self;

    spec fn spec_exp(self) -> Self;

    spec fn spec_powf(self, k: Self) -> Self;

    /// The additive identity, used as the starting gradient of every node.
    fn zero() -> (r: Self)
        ensures
            r == Self::spec_zero(),
    ;

    /// The multiplicative identity, used as the seed gradient of an output.
    fn one() -> (r: Self)
        ensures
            r == Self::spec_one(),
    ;

    fn add(&self, rhs: &Self) -> (r: Self)
        ensures
            r == self.spec_add(*rhs),
    ;

    fn sub(&self, rhs: &Self) -> (r: Self)
        ensures
            r == self.spec_sub(*rhs),
    ;

    fn mul(&self, rhs: &Self) -> (r: Self)
        ensures
            r == self.spec_mul(*rhs),
    ;

    fn div(&self, rhs: &Self) -> (r: Self)
        ensures
            r == self.spec_div(*rhs),
    ;

    /// `e` raised to `self`.
    fn exp(&self) -> (r: Self)
        ensures
            r == self.spec_exp(),
    ;

    /// `self` raised to the real power `k`.
    fn powf(&self, k: &Self) -> (r: Self)
        ensures
            r == self.spec_powf(*k),
    ;
}

/// `tanh(x)` as the engine computes it: `(e^(2x) - 1) / (e^(2x) + 1)`.
pub open spec fn tanh_of<T: Scalar>(x: T) -> T {
    let e = x.spec_add(x).spec_exp();
    e.spec_sub(T::spec_one()).spec_div(e.spec_add(T::spec_one()))
}

} // verus!
