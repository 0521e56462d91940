use vstd::prelude::*;

verus! {

/// The numbers that a graph computes with.
///
/// A scalar type brings its own arithmetic. Each operation comes twice: as a
/// `spec` function, the model that contracts speak of, and as an executable
/// method that returns what the model says. Everything this crate proves of a
/// graph is stated over the models, so it holds of a scalar type exactly as
/// far as that type's methods keep to them.
///
/// This crate makes `bool` a scalar type and proves that it keeps to its
/// models. A type from code that is not verified, such as one that holds a
/// floating-point number, writes each model as the operation itself; that
/// each of its methods gives the same result for the same arguments is then
/// the word of whoever wrote it. No law of arithmetic is asked of a scalar
/// type: sums need not be associative, and what is proved here does not
/// lean on it.
pub trait Scalar: Copy {
    /// The additive identity, the gradient of a node that nothing has reached.
    spec fn zero_spec() -> Self;

    /// The multiplicative identity, the gradient an output has of itself.
    spec fn one_spec() -> Self;

    /// The sum of `self` and `rhs`.
    spec fn add_spec(self, rhs: Self) -> Self;

    /// The product of `self` and `rhs`.
    spec fn mul_spec(self, rhs: Self) -> Self;

    /// The additive inverse of `self`.
    spec fn neg_spec(self) -> Self;

    /// `self` raised to the power `exp`.
    spec fn pow_spec(self, exp: Self) -> Self;

    /// Whether `self` is strictly greater than zero.
    spec fn positive_spec(self) -> bool;

    fn zero() -> (r: Self)
        ensures
            r == Self::zero_spec(),
    ;

    fn one() -> (r: Self)
        ensures
            r == Self::one_spec(),
    ;

    fn plus(&self, rhs: &Self) -> (r: Self)
        ensures
            r == self.add_spec(*rhs),
    ;

    fn times(&self, rhs: &Self) -> (r: Self)
        ensures
            r == self.mul_spec(*rhs),
    ;

    fn negated(&self) -> (r: Self)
        ensures
            r == self.neg_spec(),
    ;

    fn power(&self, exp: &Self) -> (r: Self)
        ensures
            r == self.pow_spec(*exp),
    ;

    fn is_positive(&self) -> (r: bool)
        ensures
            r == self.positive_spec(),
    ;
}

/// Arithmetic modulo two, the smallest field: a sum is an exclusive or, a
/// product a conjunction, and every number its own negation. A power is one
/// for the exponent zero and the base for the exponent one. Nothing is
/// rounded, so a graph over it shows exactly how gradients are gathered: a
/// node that a sum reaches along an even number of paths ends with zero.
impl Scalar for bool {
    open spec fn zero_spec() -> bool {
        false
    }

    open spec fn one_spec() -> bool {
        true
    }

    open spec fn add_spec(self, rhs: bool) -> bool {
        self != rhs
    }

    open spec fn mul_spec(self, rhs: bool) -> bool {
        self && rhs
    }

    open spec fn neg_spec(self) -> bool {
        self
    }

    open spec fn pow_spec(self, exp: bool) -> bool {
        self || !exp
    }

    open spec fn positive_spec(self) -> bool {
        self
    }

    fn zero() -> (r: bool) {
        false
    }

    fn one() -> (r: bool) {
        true
    }

    fn plus(&self, rhs: &bool) -> (r: bool) {
        *self != *rhs
    }

    fn times(&self, rhs: &bool) -> (r: bool) {
        *self && *rhs
    }

    fn negated(&self) -> (r: bool) {
        *self
    }

    fn power(&self, exp: &bool) -> (r: bool) {
        *self || !*exp
    }

    fn is_positive(&self) -> (r: bool) {
        *self
    }
}

} // verus!
