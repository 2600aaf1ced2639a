//! The arithmetic that the kernels are written against.
//!
//! A kernel is a sequence of rounding operations on some number type. [`Scalar`]
//! names those operations without saying how they round, so what is proved of a
//! kernel through it holds bit for bit of every number type whose operations are
//! functions of their operands. [`Exact`] is the instance that does not round.
use vstd::prelude::*;

verus! {

/// A number type that a kernel computes with. Every operation is a function of
/// its operands; nothing else is asked of it (no associativity, no total order).
pub trait Scalar: Copy {
    /// What [`Scalar::ratio`] returns.
    spec fn spec_ratio(num: u32, den: u32) -> Self;

    /// What [`Scalar::plus`] returns.
    spec fn spec_plus(self, rhs: Self) -> Self;

    /// What [`Scalar::minus`] returns.
    spec fn spec_minus(self, rhs: Self) -> Self;

    /// What [`Scalar::times`] returns.
    spec fn spec_times(self, rhs: Self) -> Self;

    /// What [`Scalar::over`] returns.
    spec fn spec_over(self, rhs: Self) -> Self;

    /// What [`Scalar::fma`] returns.
    spec fn spec_fma(self, factor: Self, addend: Self) -> Self;

    /// What [`Scalar::negated`] returns.
    spec fn spec_negated(self) -> Self;

    /// What [`Scalar::magnitude`] returns.
    spec fn spec_magnitude(self) -> Self;

    /// What [`Scalar::if_above`] returns.
    spec fn spec_if_above(self, limit: Self, above: Self, otherwise: Self) -> Self;

    /// The number nearest to `num / den`.
    fn ratio(num: u32, den: u32) -> (r: Self)
        requires
            den != 0,
        ensures
            r == Self::spec_ratio(num, den),
    ;

    /// `self + rhs`.
    fn plus(self, rhs: Self) -> (r: Self)
        ensures
            r == self.spec_plus(rhs),
    ;

    /// `self - rhs`.
    fn minus(self, rhs: Self) -> (r: Self)
        ensures
            r == self.spec_minus(rhs),
    ;

    /// `self * rhs`.
    fn times(self, rhs: Self) -> (r: Self)
        ensures
            r == self.spec_times(rhs),
    ;

    /// `self / rhs`.
    fn over(self, rhs: Self) -> (r: Self)
        ensures
            r == self.spec_over(rhs),
    ;

    /// `self * factor + addend`, rounded once.
    fn fma(self, factor: Self, addend: Self) -> (r: Self)
        ensures
            r == self.spec_fma(factor, addend),
    ;

    /// `-self`.
    fn negated(self) -> (r: Self)
        ensures
            r == self.spec_negated(),
    ;

    /// `|self|`.
    fn magnitude(self) -> (r: Self)
        ensures
            r == self.spec_magnitude(),
    ;

    /// `above` where `self > limit`, `otherwise` where that comparison is false
    /// (an unordered pair included).
    fn if_above(self, limit: Self, above: Self, otherwise: Self) -> (r: Self)
        ensures
            r == self.spec_if_above(limit, above, otherwise),
    ;
}

/// A number type that holds a narrower one: the accumulators of the feature
/// kernel, and the type that the reference blur sums in.
pub trait Wide<F: Scalar>: Scalar {
    /// What [`Wide::widen`] returns.
    spec fn spec_widen(x: F) -> Self;

    /// What [`Wide::narrow`] returns.
    spec fn spec_narrow(self) -> F;

    /// `x` in the wider type.
    fn widen(x: F) -> (r: Self)
        ensures
            r == Self::spec_widen(x),
    ;

    /// `self` rounded to the narrower type.
    fn narrow(self) -> (r: F)
        ensures
            r == self.spec_narrow(),
    ;
}

/// Real arithmetic. The value is ghost state, so a kernel over `Exact` computes
/// nothing at run time: it is what the kernel means before any rounding, and what
/// statements such as "the sliding window equals the direct sum" are made about.
#[derive(Clone, Copy)]
pub struct Exact {
    pub value: Ghost<real>,
}

/// The exact number with the value `x`.
pub open spec fn exact(x: real) -> Exact {
    Exact { value: Ghost(x) }
}

impl Scalar for Exact {
    open spec fn spec_ratio(num: u32, den: u32) -> Self {
        exact(num as real / den as real)
    }

    open spec fn spec_plus(self, rhs: Self) -> Self {
        exact(self.value@ + rhs.value@)
    }

    open spec fn spec_minus(self, rhs: Self) -> Self {
        exact(self.value@ - rhs.value@)
    }

    open spec fn spec_times(self, rhs: Self) -> Self {
        exact(self.value@ * rhs.value@)
    }

    open spec fn spec_over(self, rhs: Self) -> Self {
        exact(self.value@ / rhs.value@)
    }

    open spec fn spec_fma(self, factor: Self, addend: Self) -> Self {
        exact(self.value@ * factor.value@ + addend.value@)
    }

    open spec fn spec_negated(self) -> Self {
        exact(-self.value@)
    }

    open spec fn spec_magnitude(self) -> Self {
        exact(if self.value@ < 0 as real { -self.value@ } else { self.value@ })
    }

    open spec fn spec_if_above(self, limit: Self, above: Self, otherwise: Self) -> Self {
        if self.value@ > limit.value@ {
            above
        } else {
            otherwise
        }
    }

    fn ratio(num: u32, den: u32) -> (r: Self) {
        Exact { value: Ghost(num as real / den as real) }
    }

    fn plus(self, rhs: Self) -> (r: Self) {
        Exact { value: Ghost(self.value@ + rhs.value@) }
    }

    fn minus(self, rhs: Self) -> (r: Self) {
        Exact { value: Ghost(self.value@ - rhs.value@) }
    }

    fn times(self, rhs: Self) -> (r: Self) {
        Exact { value: Ghost(self.value@ * rhs.value@) }
    }

    fn over(self, rhs: Self) -> (r: Self) {
        Exact { value: Ghost(self.value@ / rhs.value@) }
    }

    fn fma(self, factor: Self, addend: Self) -> (r: Self) {
        Exact { value: Ghost(self.value@ * factor.value@ + addend.value@) }
    }

    fn negated(self) -> (r: Self) {
        Exact { value: Ghost(-self.value@) }
    }

    fn magnitude(self) -> (r: Self) {
        Exact { value: Ghost(self.spec_magnitude().value@) }
    }

    fn if_above(self, limit: Self, above: Self, otherwise: Self) -> (r: Self) {
        Exact { value: Ghost(self.spec_if_above(limit, above, otherwise).value@) }
    }
}

/// Every number type holds itself.
impl<F: Scalar> Wide<F> for F {
    open spec fn spec_widen(x: F) -> Self {
        x
    }

    open spec fn spec_narrow(self) -> F {
        self
    }

    fn widen(x: F) -> (r: Self) {
        x
    }

    fn narrow(self) -> (r: F) {
        self
    }
}

/// The number zero.
pub open spec fn zero<F: Scalar>() -> F {
    F::spec_ratio(0, 1)
}

/// The number one.
pub open spec fn one<F: Scalar>() -> F {
    F::spec_ratio(1, 1)
}

/// An exact ratio times its denominator is its numerator.
pub proof fn lemma_exact_ratio(num: u32, den: u32)
    requires
        den != 0,
    ensures
        Exact::spec_ratio(num, den).value@ * den as real == num as real,
{
    let (n, d) = (num as real, den as real);
    assert(d != 0 as real);
    assert((n / d) * d == n) by (nonlinear_arith)
        requires
            d != 0 as real,
    ;
}

/// The values of zero and one.
pub proof fn lemma_exact_units()
    ensures
        zero::<Exact>() == exact(0 as real),
        one::<Exact>() == exact(1 as real),
{
    lemma_exact_ratio(0, 1);
    lemma_exact_ratio(1, 1);
    let (a, b) = (zero::<Exact>().value@, one::<Exact>().value@);
    assert(1u32 as real == 1 as real);
    assert(a * 1 as real == a && b * 1 as real == b) by (nonlinear_arith);
}

} // verus!
