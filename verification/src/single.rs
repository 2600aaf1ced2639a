//! Numbers of so many binary digits.
//!
//! [`Digits`] rounds each result to the nearest number that has at most so many digits, to the
//! even one of two that are as near, and bounds no exponent. With twenty-four digits
//! ([`Single`]) and fifty-three ([`Double`]) it is 32- and 64-bit IEEE arithmetic where nothing
//! overflows or vanishes. Like the exact numbers it is ghost state, and there to make statements
//! about.
use vstd::arithmetic::power2::{lemma2_to64, pow2};
use vstd::prelude::*;

use crate::digits::{
    lemma_kept, lemma_one_digit_too_many, lemma_power, lemma_rounded_is_kept, lemma_zero_is_kept,
    rounded, size,
};
use crate::scalar::{zero, Scalar, Wide};
use crate::ssim::{adds_to_zero, clamped};

verus! {

/// A number of `N` digits.
#[derive(Clone, Copy)]
pub struct Digits<const N: u32> {
    pub value: Ghost<real>,
}

/// A number of twenty-four digits.
pub type Single = Digits<24>;

/// A number of fifty-three digits.
pub type Double = Digits<53>;

/// The number of `N` digits that `x` is rounded to.
pub open spec fn digits<const N: u32>(x: real) -> Digits<N> {
    Digits { value: Ghost(rounded(N as nat, x)) }
}

impl<const N: u32> Digits<N> {
    /// The number has no more than `N` digits.
    pub open spec fn is_rounded(self) -> bool {
        rounded(N as nat, self.value@) == self.value@
    }
}

impl<const N: u32> Scalar for Digits<N> {
    open spec fn spec_ratio(num: u32, den: u32) -> Self {
        digits(num as real / den as real)
    }

    open spec fn spec_plus(self, rhs: Self) -> Self {
        digits(self.value@ + rhs.value@)
    }

    open spec fn spec_minus(self, rhs: Self) -> Self {
        digits(self.value@ - rhs.value@)
    }

    open spec fn spec_times(self, rhs: Self) -> Self {
        digits(self.value@ * rhs.value@)
    }

    open spec fn spec_over(self, rhs: Self) -> Self {
        digits(self.value@ / rhs.value@)
    }

    open spec fn spec_fma(self, factor: Self, addend: Self) -> Self {
        digits(self.value@ * factor.value@ + addend.value@)
    }

    open spec fn spec_negated(self) -> Self {
        Digits { value: Ghost(-self.value@) }
    }

    open spec fn spec_magnitude(self) -> Self {
        Digits { value: Ghost(size(self.value@)) }
    }

    open spec fn spec_if_above(self, limit: Self, above: Self, otherwise: Self) -> Self {
        if self.value@ > limit.value@ {
            above
        } else {
            otherwise
        }
    }

    fn ratio(num: u32, den: u32) -> (r: Self) {
        Digits { value: Ghost(rounded(N as nat, num as real / den as real)) }
    }

    fn plus(self, rhs: Self) -> (r: Self) {
        Digits { value: Ghost(rounded(N as nat, self.value@ + rhs.value@)) }
    }

    fn minus(self, rhs: Self) -> (r: Self) {
        Digits { value: Ghost(rounded(N as nat, self.value@ - rhs.value@)) }
    }

    fn times(self, rhs: Self) -> (r: Self) {
        Digits { value: Ghost(rounded(N as nat, self.value@ * rhs.value@)) }
    }

    fn over(self, rhs: Self) -> (r: Self) {
        Digits { value: Ghost(rounded(N as nat, self.value@ / rhs.value@)) }
    }

    fn fma(self, factor: Self, addend: Self) -> (r: Self) {
        Digits { value: Ghost(rounded(N as nat, self.value@ * factor.value@ + addend.value@)) }
    }

    fn negated(self) -> (r: Self) {
        Digits { value: Ghost(-self.value@) }
    }

    fn magnitude(self) -> (r: Self) {
        Digits { value: Ghost(size(self.value@)) }
    }

    fn if_above(self, limit: Self, above: Self, otherwise: Self) -> (r: Self) {
        Digits { value: Ghost(self.spec_if_above(limit, above, otherwise).value@) }
    }
}

/// Numbers of fifty-three digits hold those of twenty-four.
impl Wide<Digits<24>> for Digits<53> {
    open spec fn spec_widen(x: Digits<24>) -> Self {
        digits(x.value@)
    }

    open spec fn spec_narrow(self) -> Digits<24> {
        digits(self.value@)
    }

    fn widen(x: Digits<24>) -> (r: Self) {
        Digits { value: Ghost(rounded(53, x.value@)) }
    }

    fn narrow(self) -> (r: Digits<24>) {
        Digits { value: Ghost(rounded(24, self.value@)) }
    }
}

/// The number zero.
pub proof fn lemma_zero<const N: u32>()
    ensures
        zero::<Digits<N>>() == (Digits::<N> { value: Ghost(0 as real) }),
{
    let z = 0 as real;
    assert(z / 1 as real == z) by (nonlinear_arith)
        requires
            z == 0 as real,
    ;
    assert(0u32 as real == z && 1u32 as real == 1 as real);
    lemma_zero_is_kept(N as nat);
}

/// Rounding, to one digit or more, gives a number that is rounded.
pub proof fn law_rounded_numbers_round_to_themselves<const N: u32>(x: real)
    requires
        1 <= N,
    ensures
        digits::<N>(x).is_rounded(),
{
    lemma_rounded_is_kept(N as nat, N as nat, x);
}

/// Zero and an error that `w` weights add up to that error, bit for bit, whatever the weight.
pub proof fn law_rounded_errors_add_to_zero<const N: u32>(w: Digits<N>)
    requires
        1 <= N,
    ensures
        adds_to_zero(w),
{
    lemma_zero::<N>();
    assert forall|x: Digits<N>|
        zero::<Digits<N>>().spec_plus(#[trigger] w.spec_times(clamped(x))) == w.spec_times(
            clamped(x),
        ) by {
        let first = w.spec_times(clamped(x));
        law_rounded_numbers_round_to_themselves::<N>(w.value@ * clamped(x).value@);
        assert(0 as real + first.value@ == first.value@);
    }
}

/// The whole number `n`.
pub open spec fn whole(n: int) -> Single {
    Digits { value: Ghost(n as real) }
}

/// What a whole number of up to twenty-five digits is rounded to.
pub open spec fn rounded_whole(n: int) -> int {
    if n < 16777216 || n % 2 == 0 {
        n
    } else if n % 4 == 1 {
        n - 1
    } else {
        n + 1
    }
}

/// A whole number of up to twenty-five digits is rounded to an even one, or not at all.
pub proof fn lemma_rounded_whole(n: int)
    requires
        -16777216 < n < 33554432,
    ensures
        rounded(24, n as real) == rounded_whole(n) as real,
{
    lemma2_to64();
    assert(pow2(24) == 16777216 && pow2(25) == 33554432);
    if n < 16777216 {
        lemma_power(0);
        lemma_kept(24, n, 0);
        assert(n as real * 1 as real == n as real);
    } else {
        lemma_one_digit_too_many(24, n);
    }
}

/// Sums and differences of whole numbers.
pub proof fn lemma_whole_sums(a: int, b: int)
    ensures
        -16777216 < a + b < 33554432 ==> whole(a).spec_plus(whole(b)) == whole(
            rounded_whole(a + b),
        ),
        -16777216 < a - b < 33554432 ==> whole(a).spec_minus(whole(b)) == whole(
            rounded_whole(a - b),
        ),
{
    if -16777216 < a + b < 33554432 {
        lemma_rounded_whole(a + b);
    }
    if -16777216 < a - b < 33554432 {
        lemma_rounded_whole(a - b);
    }
    assert((a + b) as real == a as real + b as real);
    assert((a - b) as real == a as real - b as real);
}

} // verus!
