//! Sums in double-single arithmetic: a number carried as the unevaluated sum of a
//! high and a low part, so that what an addition rounds away is kept.
use vstd::arithmetic::power2::pow2;
use vstd::prelude::*;

use crate::digits::{
    has_top, lemma_kept, lemma_power, lemma_power_adds, lemma_power_grows, lemma_top_is,
    lemma_zero_is_kept, nearest, power, rounded, size,
};
use crate::scalar::{lemma_exact_units, zero, Exact, Scalar};
use crate::single::{lemma_whole_sums, lemma_zero, rounded_whole, whole, Digits, Single};

verus! {

/// `base` with `add_val` added `n` times.
pub open spec fn plain_sum<F: Scalar>(base: F, add_val: F, n: nat) -> F
    decreases n,
{
    if n == 0 {
        base
    } else {
        plain_sum(base, add_val, (n - 1) as nat).spec_plus(add_val)
    }
}

/// A number in two parts.
#[derive(Clone, Copy)]
pub struct DoubleSingle<F: Scalar> {
    pub hi: F,
    pub lo: F,
}

/// `x` with `add_val` added: the two-sum of the high part and `add_val` (their rounded
/// sum and what the rounding lost), the lost part joined to the low part, and the two
/// normalised.
pub open spec fn two_sum<F: Scalar>(x: DoubleSingle<F>, add_val: F) -> DoubleSingle<F> {
    let s = x.hi.spec_plus(add_val);
    let bb = s.spec_minus(x.hi);
    let e = x.hi.spec_minus(s.spec_minus(bb)).spec_plus(add_val.spec_minus(bb));
    let nlo = e.spec_plus(x.lo);
    let hi = s.spec_plus(nlo);
    DoubleSingle { hi, lo: nlo.spec_minus(hi.spec_minus(s)) }
}

/// `base` with `add_val` added `n` times, in two parts.
pub open spec fn double_sum<F: Scalar>(base: F, add_val: F, n: nat) -> DoubleSingle<F>
    decreases n,
{
    if n == 0 {
        DoubleSingle { hi: base, lo: zero() }
    } else {
        two_sum(double_sum(base, add_val, (n - 1) as nat), add_val)
    }
}

/// What is recovered of `n` additions to `base`: by a plain sum, and by a sum in two
/// parts.
pub fn df64_probe_kernel<F: Scalar>(base: F, add_val: F, n: u32) -> (r: (F, F))
    ensures
        r.0 == plain_sum(base, add_val, n as nat).spec_minus(base),
        r.1 == double_sum(base, add_val, n as nat).hi.spec_minus(base).spec_plus(
            double_sum(base, add_val, n as nat).lo,
        ),
{
    let mut sf = base;
    let mut i: u32 = 0;
    while i < n
        invariant
            i <= n,
            sf == plain_sum(base, add_val, i as nat),
        decreases n - i,
    {
        sf = sf.plus(add_val);
        i += 1;
    }

    let mut hi = base;
    let mut lo = F::ratio(0, 1);
    let mut j: u32 = 0;
    while j < n
        invariant
            j <= n,
            (DoubleSingle { hi, lo }) == double_sum(base, add_val, j as nat),
        decreases n - j,
    {
        let s = hi.plus(add_val);
        let bb = s.minus(hi);
        let e = hi.minus(s.minus(bb)).plus(add_val.minus(bb));
        let nlo = e.plus(lo);
        hi = s.plus(nlo);
        lo = nlo.minus(hi.minus(s));
        j += 1;
    }
    (sf.minus(base), hi.minus(base).plus(lo))
}

/// Before rounding, either sum recovers all that was added.
pub proof fn law_exact_sums_recover_everything(base: Exact, add_val: Exact, n: nat)
    ensures
        plain_sum(base, add_val, n).value@ == base.value@ + n as real * add_val.value@,
        double_sum(base, add_val, n).hi.value@ + double_sum(base, add_val, n).lo.value@
            == base.value@ + n as real * add_val.value@,
    decreases n,
{
    let a = add_val.value@;
    lemma_exact_units();
    if n == 0 {
        assert(0nat as real * a == 0 as real) by (nonlinear_arith);
    } else {
        let m = (n - 1) as nat;
        law_exact_sums_recover_everything(base, add_val, m);
        assert(n as real == m as real + 1 as real);
        let (x, y) = (n as real, m as real);
        assert(x * a == y * a + a) by (nonlinear_arith)
            requires
                x == y + 1 as real,
        ;
    }
}

/// The high part of a double-single sum of 2^24 and `n` ones, less 2^24.
spec fn high_of(n: int) -> int {
    if n % 4 == 1 {
        n - 1
    } else if n % 4 == 3 {
        n + 1
    } else {
        n
    }
}

/// One more on top of a high part of twenty-five digits and a small low part.
proof fn lemma_one_more(hi: int, lo: int)
    requires
        0x100_0000 <= hi <= 0x120_0000,
        hi % 2 == 0,
        -2 <= lo <= 2,
    ensures
        ({
            let s = rounded_whole(hi + 1);
            let low = hi + 1 - s + lo;
            let next = rounded_whole(s + low);
            two_sum(DoubleSingle { hi: whole(hi), lo: whole(lo) }, whole(1)) == (DoubleSingle {
                hi: whole(next),
                lo: whole(s + low - next),
            })
        }),
{
    // The rounded sum, and what the rounding lost.
    let s = rounded_whole(hi + 1);
    lemma_whole_sums(hi, 1);
    assert(whole(hi).spec_plus(whole(1)) == whole(s));
    lemma_whole_sums(s, hi);
    assert(whole(s).spec_minus(whole(hi)) == whole(s - hi));
    lemma_whole_sums(s, s - hi);
    assert(whole(s).spec_minus(whole(s - hi)) == whole(hi));
    lemma_whole_sums(hi, hi);
    assert(whole(hi).spec_minus(whole(hi)) == whole(0));
    lemma_whole_sums(1, s - hi);
    let lost = 1 - (s - hi);
    assert(whole(1).spec_minus(whole(s - hi)) == whole(lost));
    lemma_whole_sums(0, lost);
    assert(whole(0).spec_plus(whole(lost)) == whole(lost));
    lemma_whole_sums(lost, lo);
    let low = lost + lo;
    assert(whole(lost).spec_plus(whole(lo)) == whole(low));
    lemma_whole_sums(s, low);
    let next = rounded_whole(s + low);
    assert(whole(s).spec_plus(whole(low)) == whole(next));
    lemma_whole_sums(next, s);
    assert(whole(next).spec_minus(whole(s)) == whole(next - s));
    lemma_whole_sums(low, next - s);
    assert(whole(low).spec_minus(whole(next - s)) == whole(low - (next - s)));
}

/// A double-single sum of 2^24 and `n` ones loses nothing, though its high part has
/// twenty-four digits.
proof fn lemma_ones_in_two_parts(n: nat)
    requires
        n <= 0x10_0000,
    ensures
        double_sum(whole(0x100_0000), whole(1), n) == (DoubleSingle {
            hi: whole(0x100_0000 + high_of(n as int)),
            lo: whole(n - high_of(n as int)),
        }),
    decreases n,
{
    if n == 0 {
        lemma_zero::<24>();
        assert(zero::<Single>() == whole(0));
    } else {
        let m = n - 1;
        lemma_ones_in_two_parts(m as nat);
        lemma_one_more(0x100_0000 + high_of(m), m - high_of(m));
    }
}

proof fn lemma_ones_are_lost(n: nat)
    ensures
        plain_sum(whole(0x100_0000), whole(1), n) == whole(0x100_0000),
    decreases n,
{
    if n > 0 {
        lemma_ones_are_lost((n - 1) as nat);
        lemma_whole_sums(0x100_0000, 1);
    }
}

/// In numbers of twenty-four digits, a plain sum of 2^24 and up to 2^20 ones recovers nothing
/// of them (each is rounded away), and a double-single sum recovers them all.
pub proof fn law_double_single_sum_recovers_what_a_plain_sum_loses(n: nat)
    requires
        n <= 0x10_0000,
    ensures
        plain_sum(whole(0x100_0000), whole(1), n).spec_minus(whole(0x100_0000)) == whole(0),
        ({
            let sum = double_sum(whole(0x100_0000), whole(1), n);
            sum.hi.spec_minus(whole(0x100_0000)).spec_plus(sum.lo) == whole(n as int)
        }),
{
    lemma_ones_are_lost(n);
    lemma_whole_sums(0x100_0000, 0x100_0000);
    lemma_ones_in_two_parts(n);
    let high = high_of(n as int);
    lemma_whole_sums(0x100_0000 + high, 0x100_0000);
    lemma_whole_sums(high, n - high);
}

/// In numbers of twenty-four digits, the two parts of a double-single sum of 2^24 and up to 2^20
/// ones are all that was added, and the low part stays below the last digit of the high one.
pub proof fn law_low_part_stays_small(n: nat)
    requires
        n <= 0x10_0000,
    ensures
        ({
            let sum = double_sum(whole(0x100_0000), whole(1), n);
            &&& sum.hi.value@ + sum.lo.value@ == (0x100_0000 + n) as real
            &&& -(1 as real) <= sum.lo.value@ <= 1 as real
        }),
{
    lemma_ones_in_two_parts(n);
}

/// Two to the power of `k` and a number below its last digit round to the power.
proof fn lemma_absorbed(k: int, h: real)
    requires
        size(h) < power(k - 26),
    ensures
        rounded(24, power(k) + h) == power(k),
{
    reveal(rounded);
    let x = power(k) + h;
    lemma_power(k);
    lemma_power(k - 1);
    lemma_power_grows(k - 26, k - 1);
    lemma_power_grows(k - 1, k);
    let t = if h >= 0 as real { k } else { k - 1 };
    assert(has_top(x, t));
    lemma_top_is(x, t);
    let e = t - 23;
    let q = power(-e);
    lemma_power(-e);
    lemma_power_adds(k, -e);
    lemma_power_adds(k - 26, -e);
    let w = power(k - e);
    assert(x * q == power(k) * q + h * q) by (nonlinear_arith)
        requires
            x == power(k) + h,
    ;
    // What is added is under half of the last digit.
    let (small, part) = (power(k - 26 - e), h * q);
    assert(-small < part < small) by (nonlinear_arith)
        requires
            part == h * q,
            -power(k - 26) < h < power(k - 26),
            q > 0 as real,
            power(k - 26) * q == small,
    ;
    lemma_power(-1);
    lemma_power_grows(k - 26 - e, -2);
    lemma_power_grows(-2, -1);
    let n = pow2((k - e) as nat) as int;
    assert(w == n as real);
    assert(x * q == n as real + part);
    assert(-(1 as real) < part + part < 1 as real);
    lemma_nearest_to_near(n, x * q);
    lemma_power_adds(k - e, e);
}

/// A number less than a half from a whole one has it as its nearest.
proof fn lemma_nearest_to_near(n: int, y: real)
    requires
        -(1 as real) < (y - n as real) + (y - n as real) < 1 as real,
    ensures
        nearest(y) == n,
{
    if y >= n as real {
        assert(y.floor() == n);
    } else {
        assert(y.floor() == n - 1);
    }
}

/// In numbers of twenty-four digits, adding in two parts loses nothing, whichever of the two is
/// the larger: of a power of two and a number so small that their rounded sum is the power alone,
/// the high part is the power and the low part the number, in either order.
pub proof fn law_small_part_survives(h: Single, k: int)
    requires
        h.is_rounded(),
        size(h.value@) < power(k - 26),
    ensures
        ({
            let large: Single = Digits { value: Ghost(power(k)) };
            let both = DoubleSingle { hi: large, lo: h };
            &&& two_sum(DoubleSingle { hi: h, lo: zero() }, large) == both
            &&& two_sum(DoubleSingle { hi: large, lo: zero() }, h) == both
        }),
{
    let large: Single = Digits { value: Ghost(power(k)) };
    lemma_zero::<24>();
    lemma_zero_is_kept(24);
    lemma_absorbed(k, h.value@);
    lemma_absorbed(k, -h.value@);
    lemma_power(0);
    lemma_power_grows(0, 24);
    lemma_kept(24, 1, k);
    assert(1 as real * power(k) == power(k)) by (nonlinear_arith);
    assert(rounded(24, power(k)) == power(k));
    let p = power(k);
    let v = h.value@;
    assert(v + p == p + v);
    assert(p - v == p + (-v));
    // The small number first.
    let s = h.spec_plus(large);
    assert(s == large);
    let bb = s.spec_minus(h);
    assert(bb == large);
    assert(s.spec_minus(bb).value@ == 0 as real);
    assert(h.spec_minus(s.spec_minus(bb)) == h);
    assert(large.spec_minus(bb).value@ == 0 as real);
    // The large number first.
    let t = large.spec_plus(h);
    assert(t == large);
    let cc = t.spec_minus(large);
    assert(cc.value@ == 0 as real);
    assert(t.spec_minus(cc) == large);
    assert(large.spec_minus(t.spec_minus(cc)).value@ == 0 as real);
    assert(h.spec_minus(cc) == h);
}

} // verus!
