//! Rounding to a number of binary digits.
use vstd::arithmetic::power2::{lemma2_to64, lemma_pow2_pos, lemma_pow2_unfold, pow2};
use vstd::prelude::*;

verus! {

/// `2^e`.
pub open spec fn power(e: int) -> real {
    if e >= 0 {
        pow2(e as nat) as real
    } else {
        1 as real / pow2((-e) as nat) as real
    }
}

/// `|x|`.
pub open spec fn size(x: real) -> real {
    if x < 0 as real {
        -x
    } else {
        x
    }
}

/// The first digit of `x` stands for `2^t`.
pub open spec fn has_top(x: real, t: int) -> bool {
    power(t) <= size(x) < power(t + 1)
}

/// What the first digit of `x`, which is not zero, stands for.
pub open spec fn top(x: real) -> int {
    choose|t: int| has_top(x, t)
}

/// The whole number nearest to `x`, the even one of two that are as near.
pub open spec fn nearest(x: real) -> int {
    let n = x.floor();
    let rest = x - n as real;
    if rest + rest < 1 as real || (rest + rest == 1 as real && n % 2 == 0) {
        n
    } else {
        n + 1
    }
}

/// `x` rounded to `digits` digits: to the nearest number that has no more, the even one of two
/// that are as near.
#[verifier::opaque]
pub open spec fn rounded(digits: nat, x: real) -> real {
    if x == 0 as real {
        x
    } else {
        let e = top(x) - digits + 1;
        nearest(x * power(-e)) as real * power(e)
    }
}

/// What is equal times a number above zero is equal.
proof fn lemma_cancel(x: real, y: real, h: real)
    requires
        x * h == y * h,
        h > 0 as real,
    ensures
        x == y,
{
    let d = x - y;
    assert((x - y) * h == x * h - y * h) by (nonlinear_arith);
    assert(d == 0 as real) by (nonlinear_arith)
        requires
            d * h == 0 as real,
            h > 0 as real,
    ;
}

/// Powers are above zero, and each is twice the one before.
pub proof fn lemma_power(e: int)
    ensures
        power(e) > 0 as real,
        power(e + 1) == power(e) + power(e),
        power(0) == 1 as real,
{
    lemma2_to64();
    if e >= 0 {
        lemma_pow2_pos(e as nat);
        lemma_pow2_unfold((e + 1) as nat);
    } else {
        let n = (-e) as nat;
        lemma_pow2_pos(n);
        lemma_pow2_unfold(n);
        lemma_pow2_pos((n - 1) as nat);
        let (p, h) = (pow2(n) as real, pow2((n - 1) as nat) as real);
        let (a, b) = (1 as real / p, 1 as real / h);
        assert(a * p == 1 as real) by (nonlinear_arith)
            requires
                p > 0 as real,
                a == 1 as real / p,
        ;
        assert(b * h == 1 as real) by (nonlinear_arith)
            requires
                h > 0 as real,
                b == 1 as real / h,
        ;
        assert(p == h + h);
        assert(a > 0 as real) by (nonlinear_arith)
            requires
                a * p == 1 as real,
                p > 0 as real,
        ;
        assert(a * (h + h) == (a + a) * h) by (nonlinear_arith);
        lemma_cancel(b, a + a, h);
        if n == 1 {
            assert(h == 1 as real);
            assert(1 as real / h == 1 as real) by (nonlinear_arith)
                requires
                    h == 1 as real,
            ;
        }
    }
}

/// Powers multiply by adding exponents.
pub proof fn lemma_power_adds(a: int, b: int)
    ensures
        power(a) * power(b) == power(a + b),
    decreases if b < 0 {
        -b
    } else {
        b
    },
{
    lemma_power(0);
    let p = power(a);
    if b == 0 {
        assert(p * 1 as real == p);
    } else if b > 0 {
        lemma_power_adds(a, b - 1);
        lemma_power(b - 1);
        lemma_power(a + b - 1);
        let q = power(b - 1);
        assert(p * (q + q) == p * q + p * q) by (nonlinear_arith);
    } else {
        lemma_power_adds(a, b + 1);
        lemma_power(b);
        lemma_power(a + b);
        let q = power(b);
        assert(p * (q + q) == p * q + p * q) by (nonlinear_arith);
    }
}

/// A larger exponent gives a larger power.
pub proof fn lemma_power_grows(a: int, b: int)
    requires
        a <= b,
    ensures
        power(a) <= power(b),
        a < b ==> power(a) + power(a) <= power(b),
    decreases b - a,
{
    if a < b {
        lemma_power_grows(a, b - 1);
        lemma_power(b - 1);
    }
}

/// A whole number is below its power.
proof fn lemma_power_outgrows(n: nat)
    ensures
        (n as real) < power(n as int),
    decreases n,
{
    lemma_power(0);
    if n > 0 {
        lemma_power_outgrows((n - 1) as nat);
        lemma_power(n - 1);
        lemma_power_grows(0, n - 1);
    }
}

proof fn lemma_search_top(y: real, low: int, high: int)
    requires
        low <= high,
        power(low) <= y < power(high + 1),
    ensures
        exists|t: int| #[trigger] has_top(y, t),
    decreases high - low,
{
    lemma_power(low);
    if power(high) <= y {
        assert(has_top(y, high));
    } else {
        assert(low < high);
        lemma_search_top(y, low, high - 1);
    }
}

/// Every number but zero has a first digit.
pub proof fn lemma_top(x: real)
    requires
        x != 0 as real,
    ensures
        has_top(x, top(x)),
{
    let y = size(x);
    let k = (y.floor() + 1) as nat;
    lemma_power_outgrows(k);
    lemma_power_grows(k as int, k as int + 1);
    let z = 1 as real / y;
    assert(z * y == 1 as real) by (nonlinear_arith)
        requires
            y > 0 as real,
            z == 1 as real / y,
    ;
    assert(z > 0 as real) by (nonlinear_arith)
        requires
            z * y == 1 as real,
            y > 0 as real,
    ;
    let j = (z.floor() + 1) as nat;
    lemma_power_outgrows(j);
    lemma_power_adds(j as int, -(j as int));
    lemma_power(0);
    lemma_power(-(j as int));
    let (p, q) = (power(j as int), power(-(j as int)));
    // z < p, so q = 1 / p < 1 / z = y.
    let (gap, rest) = (p - z, 1 as real - q * z);
    assert(q * gap > 0 as real) by (nonlinear_arith)
        requires
            q > 0 as real,
            gap > 0 as real,
    ;
    assert(q * (p - z) == p * q - q * z) by (nonlinear_arith);
    assert(rest * y > 0 as real) by (nonlinear_arith)
        requires
            rest > 0 as real,
            y > 0 as real,
    ;
    assert((1 as real - q * z) * y == y - q * (z * y)) by (nonlinear_arith);
    assert(q * 1 as real == q);
    lemma_search_top(y, -(j as int), k as int);
    let t = choose|t: int| #[trigger] has_top(y, t);
    assert(has_top(x, t));
}

/// There is one first digit.
pub proof fn lemma_top_is(x: real, t: int)
    requires
        has_top(x, t),
    ensures
        x != 0 as real,
        top(x) == t,
{
    lemma_power(t);
    lemma_top(x);
    let s = top(x);
    if s < t {
        lemma_power_grows(s + 1, t);
    } else if t < s {
        lemma_power_grows(t + 1, s);
    }
}

/// The nearest whole number is at most a half away, and is the number itself where that is
/// whole.
pub proof fn lemma_nearest(x: real)
    ensures
        -(1 as real) <= (nearest(x) as real - x) * 2 as real <= 1 as real,
{
}

/// A whole number is the nearest to itself.
pub proof fn lemma_nearest_to_whole(n: int)
    ensures
        nearest(n as real) == n,
{
}

/// Of two whole numbers that are as near, the even one is the nearest.
pub proof fn lemma_nearest_to_half(n: int, x: real)
    requires
        x + x == n as real + n as real + 1 as real,
    ensures
        nearest(x) == (if n % 2 == 0 {
            n
        } else {
            n + 1
        }),
{
    assert(x.floor() == n);
}

/// The nearest whole number to one between two whole numbers is neither below the one nor above
/// the other.
proof fn lemma_nearest_between(x: real, w: int)
    requires
        size(x) < w as real,
    ensures
        size(nearest(x) as real) <= w as real,
{
    lemma_nearest(x);
    let n = nearest(x);
    if n > w {
        assert(n >= w + 1);
    }
    if n < -w {
        assert(n <= -w - 1);
    }
}

/// The digits of a number before they are rounded: as large as the first one makes them.
proof fn lemma_digits(digits: nat, x: real)
    requires
        x != 0 as real,
    ensures
        ({
            let e = top(x) - digits + 1;
            &&& power(e) > 0 as real
            &&& (x * power(-e)) * power(e) == x
            &&& size(x * power(-e)) < power(digits as int)
        }),
{
    let t = top(x);
    let e = t - digits + 1;
    lemma_top(x);
    lemma_power(e);
    lemma_power(-e);
    lemma_power(0);
    lemma_power_adds(-e, e);
    lemma_power_adds(t + 1, -e);
    let (p, q) = (power(e), power(-e));
    assert((x * q) * p == x * (q * p)) by (nonlinear_arith);
    assert(x * 1 as real == x);
    let room = power(t + 1) - size(x);
    assert(room * q > 0 as real) by (nonlinear_arith)
        requires
            room > 0 as real,
            q > 0 as real,
    ;
    let (y, w) = (size(x), power(t + 1));
    assert((w - y) * q == w * q - y * q) by (nonlinear_arith);
    if x < 0 as real {
        assert((-x) * q == -(x * q)) by (nonlinear_arith);
        assert(y * q > 0 as real) by (nonlinear_arith)
            requires
                y > 0 as real,
                q > 0 as real,
        ;
    } else {
        assert(x * q >= 0 as real) by (nonlinear_arith)
            requires
                x >= 0 as real,
                q > 0 as real,
        ;
    }
}

/// A number below `2^k` is rounded by at most half of its last digit.
pub proof fn lemma_rounding_error(digits: nat, x: real, k: int)
    requires
        size(x) < power(k),
    ensures
        size(rounded(digits, x) - x) <= power(k - 1 - digits),
{
    reveal(rounded);
    lemma_power(k - 1 - digits);
    if x != 0 as real {
        let t = top(x);
        let e = t - digits + 1;
        lemma_top(x);
        if t >= k {
            lemma_power_grows(k, t);
        }
        lemma_digits(digits, x);
        let (p, m) = (power(e), x * power(-e));
        let d = nearest(m) as real - m;
        lemma_nearest(m);
        let (up, down) = (1 as real - d * 2 as real, 1 as real + d * 2 as real);
        assert(up * p >= 0 as real) by (nonlinear_arith)
            requires
                up >= 0 as real,
                p > 0 as real,
        ;
        assert(down * p >= 0 as real) by (nonlinear_arith)
            requires
                down >= 0 as real,
                p > 0 as real,
        ;
        assert((1 as real - d * 2 as real) * p == p - (d * p) * 2 as real) by (nonlinear_arith);
        assert((1 as real + d * 2 as real) * p == p + (d * p) * 2 as real) by (nonlinear_arith);
        let n = nearest(m) as real;
        assert((n - m) * p == n * p - m * p) by (nonlinear_arith);
        lemma_power(e - 1);
        lemma_power_grows(e - 1, k - 1 - digits);
    }
}

/// A number that has no more than `digits` digits is not rounded.
pub proof fn lemma_kept(digits: nat, m: int, e: int)
    requires
        1 <= digits,
        size(m as real) <= power(digits as int),
    ensures
        rounded(digits, m as real * power(e)) == m as real * power(e),
{
    reveal(rounded);
    let a = m as real;
    let y = a * power(e);
    lemma_power(e);
    if y != 0 as real {
        let (p, w) = (power(e), power(digits as int));
        let t = top(y);
        let f = t - digits + 1;
        lemma_top(y);
        lemma_digits(digits, y);
        // The first digit of `y` is no further up than that of `2^(digits + e)`.
        lemma_power_adds(digits as int, e);
        let room = w - size(a);
        assert(room * p >= 0 as real) by (nonlinear_arith)
            requires
                room >= 0 as real,
                p > 0 as real,
        ;
        let s = size(a);
        assert((w - s) * p == w * p - s * p) by (nonlinear_arith);
        assert((-a) * p == -(a * p)) by (nonlinear_arith);
        if a >= 0 as real {
            assert(a * p >= 0 as real) by (nonlinear_arith)
                requires
                    a >= 0 as real,
                    p > 0 as real,
            ;
        } else {
            let b = -a;
            assert(b * p > 0 as real) by (nonlinear_arith)
                requires
                    b > 0 as real,
                    p > 0 as real,
            ;
        }
        assert(size(y) == s * p);
        if t > digits + e {
            lemma_power_grows(digits + e + 1, t);
            lemma_power_grows(digits + e, digits + e + 1);
            lemma_power(digits + e);
            assert(false);
        }
        let q = power(-f);
        assert((a * p) * q == a * (p * q)) by (nonlinear_arith);
        lemma_power_adds(e, -f);
        if f <= e {
            let n = (e - f) as nat;
            let k = pow2(n) as int;
            assert((m * k) as real == m as real * k as real) by (nonlinear_arith);
            lemma_nearest_to_whole(m * k);
        } else {
            // `y` is the power itself, and its half is whole.
            assert(t == digits + e);
            lemma_cancel(s, w, p);
            lemma_power(digits - 1);
            lemma_power_adds(digits as int, -1);
            let h = pow2((digits - 1) as nat) as int;
            assert(a * power(-1) == (if m < 0 {
                -h
            } else {
                h
            }) as real) by {
                let g = power(-1);
                assert((-w) * g == -(w * g)) by (nonlinear_arith);
            }
            lemma_nearest_to_whole(if m < 0 {
                -h
            } else {
                h
            });
        }
    }
}

/// A rounded number has no more digits than it was rounded to: it is rounded to itself, and so
/// it is to more digits.
pub proof fn lemma_rounded_is_kept(digits: nat, more: nat, x: real)
    requires
        1 <= digits <= more,
    ensures
        rounded(more, rounded(digits, x)) == rounded(digits, x),
{
    reveal(rounded);
    if x != 0 as real {
        let e = top(x) - digits + 1;
        let m = x * power(-e);
        assert(size(nearest(m) as real) <= power(more as int)) by {
            lemma_digits(digits, x);
            lemma_nearest_between(m, pow2(digits) as int);
            lemma_power_grows(digits as int, more as int);
        }
        lemma_kept(more, nearest(m), e);
    }
}

/// Zero is not rounded.
pub proof fn lemma_zero_is_kept(digits: nat)
    ensures
        rounded(digits, 0 as real) == 0 as real,
{
    reveal(rounded);
}

/// A whole number that has one digit too many is rounded to an even one: to the multiple of
/// four beside it where it is odd.
pub proof fn lemma_one_digit_too_many(digits: nat, n: int)
    requires
        1 <= digits,
        pow2(digits) <= n < pow2(digits + 1),
    ensures
        n % 2 == 0 ==> rounded(digits, n as real) == n as real,
        n % 4 == 1 ==> rounded(digits, n as real) == (n - 1) as real,
        n % 4 == 3 ==> rounded(digits, n as real) == (n + 1) as real,
{
    reveal(rounded);
    let x = n as real;
    assert(has_top(x, digits as int));
    lemma_top_is(x, digits as int);
    lemma_power(0);
    lemma_power(-1);
    assert(power(1) == 2 as real);
    let k = n / 2;
    let half = x * power(-1);
    assert(half + half == x) by {
        let h = power(-1);
        assert(x * h + x * h == x * (h + h)) by (nonlinear_arith);
        assert(x * 1 as real == x);
    }
    if n % 2 == 0 {
        assert(half == k as real);
        lemma_nearest_to_whole(k);
    } else {
        lemma_nearest_to_half(k, half);
    }
    assert(nearest(half) as real * power(1) == nearest(half) as real + nearest(half) as real);
}

} // verus!
