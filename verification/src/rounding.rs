//! How far rounding takes the blur.
//!
//! A [`Model`] says of a number type what its values stand for and how far an operation is
//! from the exact result while that stays within a limit. Of 32-bit IEEE arithmetic, with the
//! finite numbers for `fine`, it holds with the limit 32 and the unit 2^-20.
use vstd::arithmetic::div_mod::{lemma_div_pos_is_pos, lemma_mod_bound};
use vstd::prelude::*;

use crate::blur::{blurred_at, channel_pair, lemma_pixel_offset, Channels, Layout};
use crate::diffmap::{device_planes, level_layout};
use crate::geometry::{
    law_row_has_one_strip, strip_of, strip_start, Level, CHANNELS, DIAM, R,
};
use crate::mirror::{law_reflect_in_range, reflect};
use crate::reference::{
    law_sliding_blur_is_direct_blur, law_sliding_sum_is_fresh_sum, plane_pair, reference_planes,
    WINDOW_TAPS,
};
use crate::scalar::{exact, lemma_exact_ratio, lemma_exact_units, zero, Exact, Scalar, Wide};
use crate::window::{inv_diam, lemma_offset_in_plane, slidable, Moments, PlanePair};

verus! {

/// `x` and `y` are at most `by` apart.
pub open spec fn near(x: real, y: real, by: real) -> bool {
    -by <= x - y <= by
}

/// What the values of a number type stand for, and how it rounds.
#[verifier::reject_recursive_types(F)]
pub struct Model<F> {
    /// Whether a value stands for a number.
    pub fine: spec_fn(F) -> bool,
    /// The number that a fine value stands for.
    pub val: spec_fn(F) -> real,
    /// Up to where operations are accurate.
    pub limit: real,
    /// How far they are off at most.
    pub unit: real,
}

impl<F: Scalar> Model<F> {
    /// `r` is fine, and stands for a number at most `by` from `x`.
    pub open spec fn is_near(self, r: F, x: real, by: real) -> bool {
        (self.fine)(r) && near((self.val)(r), x, by)
    }

    /// `a` and `b` are fine, and stand for numbers at most 1/1000 apart.
    #[verifier::opaque]
    pub open spec fn within_thousandth(self, a: F, b: F) -> bool {
        &&& (self.fine)(a)
        &&& (self.fine)(b)
        &&& near(((self.val)(a) - (self.val)(b)) * 1000 as real, 0 as real, 1 as real)
    }

    /// `a` and `b` are fine, and stand for numbers at most 1/10000 apart.
    #[verifier::opaque]
    pub open spec fn within_ten_thousandth(self, a: F, b: F) -> bool {
        &&& (self.fine)(a)
        &&& (self.fine)(b)
        &&& near(((self.val)(a) - (self.val)(b)) * 10000 as real, 0 as real, 1 as real)
    }

    /// Sums that are within the limit are at most a unit off.
    pub open spec fn sums_hold(self) -> bool {
        let (fine, val) = (self.fine, self.val);
        forall|a: F, b: F|
            #![trigger a.spec_plus(b)]
            fine(a) && fine(b) && near(val(a) + val(b), 0 as real, self.limit) ==> self.is_near(
                a.spec_plus(b),
                val(a) + val(b),
                self.unit,
            )
    }

    /// So are differences.
    pub open spec fn differences_hold(self) -> bool {
        let (fine, val) = (self.fine, self.val);
        forall|a: F, b: F|
            #![trigger a.spec_minus(b)]
            fine(a) && fine(b) && near(val(a) - val(b), 0 as real, self.limit) ==> self.is_near(
                a.spec_minus(b),
                val(a) - val(b),
                self.unit,
            )
    }

    /// So are products.
    pub open spec fn products_hold(self) -> bool {
        let (fine, val) = (self.fine, self.val);
        forall|a: F, b: F|
            #![trigger a.spec_times(b)]
            fine(a) && fine(b) && near(val(a) * val(b), 0 as real, self.limit) ==> self.is_near(
                a.spec_times(b),
                val(a) * val(b),
                self.unit,
            )
    }

    /// So are sums of a product and a number.
    pub open spec fn fused_products_hold(self) -> bool {
        let (fine, val) = (self.fine, self.val);
        forall|a: F, b: F, c: F|
            #![trigger a.spec_fma(b, c)]
            fine(a) && fine(b) && fine(c) && near(val(a) * val(b) + val(c), 0 as real, self.limit)
                ==> self.is_near(a.spec_fma(b, c), val(a) * val(b) + val(c), self.unit)
    }

    /// An operation on fine values whose exact result is within the limit is at most a unit
    /// off.
    #[verifier::opaque]
    pub open spec fn holds(self) -> bool {
        &&& self.unit >= 0 as real
        &&& (self.fine)(zero()) && (self.val)(zero()) == 0 as real
        &&& self.sums_hold()
        &&& self.differences_hold()
        &&& self.products_hold()
        &&& self.fused_products_hold()
    }

    /// The model is good enough for the kernels: sums of a window stay within its limit, a
    /// unit is at most 2^-20, and one over the diameter is at most a unit off, in proportion.
    pub open spec fn suits_kernels(self) -> bool {
        &&& self.holds()
        &&& self.limit >= 32 as real
        &&& self.unit * 1048576 as real <= 1 as real
        &&& (self.fine)(inv_diam())
        &&& near((self.val)(inv_diam()) * 11 as real, 1 as real, self.unit)
    }

    /// The samples of both planes stand for numbers within one of zero.
    #[verifier::opaque]
    pub open spec fn takes(self, pair: PlanePair<F>) -> bool {
        forall|i: int|
            #![trigger pair.src[i]]
            #![trigger pair.dst[i]]
            0 <= i < pair.width * pair.height ==> self.is_near(pair.src[i], 0 as real, 1 as real)
                && self.is_near(pair.dst[i], 0 as real, 1 as real)
    }

    /// The planes of the numbers that the samples stand for.
    pub open spec fn exact_pair(self, pair: PlanePair<F>) -> PlanePair<Exact> {
        PlanePair {
            src: Seq::new(pair.src.len(), |i: int| exact((self.val)(pair.src[i]))),
            dst: Seq::new(pair.dst.len(), |i: int| exact((self.val)(pair.dst[i]))),
            width: pair.width,
            height: pair.height,
        }
    }
}

/// Moment number `i`.
pub open spec fn part<F: Scalar>(m: Moments<F>, i: int) -> F {
    if i == 0 {
        m.mu1
    } else if i == 1 {
        m.mu2
    } else if i == 2 {
        m.ssq
    } else {
        m.s12
    }
}

/// The size of a product.
pub proof fn lemma_product_size(a: real, b: real, x: real, y: real)
    requires
        near(a, 0 as real, x),
        near(b, 0 as real, y),
    ensures
        near(a * b, 0 as real, x * y),
{
    let (p, q, r, s) = (x - a, y + b, x + a, y - b);
    assert(p * q >= 0 as real && r * s >= 0 as real && p * s >= 0 as real && r * q >= 0 as real)
        by (nonlinear_arith)
        requires
            p >= 0 as real,
            q >= 0 as real,
            r >= 0 as real,
            s >= 0 as real,
    ;
    assert((x - a) * (y + b) == x * y - a * y + x * b - a * b) by (nonlinear_arith);
    assert((x + a) * (y - b) == x * y + a * y - x * b - a * b) by (nonlinear_arith);
    assert((x - a) * (y - b) == x * y - a * y - x * b + a * b) by (nonlinear_arith);
    assert((x + a) * (y + b) == x * y + a * y + x * b + a * b) by (nonlinear_arith);
}

impl<F: Scalar> Model<F> {
    /// One term more in a sum.
    proof fn lemma_plus(self, c: F, x: real, off: real, size: real, s: F)
        requires
            self.holds(),
            self.is_near(c, x, off),
            near(x, 0 as real, size),
            (self.fine)(s),
            near((self.val)(s), 0 as real, 1 as real),
            off + size + 1 as real <= self.limit,
        ensures
            self.is_near(c.spec_plus(s), x + (self.val)(s), off + self.unit),
            near(x + (self.val)(s), 0 as real, size + 1 as real),
    {
        reveal(Model::holds);
        let (fine, val) = (self.fine, self.val);
        assert(near(val(c) + val(s), 0 as real, self.limit));
        assert(self.is_near(c.spec_plus(s), val(c) + val(s), self.unit));
    }

    /// One product more in a sum.
    proof fn lemma_fma(self, a: F, b: F, c: F, x: real, off: real, size: real)
        requires
            self.holds(),
            self.is_near(c, x, off),
            near(x, 0 as real, size),
            self.is_near(a, 0 as real, 1 as real),
            self.is_near(b, 0 as real, 1 as real),
            off + size + 1 as real <= self.limit,
        ensures
            self.is_near(a.spec_fma(b, c), (self.val)(a) * (self.val)(b) + x, off + self.unit),
            near((self.val)(a) * (self.val)(b) + x, 0 as real, size + 1 as real),
    {
        reveal(Model::holds);
        let (fine, val) = (self.fine, self.val);
        lemma_product_size(val(a), val(b), 1 as real, 1 as real);
        assert(near(val(a) * val(b) + val(c), 0 as real, self.limit));
        assert(self.is_near(a.spec_fma(b, c), val(a) * val(b) + val(c), self.unit));
    }
}

/// A multiple of a unit, and one more.
proof fn lemma_units(n: real, u: real, most: real)
    requires
        u >= 0 as real,
        0 as real <= n <= most,
    ensures
        (n + 1 as real) * u == n * u + u,
        (n + 2 as real) * u == n * u + u + u,
        0 as real <= n * u <= most * u,
{
    assert((n + 1 as real) * u == n * u + u) by (nonlinear_arith);
    assert((n + 2 as real) * u == n * u + u + u) by (nonlinear_arith);
    assert(n * u >= 0 as real) by (nonlinear_arith)
        requires
            n >= 0 as real,
            u >= 0 as real,
    ;
    let rest = most - n;
    assert(rest * u >= 0 as real) by (nonlinear_arith)
        requires
            rest >= 0 as real,
            u >= 0 as real,
    ;
    assert((most - n) * u == most * u - n * u) by (nonlinear_arith);
}

impl<F: Scalar> Model<F> {
    /// The first taps of a row are at most two units a tap off, and two a tap large.
    proof fn lemma_taps(self, pair: PlanePair<F>, row: int, col: int, taps: nat)
        requires
            self.suits_kernels(),
            self.takes(pair),
            2 <= pair.width,
            0 <= row < pair.height,
            pair.width * pair.height <= pair.src.len(),
            pair.width * pair.height <= pair.dst.len(),
            taps <= 11,
        ensures
            forall|i: int|
                0 <= i < 4 ==> self.is_near(
                    #[trigger] part(pair.row_taps(row, col, taps), i),
                    part(self.exact_pair(pair).row_taps(row, col, taps), i).value@,
                    (2 * taps) as real * self.unit,
                ),
            forall|i: int|
                0 <= i < 4 ==> near(
                    (#[trigger] part(self.exact_pair(pair).row_taps(row, col, taps), i)).value@,
                    0 as real,
                    (2 * taps) as real,
                ),
        decreases taps,
    {
        reveal(Model::holds);
        reveal(Model::takes);
        let (u, val) = (self.unit, self.val);
        let ideal = self.exact_pair(pair);
        lemma_exact_units();
        if taps == 0 {
            assert(0 as real * u == 0 as real);
        } else {
            let m = (taps - 1) as nat;
            self.lemma_taps(pair, row, col, m);
            let (c, x) = (pair.row_taps(row, col, m), ideal.row_taps(row, col, m));
            let at = pair.offset(row, col + taps - 1 - R);
            lemma_offset_in_plane(pair, row, col + taps - 1 - R);
            assert(ideal.offset(row, col + taps - 1 - R) == at);
            let (s, d) = (pair.src[at], pair.dst[at]);
            assert(ideal.src[at] == exact(val(s)) && ideal.dst[at] == exact(val(d)));
            let n = (2 * m) as real;
            lemma_units(n, u, 20 as real);
            assert((2 * taps) as real == n + 2 as real);
            let off = n * u;
            assert(self.is_near(part(c, 0), part(x, 0).value@, off));
            assert(self.is_near(part(c, 1), part(x, 1).value@, off));
            assert(self.is_near(part(c, 2), part(x, 2).value@, off));
            assert(self.is_near(part(c, 3), part(x, 3).value@, off));
            assert(near(part(x, 0).value@, 0 as real, n));
            assert(near(part(x, 1).value@, 0 as real, n));
            assert(near(part(x, 2).value@, 0 as real, n));
            assert(near(part(x, 3).value@, 0 as real, n));
            self.lemma_plus(c.mu1, x.mu1.value@, off, n, s);
            self.lemma_plus(c.mu2, x.mu2.value@, off, n, d);
            self.lemma_fma(d, d, c.ssq, x.ssq.value@, off, n);
            self.lemma_fma(
                s,
                s,
                d.spec_fma(d, c.ssq),
                val(d) * val(d) + x.ssq.value@,
                off + u,
                n + 1 as real,
            );
            self.lemma_fma(s, d, c.s12, x.s12.value@, off, n);
            let (c2, x2) = (pair.row_taps(row, col, taps), ideal.row_taps(row, col, taps));
            assert(c2 == c.spec_tapped(s, d));
            assert(x2 == x.spec_tapped(exact(val(s)), exact(val(d))));
            assert forall|i: int| 0 <= i < 4 implies self.is_near(
                #[trigger] part(c2, i),
                part(x2, i).value@,
                (2 * taps) as real * u,
            ) && near(part(x2, i).value@, 0 as real, (2 * taps) as real) by {
                if i == 0 {
                } else if i == 1 {
                } else if i == 2 {
                } else {
                }
            }
            assert forall|i: int| 0 <= i < 4 implies near(
                (#[trigger] part(x2, i)).value@,
                0 as real,
                (2 * taps) as real,
            ) by {
                assert(self.is_near(part(c2, i), part(x2, i).value@, (2 * taps) as real * u));
            }
        }
    }

    /// A sum over the diameter: eleven times the result is as far from the sum as the sum was
    /// off, and a little more.
    proof fn lemma_over_diameter(self, c: F, x: real, off: real, size: real)
        requires
            self.suits_kernels(),
            self.is_near(c, x, off),
            near(x, 0 as real, size),
            0 as real <= off,
            off + size <= 24 as real,
        ensures
            (self.fine)(c.spec_times(inv_diam())),
            near(
                (self.val)(c.spec_times(inv_diam())) * 11 as real,
                x,
                off + (off + size) * self.unit + 11 as real * self.unit,
            ),
    {
        reveal(Model::holds);
        let (u, val) = (self.unit, self.val);
        let (y, v) = (val(c), val(inv_diam()));
        let t = v * 11 as real - 1 as real;
        lemma_product_size(y, t, off + size, u);
        assert(y * (v * 11 as real - 1 as real) == (y * v) * 11 as real - y) by (nonlinear_arith);
        let most = off + size;
        assert(most * u <= 24 as real * u) by (nonlinear_arith)
            requires
                most <= 24 as real,
                u >= 0 as real,
        ;
        assert(near(y * v, 0 as real, self.limit));
        assert(self.is_near(c.spec_times(inv_diam()), y * v, u));
    }
}

impl<F: Scalar> Model<F> {
    /// What the planes must be for the bounds: large enough to reflect in, held, and of
    /// samples within one of zero.
    pub open spec fn bounds(self, pair: PlanePair<F>) -> bool {
        &&& self.suits_kernels()
        &&& self.takes(pair)
        &&& 2 <= pair.width
        &&& 2 <= pair.height
        &&& pair.width * pair.height <= pair.src.len()
        &&& pair.width * pair.height <= pair.dst.len()
    }

    /// What moment `i` of a blurred row stands for.
    pub open spec fn row_val(self, pair: PlanePair<F>, row: int, col: int, i: int) -> real {
        (self.val)(part(pair.row_moments(row, col), i))
    }

    /// A blurred row is at most six units off, and at most two large.
    proof fn lemma_row(self, pair: PlanePair<F>, row: int, col: int, i: int)
        requires
            self.bounds(pair),
            0 <= i < 4,
        ensures
            self.is_near(
                part(pair.row_moments(row, col), i),
                part(self.exact_pair(pair).row_moments(row, col), i).value@,
                6 as real * self.unit,
            ),
            near(
                part(self.exact_pair(pair).row_moments(row, col), i).value@,
                0 as real,
                2 as real,
            ),
    {
        reveal(Model::holds);
        let u = self.unit;
        let ideal = self.exact_pair(pair);
        let r = reflect(row, pair.height);
        law_reflect_in_range(row, pair.height);
        self.lemma_taps(pair, r, col, 11);
        let (c, x) = (part(pair.row_taps(r, col, 11), i), part(ideal.row_taps(r, col, 11), i));
        self.lemma_over_diameter(c, x.value@, 22 as real * u, 22 as real);
        let most = 22 as real * u + 22 as real;
        assert(most * u <= 23 as real * u) by (nonlinear_arith)
            requires
                most <= 23 as real,
                u >= 0 as real,
        ;
        lemma_exact_ratio(1, DIAM);
        let k = inv_diam::<Exact>().value@;
        assert((x.value@ * k) * 11 as real == x.value@ * (k * 11 as real)) by (nonlinear_arith);
        assert(x.value@ * 1 as real == x.value@);
    }

    /// The sum of what moment `i` of the first `rows` rows of a window stands for.
    pub open spec fn rows_total(
        self,
        pair: PlanePair<F>,
        y: int,
        col: int,
        i: int,
        rows: nat,
    ) -> real
        decreases rows,
    {
        if rows == 0 {
            0 as real
        } else {
            self.rows_total(pair, y, col, i, (rows - 1) as nat) + self.row_val(
                pair,
                y + rows - 1 - R,
                col,
                i,
            )
        }
    }

    /// Taking the first row off a window leaves the first rows of the next.
    proof fn lemma_total_shift(self, pair: PlanePair<F>, y: int, col: int, i: int, rows: nat)
        ensures
            self.rows_total(pair, y, col, i, rows + 1) == self.row_val(pair, y - R, col, i)
                + self.rows_total(pair, y + 1, col, i, rows),
        decreases rows,
    {
        if rows > 0 {
            self.lemma_total_shift(pair, y, col, i, (rows - 1) as nat);
        } else {
            assert(self.rows_total(pair, y, col, i, 0) == 0 as real);
        }
    }

    /// The total of the first rows is at most six units a row from the exact one, which is at
    /// most two a row large.
    proof fn lemma_total(self, pair: PlanePair<F>, y: int, col: int, i: int, rows: nat)
        requires
            self.bounds(pair),
            0 <= i < 4,
        ensures
            near(
                self.rows_total(pair, y, col, i, rows),
                part(self.exact_pair(pair).first_rows(y, col, rows), i).value@,
                rows as real * (6 as real * self.unit),
            ),
            near(
                part(self.exact_pair(pair).first_rows(y, col, rows), i).value@,
                0 as real,
                (2 * rows) as real,
            ),
        decreases rows,
    {
        reveal(Model::holds);
        let u6 = 6 as real * self.unit;
        lemma_exact_units();
        if rows == 0 {
            assert(0 as real * u6 == 0 as real);
        } else {
            self.lemma_total(pair, y, col, i, (rows - 1) as nat);
            self.lemma_row(pair, y + rows - 1 - R, col, i);
            let (a, b) = (rows as real, (rows - 1) as real);
            assert(a * u6 == b * u6 + u6) by (nonlinear_arith)
                requires
                    a == b + 1 as real,
            ;
        }
    }

    /// The sum of the first rows is at most a unit a row from the total of the rows.
    proof fn lemma_first_rows(self, pair: PlanePair<F>, y: int, col: int, i: int, rows: nat)
        requires
            self.bounds(pair),
            0 <= i < 4,
            rows <= 11,
        ensures
            self.is_near(
                part(pair.first_rows(y, col, rows), i),
                self.rows_total(pair, y, col, i, rows),
                rows as real * self.unit,
            ),
        decreases rows,
    {
        reveal(Model::holds);
        let (u, val) = (self.unit, self.val);
        if rows == 0 {
            assert(0 as real * u == 0 as real);
        } else {
            let m = (rows - 1) as nat;
            self.lemma_first_rows(pair, y, col, i, m);
            self.lemma_total(pair, y, col, i, m);
            self.lemma_row(pair, y + rows - 1 - R, col, i);
            let n = m as real;
            lemma_units(n, u, 10 as real);
            lemma_units(n, 6 as real * u, 10 as real);
            assert(rows as real == n + 1 as real);
            let (a, b) = (
                part(pair.first_rows(y, col, m), i),
                part(pair.row_moments(y + rows - 1 - R, col), i),
            );
            assert(near(val(a) + val(b), 0 as real, self.limit));
            assert(part(pair.first_rows(y, col, rows), i) == a.spec_plus(b));
            assert(self.is_near(a.spec_plus(b), val(a) + val(b), u));
        }
    }

    /// The sum that a sliding window holds is at most eleven units, and two for every row that
    /// it slid, from the total of its rows.
    proof fn lemma_window_sum(
        self,
        pair: PlanePair<F>,
        y_start: int,
        y: int,
        col: int,
        i: int,
    )
        requires
            self.bounds(pair),
            0 <= i < 4,
            y_start <= y <= y_start + 65536,
        ensures
            self.is_near(
                part(pair.window_sum(y_start, y, col), i),
                self.rows_total(pair, y, col, i, 11),
                (11 + 2 * (y - y_start)) as real * self.unit,
            ),
            near(self.rows_total(pair, y, col, i, 11), 0 as real, 23 as real),
        decreases y - y_start,
    {
        reveal(Model::holds);
        let (u, val) = (self.unit, self.val);
        self.lemma_total(pair, y, col, i, 11);
        assert(11 as real * (6 as real * u) == 66 as real * u);
        if y == y_start {
            self.lemma_first_rows(pair, y, col, i, 11);
        } else {
            self.lemma_window_sum(pair, y_start, y - 1, col, i);
            let (last, first) = (y + R, y - 1 - R);
            self.lemma_row(pair, last, col, i);
            self.lemma_row(pair, first, col, i);
            self.lemma_total_shift(pair, y - 1, col, i, 10);
            let n = (11 + 2 * (y - 1 - y_start)) as real;
            lemma_units(n, u, 131083 as real);
            assert((11 + 2 * (y - y_start)) as real == n + 2 as real);
            let a = part(pair.window_sum(y_start, y - 1, col), i);
            let b = part(pair.row_moments(last, col), i);
            let c = part(pair.row_moments(first, col), i);
            assert(self.rows_total(pair, y, col, i, 11) == self.rows_total(pair, y, col, i, 10)
                + val(b));
            assert(near(val(a) + val(b), 0 as real, self.limit));
            let sum = a.spec_plus(b);
            assert(self.is_near(sum, val(a) + val(b), u));
            assert(near(val(sum) - val(c), 0 as real, self.limit));
            assert(self.is_near(sum.spec_minus(c), val(sum) - val(c), u));
            assert(part(pair.window_sum(y_start, y, col), i) == sum.spec_minus(c));
        }
    }
}

impl<F: Scalar> Model<F> {
    /// A window sum over the diameter is at most a unit from the exact product.
    proof fn lemma_sum_over_diameter(self, c: F)
        requires
            self.suits_kernels(),
            self.is_near(c, 0 as real, 24 as real),
        ensures
            self.is_near(
                c.spec_times(inv_diam()),
                (self.val)(c) * (self.val)(inv_diam()),
                self.unit,
            ),
    {
        reveal(Model::holds);
        let (y, v) = ((self.val)(c), (self.val)(inv_diam()));
        lemma_product_size(y, v * 11 as real, 24 as real, 2 as real);
        assert(y * (v * 11 as real) == (y * v) * 11 as real) by (nonlinear_arith);
        assert(near(y * v, 0 as real, self.limit));
    }

    /// Whichever rows two windows were started at, up to 255 rows above, they give moments that
    /// are at most 1/10000 apart: a plane that is blurred in strips has no seam.
    pub proof fn law_window_start_leaves_no_seam(
        self,
        pair: PlanePair<F>,
        a: int,
        b: int,
        y: int,
        col: int,
        i: int,
    )
        requires
            self.bounds(pair),
            0 <= i < 4,
            a <= y <= a + 255,
            b <= y <= b + 255,
        ensures
            self.within_ten_thousandth(
                part(pair.window_moments(a, y, col), i),
                part(pair.window_moments(b, y, col), i),
            ),
    {
        reveal(Model::holds);
        reveal(Model::within_ten_thousandth);
        let (u, val) = (self.unit, self.val);
        self.lemma_window_sum(pair, a, y, col, i);
        self.lemma_window_sum(pair, b, y, col, i);
        let (p, q) = (
            part(pair.window_sum(a, y, col), i),
            part(pair.window_sum(b, y, col), i),
        );
        lemma_units((11 + 2 * (y - a)) as real, u, 521 as real);
        lemma_units((11 + 2 * (y - b)) as real, u, 521 as real);
        self.lemma_sum_over_diameter(p);
        self.lemma_sum_over_diameter(q);
        let (x, z, v) = (val(p), val(q), val(inv_diam()));
        let apart = x - z;
        let far = 1042 as real * u;
        lemma_product_size(apart, v * 11 as real, far, 1 as real + u);
        assert((x - z) * (v * 11 as real) == (x * v) * 11 as real - (z * v) * 11 as real)
            by (nonlinear_arith);
        assert(far * (1 as real + u) == far + far * u) by (nonlinear_arith);
        assert(far * u <= u) by (nonlinear_arith)
            requires
                far <= 1 as real,
                u >= 0 as real,
        ;
    }

    /// A blurred moment is near the exact mean of its window: eleven times the distance is at
    /// most 111 units, and two for every row that the window slid.
    pub proof fn law_sliding_blur_is_near_mean(
        self,
        pair: PlanePair<F>,
        y_start: int,
        y: int,
        col: int,
        i: int,
    )
        requires
            self.bounds(pair),
            0 <= i < 4,
            y_start <= y <= y_start + 65536,
        ensures
            (self.fine)(part(pair.window_moments(y_start, y, col), i)),
            near(
                (self.val)(part(pair.window_moments(y_start, y, col), i)) * 11 as real,
                part(self.exact_pair(pair).direct_moments::<Exact>(y, col), i).value@ * 11 as real,
                (111 + 2 * (y - y_start)) as real * self.unit,
            ),
    {
        reveal(Model::holds);
        let u = self.unit;
        let ideal = self.exact_pair(pair);
        law_sliding_blur_is_direct_blur(ideal, y_start, y, col);
        law_sliding_sum_is_fresh_sum(ideal, y_start, y, col);
        self.lemma_window_sum(pair, y_start, y, col, i);
        self.lemma_total(pair, y, col, i, 11);
        assert(11 as real * (6 as real * u) == 66 as real * u);
        let n = (11 + 2 * (y - y_start)) as real;
        lemma_units(n, u, 131083 as real);
        let (c, s) = (
            part(pair.window_sum(y_start, y, col), i),
            part(ideal.first_rows(y, col, 11), i).value@,
        );
        let off = n * u + 66 as real * u;
        self.lemma_over_diameter(c, s, off, 22 as real);
        let most = off + 22 as real;
        assert(most * u <= 23 as real * u) by (nonlinear_arith)
            requires
                most <= 23 as real,
                u >= 0 as real,
        ;
        assert((111 + 2 * (y - y_start)) as real * u == n * u + 100 as real * u)
            by (nonlinear_arith)
            requires
                (111 + 2 * (y - y_start)) as real == n + 100 as real,
        ;
        lemma_exact_ratio(1, DIAM);
        let k = inv_diam::<Exact>().value@;
        assert((s * k) * 11 as real == s * (k * 11 as real)) by (nonlinear_arith);
        assert(s * 1 as real == s);
        assert(part(ideal.window_moments(y_start, y, col), i).value@ == s * k);
    }
}

/// `wide` is a model of a number type that holds that of `narrow`: it takes its values over
/// as they are, gives them back at most a unit of `narrow` off, is itself no less accurate, and
/// has room for the sums of a whole window. So it is of 64-bit IEEE arithmetic over 32-bit.
#[verifier::opaque]
pub open spec fn suits_reference<F: Scalar, A: Wide<F>>(narrow: Model<F>, wide: Model<A>) -> bool {
    &&& wide.holds()
    &&& wide.limit >= 256 as real
    &&& wide.unit <= narrow.unit
    &&& forall|x: F|
        (narrow.fine)(x) ==> (wide.fine)(#[trigger] A::spec_widen(x)) && (wide.val)(
            A::spec_widen(x),
        ) == (narrow.val)(x)
    &&& forall|y: A|
        (wide.fine)(y) && near((wide.val)(y), 0 as real, 32 as real) ==> narrow.is_near(
            #[trigger] y.spec_narrow(),
            (wide.val)(y),
            narrow.unit,
        )
    &&& (wide.fine)(A::spec_ratio(1, WINDOW_TAPS))
    &&& near(
        (wide.val)(A::spec_ratio(1, WINDOW_TAPS)) * 121 as real,
        1 as real,
        wide.unit,
    )
}

impl<F: Scalar> Model<F> {
    /// One pair of samples more, by products that are rounded before they are added: at most
    /// four units more, and two larger.
    proof fn lemma_summed(
        self,
        c: Moments<F>,
        x: Moments<Exact>,
        n: nat,
        s: F,
        d: F,
        i: int,
    )
        requires
            self.holds(),
            self.limit >= 256 as real,
            self.unit * 1048576 as real <= 1 as real,
            n <= 120,
            0 <= i < 4,
            self.is_near(part(c, i), part(x, i).value@, (4 * n) as real * self.unit),
            near(part(x, i).value@, 0 as real, (2 * n) as real),
            self.is_near(s, 0 as real, 1 as real),
            self.is_near(d, 0 as real, 1 as real),
        ensures
            self.is_near(
                part(c.spec_summed(s, d), i),
                part(x.spec_summed(exact((self.val)(s)), exact((self.val)(d))), i).value@,
                (4 * n + 4) as real * self.unit,
            ),
            near(
                part(x.spec_summed(exact((self.val)(s)), exact((self.val)(d))), i).value@,
                0 as real,
                (2 * n + 2) as real,
            ),
    {
        reveal(Model::holds);
        let (u, val) = (self.unit, self.val);
        let m = (4 * n) as real;
        lemma_units(m, u, 480 as real);
        lemma_units(m + 2 as real, u, 482 as real);
        assert((4 * n + 4) as real == m + 2 as real + 2 as real);
        let (a, b) = (val(s), val(d));
        lemma_product_size(a, a, 1 as real, 1 as real);
        lemma_product_size(b, b, 1 as real, 1 as real);
        lemma_product_size(a, b, 1 as real, 1 as real);
        let (ss, dd, sd) = (s.spec_times(s), d.spec_times(d), s.spec_times(d));
        assert(self.is_near(ss, a * a, u));
        assert(self.is_near(dd, b * b, u));
        assert(self.is_near(sd, a * b, u));
        assert(self.is_near(ss.spec_plus(dd), val(ss) + val(dd), u));
        let (p, q) = (part(c, i), part(x, i).value@);
        if i == 0 {
            assert(self.is_near(p.spec_plus(s), val(p) + a, u));
        } else if i == 1 {
            assert(self.is_near(p.spec_plus(d), val(p) + b, u));
        } else if i == 2 {
            let squares = ss.spec_plus(dd);
            assert(self.is_near(p.spec_plus(squares), val(p) + val(squares), u));
        } else {
            assert(self.is_near(p.spec_plus(sd), val(p) + val(sd), u));
        }
    }
}

/// The first taps of a row of a window, summed on top of `n` taps.
proof fn lemma_direct_row<F: Scalar, A: Wide<F>>(
    narrow: Model<F>,
    wide: Model<A>,
    pair: PlanePair<F>,
    c: Moments<A>,
    x: Moments<Exact>,
    n: nat,
    row: int,
    col: int,
    taps: nat,
    i: int,
)
    requires
        narrow.bounds(pair),
        suits_reference(narrow, wide),
        0 <= row < pair.height,
        n + taps <= 121,
        0 <= i < 4,
        wide.is_near(part(c, i), part(x, i).value@, (4 * n) as real * wide.unit),
        near(part(x, i).value@, 0 as real, (2 * n) as real),
    ensures
        wide.is_near(
            part(pair.direct_row::<A>(c, row, col, taps), i),
            part(narrow.exact_pair(pair).direct_row::<Exact>(x, row, col, taps), i).value@,
            (4 * (n + taps)) as real * wide.unit,
        ),
        near(
            part(narrow.exact_pair(pair).direct_row::<Exact>(x, row, col, taps), i).value@,
            0 as real,
            (2 * (n + taps)) as real,
        ),
    decreases taps,
{
    reveal(suits_reference);
    reveal(Model::takes);
    if taps > 0 {
        let ideal = narrow.exact_pair(pair);
        let t = (taps - 1) as nat;
        lemma_direct_row(narrow, wide, pair, c, x, n, row, col, t, i);
        let at = pair.offset(row, col + taps - 1 - R);
        lemma_offset_in_plane(pair, row, col + taps - 1 - R);
        assert(ideal.offset(row, col + taps - 1 - R) == at);
        let (s, d) = (pair.src[at], pair.dst[at]);
        assert(ideal.src[at] == exact((narrow.val)(s)) && ideal.dst[at] == exact((narrow.val)(d)));
        let (ws, wd) = (A::spec_widen(s), A::spec_widen(d));
        assert((wide.val)(ws) == (narrow.val)(s) && (wide.val)(wd) == (narrow.val)(d));
        wide.lemma_summed(
            pair.direct_row::<A>(c, row, col, t),
            ideal.direct_row::<Exact>(x, row, col, t),
            n + t,
            ws,
            wd,
            i,
        );
    }
}

/// The first rows of a window.
proof fn lemma_direct_window<F: Scalar, A: Wide<F>>(
    narrow: Model<F>,
    wide: Model<A>,
    pair: PlanePair<F>,
    y: int,
    col: int,
    rows: nat,
    i: int,
)
    requires
        narrow.bounds(pair),
        suits_reference(narrow, wide),
        rows <= 11,
        0 <= i < 4,
    ensures
        wide.is_near(
            part(pair.direct_window::<A>(y, col, rows), i),
            part(narrow.exact_pair(pair).direct_window::<Exact>(y, col, rows), i).value@,
            (44 * rows) as real * wide.unit,
        ),
        near(
            part(narrow.exact_pair(pair).direct_window::<Exact>(y, col, rows), i).value@,
            0 as real,
            (22 * rows) as real,
        ),
    decreases rows,
{
    reveal(Model::holds);
    reveal(suits_reference);
    lemma_exact_units();
    if rows == 0 {
        assert(0 as real * wide.unit == 0 as real);
    } else {
        let r = (rows - 1) as nat;
        lemma_direct_window(narrow, wide, pair, y, col, r, i);
        let row = reflect(y + rows - 1 - R, pair.height);
        law_reflect_in_range(y + rows - 1 - R, pair.height);
        lemma_direct_row(
            narrow,
            wide,
            pair,
            pair.direct_window::<A>(y, col, r),
            narrow.exact_pair(pair).direct_window::<Exact>(y, col, r),
            11 * r,
            row,
            col,
            11,
            i,
        );
    }
}

/// A reference moment is near the exact mean of its window: at most nine units off.
pub proof fn law_reference_is_near_mean<F: Scalar, A: Wide<F>>(
    narrow: Model<F>,
    wide: Model<A>,
    pair: PlanePair<F>,
    y: int,
    col: int,
    i: int,
)
    requires
        narrow.bounds(pair),
        suits_reference(narrow, wide),
        0 <= i < 4,
    ensures
        narrow.is_near(
            part(pair.direct_moments::<A>(y, col), i),
            part(narrow.exact_pair(pair).direct_moments::<Exact>(y, col), i).value@,
            9 as real * narrow.unit,
        ),
{
    reveal(Model::holds);
    reveal(suits_reference);
    let (u, val) = (wide.unit, wide.val);
    let ideal = narrow.exact_pair(pair);
    lemma_direct_window(narrow, wide, pair, y, col, 11, i);
    let c = part(pair.direct_window::<A>(y, col, 11), i);
    let x = part(ideal.direct_window::<Exact>(y, col, 11), i).value@;
    let inv = A::spec_ratio(1, WINDOW_TAPS);
    let (p, v) = (val(c), val(inv));
    let t = v * 121 as real - 1 as real;
    let n = (44 * 11nat) as real;
    assert(n == 484 as real);
    lemma_units(n, u, 484 as real);
    assert(near(p, x, n * u));
    assert(near(x, 0 as real, 242 as real));
    lemma_product_size(p, t, 243 as real, u);
    assert(p * (v * 121 as real - 1 as real) == (p * v) * 121 as real - p) by (nonlinear_arith);
    assert(near(p * v, 0 as real, wide.limit));
    assert(wide.is_near(c.spec_times(inv), p * v, u));
    lemma_exact_ratio(1, WINDOW_TAPS);
    let k = Exact::spec_ratio(1, WINDOW_TAPS).value@;
    assert((x * k) * 121 as real == x * (k * 121 as real)) by (nonlinear_arith);
    assert(x * 1 as real == x);
    assert(narrow.is_near(
        c.spec_times(inv).spec_narrow(),
        val(c.spec_times(inv)),
        narrow.unit,
    ));
}

/// A blurred moment is within 1/1000 of the reference moment, wherever the window was started,
/// up to 4096 rows above.
pub proof fn law_sliding_blur_is_near_reference<F: Scalar, A: Wide<F>>(
    narrow: Model<F>,
    wide: Model<A>,
    pair: PlanePair<F>,
    y_start: int,
    y: int,
    col: int,
    i: int,
)
    requires
        narrow.bounds(pair),
        suits_reference(narrow, wide),
        0 <= i < 4,
        y_start <= y <= y_start + 4096,
    ensures
        narrow.within_thousandth(
            part(pair.window_moments(y_start, y, col), i),
            part(pair.direct_moments::<A>(y, col), i),
        ),
{
    reveal(Model::holds);
    reveal(Model::within_thousandth);
    reveal(suits_reference);
    narrow.law_sliding_blur_is_near_mean(pair, y_start, y, col, i);
    law_reference_is_near_mean(narrow, wide, pair, y, col, i);
    lemma_units((111 + 2 * (y - y_start)) as real, narrow.unit, 8303 as real);
}

/// The strip of a row starts in the plane, no further down than the row.
proof fn lemma_strip_starts_above(h: int, n: int, y: int)
    requires
        0 < n,
        0 <= y < h,
    ensures
        0 <= strip_start(h, n, strip_of(h, n, y)) <= y,
{
    let s = strip_of(h, n, y);
    assert(0 <= s && strip_start(h, n, s) <= y) by {
        law_row_has_one_strip(h, n, y);
    }
    let q = h / n;
    lemma_div_pos_is_pos(h, n);
    lemma_mod_bound(h, n);
    assert(0 <= s * q) by (nonlinear_arith)
        requires
            0 <= s,
            0 <= q,
    ;
}

/// Where a pixel of the planes comes from: the window of its column, started in the plane, no
/// further down than its row.
proof fn lemma_pixel_window(layout: Layout, j: int)
    requires
        layout.valid(),
        layout.is_pixel(j),
    ensures
        0 <= layout.channel(j) < CHANNELS,
        0 <= layout.row(j) < layout.height,
        0 <= layout.window_start(layout.row(j)) <= layout.row(j),
{
    lemma_pixel_offset(layout, j);
    lemma_strip_starts_above(layout.height as int, layout.n_strips as int, layout.row(j));
}

/// The planes of every channel are such that the bounds hold of them.
#[verifier::opaque]
pub open spec fn bounds_channels<F: Scalar>(
    model: Model<F>,
    src: &Channels<F>,
    dst: &Channels<F>,
    width: int,
    height: int,
) -> bool {
    forall|c: int|
        0 <= c < CHANNELS ==> model.bounds(#[trigger] plane_pair(src, dst, width, height, c))
}

proof fn lemma_no_seam<F: Scalar>(
    model: Model<F>,
    src: &Channels<F>,
    dst: &Channels<F>,
    width: int,
    height: int,
    c: int,
    a: int,
    b: int,
    y: int,
    col: int,
    i: int,
)
    requires
        bounds_channels(model, src, dst, width, height),
        0 <= c < CHANNELS,
        0 <= i < 4,
        a <= y <= a + 255,
        b <= y <= b + 255,
    ensures
        model.within_ten_thousandth(
            part(plane_pair(src, dst, width, height, c).window_moments(a, y, col), i),
            part(plane_pair(src, dst, width, height, c).window_moments(b, y, col), i),
        ),
{
    reveal(bounds_channels);
    let pair = plane_pair(src, dst, width, height, c);
    assert(model.bounds(pair));
    model.law_window_start_leaves_no_seam(pair, a, b, y, col, i);
}

/// Blurring a plane of up to 256 rows in any number of strips gives, at every pixel, moments
/// that are at most 1/10000 from those of any other number of strips: strips leave no seam.
pub proof fn law_strips_leave_no_seam<F: Scalar>(
    model: Model<F>,
    src: &Channels<F>,
    dst: &Channels<F>,
    a: Layout,
    b: Layout,
    j: int,
    i: int,
)
    requires
        a.valid(),
        b.valid(),
        a.width == b.width,
        a.height == b.height,
        a.height <= 256,
        a.pad_total == b.pad_total,
        a.is_pixel(j),
        bounds_channels(model, src, dst, a.width as int, a.height as int),
        0 <= i < 4,
    ensures
        model.within_ten_thousandth(
            part(blurred_at(src, dst, a, j), i),
            part(blurred_at(src, dst, b, j), i),
        ),
{
    lemma_pixel_window(a, j);
    lemma_pixel_window(b, j);
    let (c, y, col) = (a.channel(j), a.row(j), a.col(j));
    let (w, h) = (a.width as int, a.height as int);
    assert(channel_pair(src, dst, a, c) == plane_pair(src, dst, w, h, c));
    assert(channel_pair(src, dst, b, c) == plane_pair(src, dst, w, h, c));
    lemma_no_seam(model, src, dst, w, h, c, a.window_start(y), b.window_start(y), y, col, i);
}

proof fn lemma_near_reference<F: Scalar, A: Wide<F>>(
    narrow: Model<F>,
    wide: Model<A>,
    src: &Channels<F>,
    dst: &Channels<F>,
    width: int,
    height: int,
    c: int,
    y_start: int,
    y: int,
    col: int,
    i: int,
)
    requires
        bounds_channels(narrow, src, dst, width, height),
        suits_reference(narrow, wide),
        0 <= c < CHANNELS,
        0 <= i < 4,
        y_start <= y <= y_start + 4096,
    ensures
        narrow.within_thousandth(
            part(plane_pair(src, dst, width, height, c).window_moments(y_start, y, col), i),
            part(plane_pair(src, dst, width, height, c).direct_moments::<A>(y, col), i),
        ),
{
    reveal(bounds_channels);
    let pair = plane_pair(src, dst, width, height, c);
    assert(narrow.bounds(pair));
    law_sliding_blur_is_near_reference(narrow, wide, pair, y_start, y, col, i);
}

/// The moment planes that the kernels write for a level of up to 4096 rows are within 1/1000 of
/// the reference planes, each moment of each pixel, whatever the mode: in arithmetic that the
/// models describe, the planes of a run on images pass.
pub proof fn law_device_planes_are_near_reference_planes<F: Scalar, A: Wide<F>>(
    narrow: Model<F>,
    wide: Model<A>,
    src: &Channels<F>,
    dst: &Channels<F>,
    level: Level,
    j: int,
    i: int,
)
    requires
        level.addressable(),
        slidable(level.width as int),
        slidable(level.height as int),
        level.height <= 4096,
        bounds_channels(narrow, src, dst, level.width as int, level.height as int),
        suits_reference(narrow, wide),
        0 <= j < CHANNELS * level.area(),
        0 <= i < 4,
    ensures
        narrow.within_thousandth(
            part(device_planes(src, dst, level)[j], i),
            part(
                reference_planes::<F, A>(src, dst, level.width as int, level.height as int)[j],
                i,
            ),
        ),
{
    let layout = level_layout(level);
    let (w, h) = (level.width as int, level.height as int);
    assert(0 < w * h && w <= w * h && h <= w * h) by (nonlinear_arith)
        requires
            0 < w,
            0 < h,
    ;
    lemma_mod_bound(j, w * h);
    assert(layout.is_pixel(j));
    lemma_pixel_window(layout, j);
    let (c, y, col) = (layout.channel(j), layout.row(j), layout.col(j));
    assert(channel_pair(src, dst, layout, c) == plane_pair(src, dst, w, h, c));
    lemma_near_reference(
        narrow,
        wide,
        src,
        dst,
        w,
        h,
        c,
        layout.window_start(y),
        y,
        col,
        i,
    );
    assert(device_planes(src, dst, level)[j] == blurred_at(src, dst, layout, j));
    assert(reference_planes::<F, A>(src, dst, w, h)[j] == plane_pair(
        src,
        dst,
        w,
        h,
        c,
    ).direct_moments::<A>(y, col));
}

} // verus!
