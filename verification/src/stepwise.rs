//! Where the kernels round: of numbers of so many digits, which results are rounded on the way,
//! and which products go into a sum unrounded.
use vstd::prelude::*;

use crate::digits::{lemma_kept, lemma_power, lemma_power_grows, rounded};
use crate::features::{peak_terms, sum_terms, Body, FeatMode};
use crate::meaning::{distance, larger};
use crate::mirror::reflect;
use crate::reference::narrowed;
use crate::scalar::{one, zero, Scalar};
use crate::single::{
    law_rounded_numbers_round_to_themselves, lemma_zero, Digits, Double, Single,
};
use crate::ssim::{device_error, reference_error, ssim_error};
use crate::synth::{image_sample, moment_sample};
use crate::window::{Moments, PlanePair};

verus! {

/// One and two have one digit each.
proof fn lemma_small_numbers<const N: u32>()
    requires
        1 <= N,
    ensures
        one::<Digits<N>>().value@ == 1 as real,
        Digits::<N>::spec_ratio(2, 1).value@ == 2 as real,
        zero::<Digits<N>>().value@ == 0 as real,
{
    lemma_zero::<N>();
    lemma_power(0);
    lemma_power_grows(0, N as int);
    lemma_kept(N as nat, 1, 0);
    lemma_kept(N as nat, 1, 1);
    assert(1u32 as real / 1u32 as real == 1 as real) by (nonlinear_arith)
        requires
            1u32 as real == 1 as real,
    ;
    assert(2u32 as real / 1u32 as real == 2 as real) by (nonlinear_arith)
        requires
            1u32 as real == 1 as real,
            2u32 as real == 2 as real,
    ;
    assert(1 as real * 1 as real == 1 as real && 1 as real * 2 as real == 2 as real);
}

/// The squares and the product of the means go into the error unrounded; every sum, the product
/// of the two terms, the quotient and the difference from one are rounded.
pub proof fn law_error_rounds_each_step<const N: u32>(m: Moments<Digits<N>>)
    requires
        1 <= N,
    ensures
        ({
            let n = N as nat;
            let (mu1, mu2, ssq, s12) = (m.mu1.value@, m.mu2.value@, m.ssq.value@, m.s12.value@);
            let c2 = rounded(n, 9 as real / 10000 as real);
            let apart = rounded(n, mu1 - mu2);
            let closeness = rounded(n, 1 as real - apart * apart);
            let structure = rounded(n, 2 as real * rounded(n, s12 - mu1 * mu2) + c2);
            let spread = rounded(n, rounded(n, rounded(n, ssq - mu1 * mu1) - mu2 * mu2) + c2);
            ssim_error(m).value@ == larger(
                0 as real,
                rounded(n, 1 as real - rounded(n, rounded(n, closeness * structure) / spread)),
            )
        }),
{
    let n = N as nat;
    lemma_small_numbers::<N>();
    let (mu1, mu2) = (m.mu1.value@, m.mu2.value@);
    let apart = rounded(n, mu1 - mu2);
    assert(apart * (-apart) == -(apart * apart)) by (nonlinear_arith);
    assert((-mu1) * mu2 == -(mu1 * mu2)) by (nonlinear_arith);
    assert((-mu1) * mu1 == -(mu1 * mu1)) by (nonlinear_arith);
    assert((-mu2) * mu2 == -(mu2 * mu2)) by (nonlinear_arith);
    assert(9u32 as real == 9 as real && 10000u32 as real == 10000 as real);
}

/// The weighted errors are rounded, and added up one channel after the other.
pub proof fn law_weighted_error_rounds_each_step<const N: u32>(
    planes: Seq<Moments<Digits<N>>>,
    pad_total: int,
    w: Seq<Digits<N>>,
    idx: int,
)
    requires
        1 <= N,
    ensures
        ({
            let n = N as nat;
            let x = rounded(n, w[0].value@ * ssim_error(planes[idx]).value@);
            let y = rounded(n, w[1].value@ * ssim_error(planes[idx + pad_total]).value@);
            let b = rounded(n, w[2].value@ * ssim_error(planes[idx + 2 * pad_total]).value@);
            &&& reference_error(planes, pad_total, w, idx).value@ == rounded(
                n,
                rounded(n, x + y) + b,
            )
            &&& device_error(planes, pad_total, w, idx).value@ == rounded(n, rounded(n, x + y) + b)
        }),
{
    lemma_small_numbers::<N>();
    law_rounded_numbers_round_to_themselves::<N>(w[0].value@ * ssim_error(planes[idx]).value@);
}

/// One tap more of a sliding window: the squares and the product go into their sums unrounded,
/// the square of the distorted sample before that of the source.
pub proof fn law_sliding_tap_rounds_sums_only<const N: u32>(
    pair: PlanePair<Digits<N>>,
    row: int,
    col: int,
    taps: nat,
)
    requires
        taps > 0,
    ensures
        ({
            let n = N as nat;
            let (was, now) = (
                pair.row_taps(row, col, (taps - 1) as nat),
                pair.row_taps(row, col, taps),
            );
            let at = pair.offset(row, col + taps - 1 - 5);
            let (s, d) = (pair.src[at].value@, pair.dst[at].value@);
            &&& now.mu1.value@ == rounded(n, was.mu1.value@ + s)
            &&& now.mu2.value@ == rounded(n, was.mu2.value@ + d)
            &&& now.ssq.value@ == rounded(n, s * s + rounded(n, d * d + was.ssq.value@))
            &&& now.s12.value@ == rounded(n, s * d + was.s12.value@)
        }),
{
}

/// One row down: the row that comes in is added first, then the row that leaves is taken off,
/// each rounded; the rows, and the window, are scaled by the rounded eleventh.
pub proof fn law_sliding_rounds_each_step<const N: u32>(
    pair: PlanePair<Digits<N>>,
    y_start: int,
    y: int,
    col: int,
)
    requires
        y_start < y,
    ensures
        ({
            let n = N as nat;
            let (was, now) = (pair.window_sum(y_start, y - 1, col), pair.window_sum(y_start, y, col));
            let (next, gone) = (pair.row_moments(y + 5, col), pair.row_moments(y - 6, col));
            &&& now.mu1.value@ == rounded(
                n,
                rounded(n, was.mu1.value@ + next.mu1.value@) - gone.mu1.value@,
            )
            &&& now.mu2.value@ == rounded(
                n,
                rounded(n, was.mu2.value@ + next.mu2.value@) - gone.mu2.value@,
            )
            &&& now.ssq.value@ == rounded(
                n,
                rounded(n, was.ssq.value@ + next.ssq.value@) - gone.ssq.value@,
            )
            &&& now.s12.value@ == rounded(
                n,
                rounded(n, was.s12.value@ + next.s12.value@) - gone.s12.value@,
            )
        }),
        ({
            let n = N as nat;
            let eleventh = rounded(n, 1 as real / 11 as real);
            let (total, mean) = (
                pair.window_sum(y_start, y, col),
                pair.window_moments(y_start, y, col),
            );
            &&& mean.mu1.value@ == rounded(n, total.mu1.value@ * eleventh)
            &&& mean.mu2.value@ == rounded(n, total.mu2.value@ * eleventh)
            &&& mean.ssq.value@ == rounded(n, total.ssq.value@ * eleventh)
            &&& mean.s12.value@ == rounded(n, total.s12.value@ * eleventh)
        }),
        ({
            let n = N as nat;
            let eleventh = rounded(n, 1 as real / 11 as real);
            let taps = pair.row_taps(reflect(y, pair.height), col, 11);
            let mean = pair.row_moments(y, col);
            &&& mean.mu1.value@ == rounded(n, taps.mu1.value@ * eleventh)
            &&& mean.mu2.value@ == rounded(n, taps.mu2.value@ * eleventh)
            &&& mean.ssq.value@ == rounded(n, taps.ssq.value@ * eleventh)
            &&& mean.s12.value@ == rounded(n, taps.s12.value@ * eleventh)
        }),
{
    assert(1u32 as real == 1 as real && 11u32 as real == 11 as real);
}

/// One tap more of a direct sum: the squares and the product are rounded before they are added.
pub proof fn law_direct_tap_rounds_products(
    pair: PlanePair<Single>,
    start: Moments<Double>,
    row: int,
    col: int,
    taps: nat,
)
    requires
        taps > 0,
    ensures
        ({
            let (was, now) = (
                pair.direct_row::<Double>(start, row, col, (taps - 1) as nat),
                pair.direct_row::<Double>(start, row, col, taps),
            );
            let at = pair.offset(row, col + taps - 1 - 5);
            let s = rounded(53, pair.src[at].value@);
            let d = rounded(53, pair.dst[at].value@);
            &&& now.mu1.value@ == rounded(53, was.mu1.value@ + s)
            &&& now.mu2.value@ == rounded(53, was.mu2.value@ + d)
            &&& now.ssq.value@ == rounded(
                53,
                was.ssq.value@ + rounded(53, rounded(53, s * s) + rounded(53, d * d)),
            )
            &&& now.s12.value@ == rounded(53, was.s12.value@ + rounded(53, s * d))
        }),
{
}

/// The direct sum is kept in fifty-three digits, scaled by the rounded share of one tap in a
/// hundred and twenty-one, and rounded to twenty-four digits at the end.
pub proof fn law_direct_mean_rounds_at_end(pair: PlanePair<Single>, y: int, col: int)
    ensures
        ({
            let share = rounded(53, 1 as real / 121 as real);
            let total = pair.direct_window::<Double>(y, col, 11);
            let mean = pair.direct_moments::<Double>(y, col);
            &&& mean.mu1.value@ == rounded(24, rounded(53, total.mu1.value@ * share))
            &&& mean.mu2.value@ == rounded(24, rounded(53, total.mu2.value@ * share))
            &&& mean.ssq.value@ == rounded(24, rounded(53, total.ssq.value@ * share))
            &&& mean.s12.value@ == rounded(24, rounded(53, total.s12.value@ * share))
        }),
{
    assert(1u32 as real == 1 as real && 121u32 as real == 121 as real);
    let scaled = pair.direct_window::<Double>(y, col, 11).spec_scaled(Double::spec_ratio(1, 121));
    assert(pair.direct_moments::<Double>(y, col) == narrowed::<Single, Double>(scaled));
}

/// The departures of a pixel are rounded differences without their sign, and the edge difference
/// is a rounded quotient of two rounded sums, less one.
pub proof fn law_edges_round_each_step<const N: u32>(
    m: Moments<Digits<N>>,
    sv: Digits<N>,
    dv: Digits<N>,
)
    requires
        1 <= N,
    ensures
        ({
            let n = N as nat;
            let a = distance(rounded(n, sv.value@ - m.mu1.value@), 0 as real);
            let b = distance(rounded(n, dv.value@ - m.mu2.value@), 0 as real);
            let edge = rounded(
                n,
                rounded(n, rounded(n, 1 as real + b) / rounded(n, 1 as real + a)) - 1 as real,
            );
            let p = peak_terms(m, sv, dv, true);
            let t = sum_terms(m, sv, dv, true);
            &&& p[1].value@ == rounded(n, larger(0 as real, edge))
            &&& p[2].value@ == rounded(n, larger(0 as real, -edge))
            &&& t[12].value@ == rounded(n, a) && t[13].value@ == rounded(n, b)
        }),
{
    lemma_small_numbers::<N>();
}

/// The powers of a pixel's terms are rounded at each squaring.
pub proof fn law_powers_round_each_step<const N: u32>(
    m: Moments<Digits<N>>,
    sv: Digits<N>,
    dv: Digits<N>,
    is_body: bool,
)
    ensures
        ({
            let n = N as nat;
            let t = sum_terms(m, sv, dv, is_body);
            &&& t[2].value@ == rounded(n, t[0].value@ * t[0].value@)
            &&& t[1].value@ == rounded(n, t[2].value@ * t[2].value@)
            &&& t[14].value@ == rounded(n, t[1].value@ * t[1].value@)
            &&& t[5].value@ == rounded(n, t[3].value@ * t[3].value@)
            &&& t[4].value@ == rounded(n, t[5].value@ * t[5].value@)
            &&& t[15].value@ == rounded(n, t[4].value@ * t[4].value@)
            &&& t[8].value@ == rounded(n, t[6].value@ * t[6].value@)
            &&& t[7].value@ == rounded(n, t[8].value@ * t[8].value@)
            &&& t[16].value@ == rounded(n, t[7].value@ * t[7].value@)
        }),
{
}

/// The differences whose squares are summed are rounded before they are squared.
pub proof fn law_squares_round_each_step<const N: u32>(
    m: Moments<Digits<N>>,
    sv: Digits<N>,
    dv: Digits<N>,
)
    requires
        1 <= N,
    ensures
        ({
            let n = N as nat;
            let t = sum_terms(m, sv, dv, true);
            let (apart, a, b) = (
                rounded(n, sv.value@ - dv.value@),
                rounded(n, sv.value@ - m.mu1.value@),
                rounded(n, dv.value@ - m.mu2.value@),
            );
            &&& t[9].value@ == rounded(n, apart * apart)
            &&& t[10].value@ == rounded(n, a * a)
            &&& t[11].value@ == rounded(n, b * b)
            &&& t[0].value@ == rounded(n, ssim_error(m).value@)
        }),
{
    lemma_small_numbers::<N>();
    law_rounded_numbers_round_to_themselves::<N>(sv.value@ - dv.value@);
    law_rounded_numbers_round_to_themselves::<N>(sv.value@ - m.mu1.value@);
    law_rounded_numbers_round_to_themselves::<N>(dv.value@ - m.mu2.value@);
}

/// A window starts from zero, and takes its rows from the top down, each rounded sum before the
/// next row.
pub proof fn law_rows_are_added_from_top<const N: u32>(
    pair: PlanePair<Digits<N>>,
    y: int,
    col: int,
    rows: nat,
)
    requires
        rows > 0,
    ensures
        ({
            let n = N as nat;
            let (was, now) = (
                pair.first_rows(y, col, (rows - 1) as nat),
                pair.first_rows(y, col, rows),
            );
            let next = pair.row_moments(y + rows - 1 - 5, col);
            &&& now.mu1.value@ == rounded(n, was.mu1.value@ + next.mu1.value@)
            &&& now.mu2.value@ == rounded(n, was.mu2.value@ + next.mu2.value@)
            &&& now.ssq.value@ == rounded(n, was.ssq.value@ + next.ssq.value@)
            &&& now.s12.value@ == rounded(n, was.s12.value@ + next.s12.value@)
        }),
        pair.first_rows(y, col, 0).mu1.value@ == 0 as real,
        pair.first_rows(y, col, 0).mu2.value@ == 0 as real,
        pair.first_rows(y, col, 0).ssq.value@ == 0 as real,
        pair.first_rows(y, col, 0).s12.value@ == 0 as real,
        pair.window_sum(y, y, col) == pair.first_rows(y, col, 11),
{
    lemma_zero::<N>();
}

/// The direct sum takes the rows of the window from the top down, and each from left to right.
pub proof fn law_direct_sum_goes_row_by_row(pair: PlanePair<Single>, y: int, col: int, rows: nat)
    requires
        rows > 0,
    ensures
        pair.direct_window::<Double>(y, col, rows) == pair.direct_row::<Double>(
            pair.direct_window::<Double>(y, col, (rows - 1) as nat),
            reflect(y + rows - 1 - 5, pair.height),
            col,
            11,
        ),
        pair.direct_window::<Double>(y, col, 0).mu1.value@ == 0 as real,
        pair.direct_window::<Double>(y, col, 0).mu2.value@ == 0 as real,
        pair.direct_window::<Double>(y, col, 0).ssq.value@ == 0 as real,
        pair.direct_window::<Double>(y, col, 0).s12.value@ == 0 as real,
{
    lemma_zero::<53>();
}

/// The sums of a column are kept in fifty-three digits, and take the terms of its rows, each
/// rounded to twenty-four, from the top down.
pub proof fn law_column_sum_keeps_more_digits(
    pair: PlanePair<Single>,
    mode: FeatMode,
    body: Body,
    y_start: int,
    y: int,
    col: int,
    t: int,
)
    requires
        y_start < y,
    ensures
        pair.column_sum::<Double>(mode, body, y_start, y_start, col, t).value@ == 0 as real,
        pair.column_sum::<Double>(mode, body, y_start, y, col, t).value@ == rounded(
            53,
            pair.column_sum::<Double>(mode, body, y_start, y - 1, col, t).value@ + rounded(
                53,
                pair.sum_terms_at(mode, body, y_start, y - 1, col)[t].value@,
            ),
        ),
{
    lemma_zero::<53>();
}

/// A sample of a moment plane: each wave is weighted by a rounded number and rounded, and the
/// sums are rounded from the left.
pub proof fn law_moment_sample_rounds_each_step<const N: u32>(sines: (Digits<N>, Digits<N>))
    ensures
        ({
            let n = N as nat;
            let base = rounded(n, 4 as real / 10 as real);
            let first = rounded(n, rounded(n, 15 as real / 100 as real) * sines.0.value@);
            let second = rounded(n, rounded(n, 1 as real / 100 as real) * sines.1.value@);
            moment_sample(sines).value@ == rounded(n, rounded(n, base + first) + second)
        }),
{
    assert(4u32 as real == 4 as real && 10u32 as real == 10 as real);
    assert(15u32 as real == 15 as real && 100u32 as real == 100 as real);
    assert(1u32 as real == 1 as real);
}

/// A pixel: each wave is weighted by a rounded number and rounded, and the sums are rounded from
/// the left.
pub proof fn law_image_sample_rounds_each_step<const N: u32>(waves: (Digits<N>, Digits<N>))
    requires
        1 <= N,
    ensures
        ({
            let n = N as nat;
            let base = rounded(n, 3 as real / 10 as real);
            let first = rounded(n, rounded(n, 2 as real / 10 as real) * waves.0.value@);
            let second = rounded(n, rounded(n, 3 as real / 100 as real) * waves.1.value@);
            let clear = rounded(n, base + first);
            &&& image_sample(false, waves).value@ == clear
            &&& image_sample(true, waves).value@ == rounded(n, clear + second)
        }),
{
    assert(3u32 as real == 3 as real && 10u32 as real == 10 as real);
    assert(2u32 as real == 2 as real && 100u32 as real == 100 as real);
    lemma_zero::<N>();
    let first = rounded(N as nat, rounded(N as nat, 2 as real / 10 as real) * waves.0.value@);
    law_rounded_numbers_round_to_themselves::<N>(
        rounded(N as nat, 3 as real / 10 as real) + first,
    );
}

} // verus!
