//! What the moment planes, the sums and the map are averages of, in real arithmetic.
use vstd::arithmetic::div_mod::lemma_fundamental_div_mod_converse;
use vstd::arithmetic::power2::pow2;
use vstd::prelude::*;

use crate::blur::{blurred, channel_pair, lemma_pixel_position, Channels, Layout};
use crate::diffmap::{
    all_device_planes, all_reference_planes, device_map, images_fit,
    law_device_map_is_reference_map, law_device_run_is_reference_run, lemma_level, level_blend,
    leveled, reference_map, runnable, weights,
};
use crate::features::{
    law_masked_terms_are_zero, peak_terms, sum_terms, Body, FeatMode,
};
use crate::geometry::{law_row_has_one_strip, Level};
use crate::meaning::{law_weighted_error_in_reals, sum};
use crate::mirror::reflect;
use crate::reference::{law_sliding_blur_is_direct_blur, reference_planes, WINDOW_TAPS};
use crate::scalar::{lemma_exact_ratio, lemma_exact_units, Exact, Scalar};
use crate::ssim::{
    device_error, law_exact_errors_add_to_zero, reference_error, reference_errors, ssim_error,
};
use crate::upsample::{coarse_source, law_source_lies_in_map, lemma_rows_of_whole};
use crate::window::{Moments, PlanePair};

verus! {

/// The samples of a plane.
pub open spec fn samples(plane: Seq<Exact>) -> spec_fn(int) -> real {
    |i: int| plane[i].value@
}

/// The sums of the squares of the samples of two planes.
pub open spec fn squares(a: Seq<Exact>, b: Seq<Exact>) -> spec_fn(int) -> real {
    |i: int| a[i].value@ * a[i].value@ + b[i].value@ * b[i].value@
}

/// The products of the samples of two planes.
pub open spec fn products(a: Seq<Exact>, b: Seq<Exact>) -> spec_fn(int) -> real {
    |i: int| a[i].value@ * b[i].value@
}

/// What `f` gives along row `row`, from five columns left of `col` on; the columns go on by
/// reflection.
pub open spec fn along_row(
    width: int,
    row: int,
    col: int,
    f: spec_fn(int) -> real,
) -> spec_fn(int) -> real {
    |kx: int| f(row * width + reflect(col + kx - 5, width))
}

/// The sums of `f` over the eleven columns about `col`, row by row from five rows above `y` on;
/// the rows go on by reflection.
pub open spec fn down_rows(
    width: int,
    height: int,
    y: int,
    col: int,
    f: spec_fn(int) -> real,
) -> spec_fn(int) -> real {
    |ky: int| sum(11, along_row(width, reflect(y + ky - 5, height), col, f))
}

/// The sum of `f` over the square of eleven by eleven offsets about row `y`, column `col`.
pub open spec fn window_total(
    width: int,
    height: int,
    y: int,
    col: int,
    f: spec_fn(int) -> real,
) -> real {
    sum(11, down_rows(width, height, y, col, f))
}

proof fn lemma_row(pair: PlanePair<Exact>, start: Moments<Exact>, row: int, col: int, taps: nat)
    ensures
        ({
            let m = pair.direct_row::<Exact>(start, row, col, taps);
            let (w, s, d) = (pair.width, pair.src, pair.dst);
            &&& m.mu1.value@ == start.mu1.value@ + sum(taps, along_row(w, row, col, samples(s)))
            &&& m.mu2.value@ == start.mu2.value@ + sum(taps, along_row(w, row, col, samples(d)))
            &&& m.ssq.value@ == start.ssq.value@ + sum(taps, along_row(w, row, col, squares(s, d)))
            &&& m.s12.value@ == start.s12.value@ + sum(taps, along_row(w, row, col, products(s, d)))
        }),
    decreases taps,
{
    if taps > 0 {
        lemma_row(pair, start, row, col, (taps - 1) as nat);
    }
}

proof fn lemma_rows(pair: PlanePair<Exact>, y: int, col: int, rows: nat)
    ensures
        ({
            let m = pair.direct_window::<Exact>(y, col, rows);
            let (w, h, s, d) = (pair.width, pair.height, pair.src, pair.dst);
            &&& m.mu1.value@ == sum(rows, down_rows(w, h, y, col, samples(s)))
            &&& m.mu2.value@ == sum(rows, down_rows(w, h, y, col, samples(d)))
            &&& m.ssq.value@ == sum(rows, down_rows(w, h, y, col, squares(s, d)))
            &&& m.s12.value@ == sum(rows, down_rows(w, h, y, col, products(s, d)))
        }),
    decreases rows,
{
    lemma_exact_units();
    if rows > 0 {
        lemma_rows(pair, y, col, (rows - 1) as nat);
        lemma_row(
            pair,
            pair.direct_window::<Exact>(y, col, (rows - 1) as nat),
            reflect(y + (rows - 1) - 5, pair.height),
            col,
            11,
        );
    }
}

proof fn lemma_scaled_back(x: real, k: real)
    requires
        k * 121 as real == 1 as real,
    ensures
        (x * k) * 121 as real == x,
{
    assert((x * k) * 121 as real == x * (k * 121 as real)) by (nonlinear_arith);
    assert(x * 1 as real == x) by (nonlinear_arith);
}

/// The four moments are the averages, over the square of eleven by eleven pixels about row `y`,
/// column `col`, of the source, of the distorted image, of the sum of their squares and of their
/// product.
pub open spec fn is_window_mean(pair: PlanePair<Exact>, y: int, col: int, m: Moments<Exact>) -> bool {
    let (w, h, s, d) = (pair.width, pair.height, pair.src, pair.dst);
    &&& m.mu1.value@ * 121 as real == window_total(w, h, y, col, samples(s))
    &&& m.mu2.value@ * 121 as real == window_total(w, h, y, col, samples(d))
    &&& m.ssq.value@ * 121 as real == window_total(w, h, y, col, squares(s, d))
    &&& m.s12.value@ * 121 as real == window_total(w, h, y, col, products(s, d))
}

/// Before rounding, both the direct sum and the sliding window give the averages over the window
/// of a pixel, whatever row the window was started at.
pub proof fn law_moments_are_window_means(pair: PlanePair<Exact>, y_start: int, y: int, col: int)
    requires
        y_start <= y,
    ensures
        is_window_mean(pair, y, col, pair.direct_moments::<Exact>(y, col)),
        is_window_mean(pair, y, col, pair.window_moments(y_start, y, col)),
{
    law_sliding_blur_is_direct_blur(pair, y_start, y, col);
    lemma_rows(pair, y, col, 11);
    lemma_exact_ratio(1, WINDOW_TAPS);
    let k = Exact::spec_ratio(1, WINDOW_TAPS).value@;
    let total = pair.direct_window::<Exact>(y, col, 11);
    lemma_scaled_back(total.mu1.value@, k);
    lemma_scaled_back(total.mu2.value@, k);
    lemma_scaled_back(total.ssq.value@, k);
    lemma_scaled_back(total.s12.value@, k);
}

/// Before rounding, a blur kernel writes at the place of each pixel of each channel the averages
/// over its window, and leaves alone what lies between the channels.
pub proof fn law_blur_writes_window_means(
    before: Seq<Moments<Exact>>,
    src: &Channels<Exact>,
    dst: &Channels<Exact>,
    layout: Layout,
    channel: int,
    row: int,
    col: int,
)
    requires
        layout.valid(),
        before.len() == 3 * layout.pad_total,
        0 <= channel < 3,
        0 <= row < layout.height,
        0 <= col < layout.width,
    ensures
        ({
            let pair = PlanePair {
                src: if channel == 0 { src.a@ } else if channel == 1 { src.b@ } else { src.c@ },
                dst: if channel == 0 { dst.a@ } else if channel == 1 { dst.b@ } else { dst.c@ },
                width: layout.width as int,
                height: layout.height as int,
            };
            let i = channel * layout.pad_total + row * layout.width + col;
            is_window_mean(pair, row, col, blurred(before, src, dst, layout)[i])
        }),
        forall|i: int|
            0 <= i < before.len() && i % layout.pad_total as int >= layout.width * layout.height
                ==> #[trigger] blurred(before, src, dst, layout)[i] == before[i],
{
    let i = channel * layout.pad_total + row * layout.width + col;
    lemma_pixel_position(layout, channel, row, col);
    let (h, n) = (layout.height as int, layout.n_strips as int);
    assert(layout.window_start(row) <= row) by {
        law_row_has_one_strip(h, n, row);
    }
    law_moments_are_window_means(
        channel_pair(src, dst, layout, channel),
        layout.window_start(row),
        row,
        col,
    );
}

/// Before rounding, the reference has at the place of each pixel of each channel the averages
/// over its window.
pub proof fn law_reference_holds_window_means(
    src: &Channels<Exact>,
    dst: &Channels<Exact>,
    width: int,
    height: int,
    channel: int,
    row: int,
    col: int,
)
    requires
        0 <= channel < 3,
        0 <= row < height,
        0 <= col < width,
    ensures
        ({
            let pair = PlanePair {
                src: if channel == 0 { src.a@ } else if channel == 1 { src.b@ } else { src.c@ },
                dst: if channel == 0 { dst.a@ } else if channel == 1 { dst.b@ } else { dst.c@ },
                width,
                height,
            };
            let i = channel * (width * height) + row * width + col;
            is_window_mean(
                pair,
                row,
                col,
                reference_planes::<Exact, Exact>(src, dst, width, height)[i],
            )
        }),
        reference_planes::<Exact, Exact>(src, dst, width, height).len() == 3 * (width * height),
{
    let area = width * height;
    let local = row * width + col;
    let i = channel * area + local;
    assert(0 <= local < area) by (nonlinear_arith)
        requires
            0 <= row < height,
            0 <= col < width,
            local == row * width + col,
            area == width * height,
    ;
    lemma_fundamental_div_mod_converse(i, area, channel, local);
    lemma_fundamental_div_mod_converse(local, width, row, col);
    assert(0 <= i < 3 * area) by (nonlinear_arith)
        requires
            0 <= channel < 3,
            0 <= local < area,
            i == channel * area + local,
    ;
    let pair = PlanePair { src: src.of(channel), dst: dst.of(channel), width, height };
    law_moments_are_window_means(pair, row, row, col);
}

/// What row `y_start + r` adds to sum `t` of column `col`: its term where it is one of the rows
/// from `body.start` up to, and not with, `body.end`, and nothing elsewhere.
pub open spec fn counted_terms(
    pair: PlanePair<Exact>,
    body: Body,
    y_start: int,
    col: int,
    t: int,
) -> spec_fn(int) -> real {
    |r: int|
        if body.start <= y_start + r && y_start + r < body.end {
            sum_terms(
                pair.direct_moments::<Exact>(y_start + r, col),
                pair.src[(y_start + r) * pair.width + col],
                pair.dst[(y_start + r) * pair.width + col],
                true,
            )[t].value@
        } else {
            0 as real
        }
}

/// Before rounding, each sum of a column adds up the terms of its rows that count, whatever the
/// strip that they were computed in.
pub proof fn law_column_sum_adds_counted_terms(
    pair: PlanePair<Exact>,
    body: Body,
    y_start: int,
    y: int,
    col: int,
    t: int,
)
    requires
        y_start <= y,
        0 <= t < 17,
    ensures
        pair.column_sum::<Exact>(FeatMode::Full, body, y_start, y, col, t).value@ == sum(
            (y - y_start) as nat,
            counted_terms(pair, body, y_start, col, t),
        ),
    decreases y - y_start,
{
    lemma_exact_units();
    if y_start < y {
        let row = y - 1;
        law_column_sum_adds_counted_terms(pair, body, y_start, row, col, t);
        law_sliding_blur_is_direct_blur(pair, y_start, row, col);
        law_masked_terms_are_zero(
            pair.window_moments(y_start, row, col),
            pair.src[row * pair.width + col],
            pair.dst[row * pair.width + col],
            t,
        );
        assert(y_start + (y - y_start - 1) == row);
    }
}

/// Before rounding, the one sum of a column that the blur kernel with a sum keeps adds up the
/// blurred source over all its rows.
pub proof fn law_blur_sum_adds_blurred_source(
    pair: PlanePair<Exact>,
    body: Body,
    y_start: int,
    y: int,
    col: int,
)
    requires
        y_start <= y,
    ensures
        pair.column_sum::<Exact>(FeatMode::BlurF64, body, y_start, y, col, 0).value@ == sum(
            (y - y_start) as nat,
            |r: int| pair.direct_moments::<Exact>(y_start + r, col).mu1.value@,
        ),
    decreases y - y_start,
{
    lemma_exact_units();
    let f = |r: int| pair.direct_moments::<Exact>(y_start + r, col).mu1.value@;
    if y_start < y {
        law_blur_sum_adds_blurred_source(pair, body, y_start, y - 1, col);
        law_sliding_blur_is_direct_blur(pair, y_start, y - 1, col);
        assert(y_start + (y - y_start - 1) == y - 1);
        assert(f =~= |r: int| pair.direct_moments::<Exact>(y_start + r, col).mu1.value@);
    }
}

/// Term `t` of those whose peaks are kept, at row `row`, column `col`, as a row that counts has
/// it.
pub open spec fn peak_term(pair: PlanePair<Exact>, row: int, col: int, t: int) -> real {
    peak_terms(
        pair.direct_moments::<Exact>(row, col),
        pair.src[row * pair.width + col],
        pair.dst[row * pair.width + col],
        true,
    )[t].value@
}

/// Before rounding, each peak of a column is the largest of zero and the terms of its rows that
/// count.
pub proof fn law_column_peak_is_largest_counted_term(
    pair: PlanePair<Exact>,
    body: Body,
    y_start: int,
    y: int,
    col: int,
    t: int,
)
    requires
        0 <= t < 3,
    ensures
        ({
            let peak = pair.column_peak(FeatMode::Full, body, y_start, y, col, t).value@;
            &&& peak >= 0 as real
            &&& forall|row: int|
                y_start <= row < y && body.start <= row && row < body.end
                    ==> #[trigger] peak_term(pair, row, col, t) <= peak
            &&& peak == 0 as real || exists|row: int|
                y_start <= row < y && body.start <= row && row < body.end
                    && #[trigger] peak_term(pair, row, col, t) == peak
        }),
    decreases y - y_start,
{
    lemma_exact_units();
    if y_start < y {
        let row = y - 1;
        law_column_peak_is_largest_counted_term(pair, body, y_start, row, col, t);
        law_sliding_blur_is_direct_blur(pair, y_start, row, col);
        law_masked_terms_are_zero(
            pair.window_moments(y_start, row, col),
            pair.src[row * pair.width + col],
            pair.dst[row * pair.width + col],
            t,
        );
        let so_far = pair.column_peak(FeatMode::Full, body, y_start, row, col, t).value@;
        let peak = pair.column_peak(FeatMode::Full, body, y_start, y, col, t).value@;
        let term = pair.peak_terms_at(FeatMode::Full, body, y_start, row, col)[t].value@;
        if body.start <= row && row < body.end {
            assert(term == peak_term(pair, row, col, t));
        } else {
            assert(term == 0 as real);
            assert(peak == so_far);
        }
        if peak == so_far && peak != 0 as real {
            let r = choose|r: int|
                y_start <= r < row && body.start <= r && r < body.end && #[trigger] peak_term(
                    pair,
                    r,
                    col,
                    t,
                ) == so_far;
            assert(peak_term(pair, r, col, t) == peak);
        }
    }
}

/// The offset, on level `s` of a plan, of the sample that stands for column `x`, row `y` of the
/// first level: both are halved `s` times, and held to the size of the level.
pub open spec fn standing_for(level: Level, s: nat, x: int, y: int) -> int {
    let (sx, sy) = (x / pow2(s) as int, y / pow2(s) as int);
    (if sy < level.height {
        sy
    } else {
        level.height - 1
    }) * level.width + (if sx < level.width {
        sx
    } else {
        level.width - 1
    })
}

/// The errors of the three channels at offset `i` of a level, added up.
pub open spec fn three_errors(planes: Seq<Moments<Exact>>, area: int, i: int) -> real {
    ssim_error(planes[i]).value@ + ssim_error(planes[i + area]).value@ + ssim_error(
        planes[i + 2 * area],
    ).value@
}

/// The errors that stand for column `x`, row `y` of the first level, level by level.
pub open spec fn errors_standing_for(
    plan: Seq<Level>,
    planes: Seq<Seq<Moments<Exact>>>,
    x: int,
    y: int,
) -> spec_fn(int) -> real {
    |s: int|
        three_errors(
            planes[s],
            plan[s].width * plan[s].height,
            standing_for(plan[s], s as nat, x, y),
        )
}

/// A share of what is added, out of `n` levels and three channels.
proof fn lemma_share(p: real, blend: real, third: real, e: real, total: real, n: real)
    requires
        blend * n == 1 as real,
        third * 3 as real == 1 as real,
        e == third * total,
    ensures
        (p + blend * e) * (3 as real * n) == p * (3 as real * n) + total,
{
    let q = 3 as real * n;
    let be = blend * e;
    assert((p + be) * q == p * q + be * q) by (nonlinear_arith);
    assert(be * q == (blend * n) * (3 as real * e)) by (nonlinear_arith)
        requires
            be == blend * e,
            q == 3 as real * n,
    ;
    assert(3 as real * e == (third * 3 as real) * total) by (nonlinear_arith)
        requires
            e == third * total,
    ;
    assert(1 as real * (3 as real * e) == 3 as real * e) by (nonlinear_arith);
    assert(1 as real * total == total) by (nonlinear_arith);
}

proof fn lemma_third_of_each(third: real, a: real, b: real, c: real)
    ensures
        third * a + third * b + third * c == third * (a + b + c),
{
    assert(third * (a + b + c) == third * a + third * b + third * c) by (nonlinear_arith);
}

/// Before rounding, the map is an average: over all the levels, and on each over the three
/// channels, of the errors at the sample that stands for the pixel. After the first `levels`
/// levels it holds their share of it.
pub proof fn law_map_averages_errors(
    plan: Seq<Level>,
    planes: Seq<Seq<Moments<Exact>>>,
    levels: nat,
    x: int,
    y: int,
)
    requires
        leveled(plan),
        levels <= plan.len(),
        0 <= x < plan[0].width,
        0 <= y < plan[0].height,
    ensures
        reference_map(plan, planes, levels).len() == plan[0].width * plan[0].height,
        reference_map(plan, planes, levels)[y * plan[0].width + x].value@ * (3 as real
            * plan.len() as real) == sum(levels, errors_standing_for(plan, planes, x, y)),
        device_map(plan, planes, levels) == reference_map(plan, planes, levels),
    decreases levels,
{
    let (w0, h0) = (plan[0].width as int, plan[0].height as int);
    let i = y * w0 + x;
    let n = plan.len() as real;
    law_exact_errors_add_to_zero(weights::<Exact>()[0]);
    law_device_map_is_reference_map(plan, planes, levels);
    assert(0 <= i < w0 * h0) by (nonlinear_arith)
        requires
            0 <= x < w0,
            0 <= y < h0,
            i == y * w0 + x,
    ;
    lemma_exact_units();
    if levels == 0 {
        assert(0 as real * (3 as real * n) == 0 as real) by (nonlinear_arith);
    } else {
        let s = levels - 1;
        law_map_averages_errors(plan, planes, s as nat, x, y);
        lemma_level(plan, s);
        let (w, h) = (plan[s].width as int, plan[s].height as int);
        let area = w * h;
        let errors = reference_errors(planes[s], area, area, weights());
        lemma_rows_of_whole(w, h);
        law_source_lies_in_map(i, w, h, w0, s as nat);
        lemma_fundamental_div_mod_converse(i, w0, y, x);
        let at = standing_for(plan[s], s as nat, x, y);
        assert(coarse_source(i, w, h, w0, s as nat) == at);
        let (blend, third) = (level_blend::<Exact>(plan).value@, weights::<Exact>()[0].value@);
        lemma_exact_ratio(1, plan.len() as u32);
        lemma_exact_ratio(1, 3);
        let e = errors[at].value@;
        law_weighted_error_in_reals(planes[s], area, weights(), at);
        lemma_third_of_each(
            third,
            ssim_error(planes[s][at]).value@,
            ssim_error(planes[s][at + area]).value@,
            ssim_error(planes[s][at + 2 * area]).value@,
        );
        let total = three_errors(planes[s], area, at);
        assert(e == third * total);
        let before = reference_map(plan, planes, s as nat)[i].value@;
        lemma_share(before, blend, third, e, total, n);
        assert(reference_map(plan, planes, levels)[i].value@ == before + blend * e);
    }
}

/// Before rounding, the kernels and the reference have, on each level of an image, at the place
/// of each pixel of each channel, the averages over the window of that pixel on that level of
/// that image.
pub proof fn law_levels_hold_window_means(
    plan: Seq<Level>,
    src: Seq<Channels<Exact>>,
    dst: Seq<Channels<Exact>>,
    s: int,
    channel: int,
    row: int,
    col: int,
)
    requires
        runnable(plan),
        images_fit(plan, src),
        images_fit(plan, dst),
        0 <= s < plan.len(),
        0 <= channel < 3,
        0 <= row < plan[s].height,
        0 <= col < plan[s].width,
    ensures
        ({
            let (from, to) = (src[s], dst[s]);
            let (w, h) = (plan[s].width as int, plan[s].height as int);
            let pair = PlanePair {
                src: if channel == 0 { from.a@ } else if channel == 1 { from.b@ } else { from.c@ },
                dst: if channel == 0 { to.a@ } else if channel == 1 { to.b@ } else { to.c@ },
                width: w,
                height: h,
            };
            let i = channel * (w * h) + row * w + col;
            &&& is_window_mean(pair, row, col, all_device_planes(plan, src, dst)[s][i])
            &&& is_window_mean(
                pair,
                row,
                col,
                all_reference_planes::<Exact, Exact>(plan, src, dst)[s][i],
            )
        }),
{
    law_device_run_is_reference_run(plan, src, dst);
    law_reference_holds_window_means(
        &src[s],
        &dst[s],
        plan[s].width as int,
        plan[s].height as int,
        channel,
        row,
        col,
    );
}

/// Bit for bit, the map starts from zeros and takes the levels from the first on: each adds, to
/// what a pixel has, its weighted error at the sample that stands for the pixel, times one over
/// the number of levels; a channel weighs a third.
pub proof fn law_map_takes_levels_in_order<F: Scalar>(
    plan: Seq<Level>,
    planes: Seq<Seq<Moments<F>>>,
    levels: nat,
    x: int,
    y: int,
)
    requires
        leveled(plan),
        0 < levels <= plan.len(),
        0 <= x < plan[0].width,
        0 <= y < plan[0].height,
    ensures
        ({
            let s = levels - 1;
            let area = plan[s].width * plan[s].height;
            let third = F::spec_ratio(1, 3);
            let i = y * plan[0].width + x;
            let at = standing_for(plan[s], s as nat, x, y);
            let blend = F::spec_ratio(1, plan.len() as u32);
            let w = seq![third, third, third];
            &&& reference_map(plan, planes, 0)[i] == F::spec_ratio(0, 1)
            &&& device_map(plan, planes, 0)[i] == F::spec_ratio(0, 1)
            &&& reference_map(plan, planes, levels)[i] == reference_map(
                plan,
                planes,
                s as nat,
            )[i].spec_plus(blend.spec_times(reference_error(planes[s], area, w, at)))
            &&& device_map(plan, planes, levels)[i] == device_map(
                plan,
                planes,
                s as nat,
            )[i].spec_plus(blend.spec_times(device_error(planes[s], area, w, at)))
        }),
{
    let s = levels - 1;
    let (w0, h0) = (plan[0].width as int, plan[0].height as int);
    let i = y * w0 + x;
    assert(0 <= i < w0 * h0) by (nonlinear_arith)
        requires
            0 <= x < w0,
            0 <= y < h0,
            i == y * w0 + x,
    ;
    lemma_map_sizes(plan, planes, s as nat);
    lemma_map_sizes(plan, planes, levels);
    lemma_level(plan, s);
    let (w, h) = (plan[s].width as int, plan[s].height as int);
    lemma_rows_of_whole(w, h);
    law_source_lies_in_map(i, w, h, w0, s as nat);
    lemma_fundamental_div_mod_converse(i, w0, y, x);
    let third = F::spec_ratio(1, 3);
    assert(weights::<F>() == seq![third, third, third]);
    assert(coarse_source(i, w, h, w0, s as nat) == standing_for(plan[s], s as nat, x, y));
}

/// A map has a sample for every pixel of the first level.
proof fn lemma_map_sizes<F: Scalar>(
    plan: Seq<Level>,
    planes: Seq<Seq<Moments<F>>>,
    levels: nat,
)
    ensures
        reference_map(plan, planes, levels).len() == plan[0].width * plan[0].height,
        device_map(plan, planes, levels).len() == plan[0].width * plan[0].height,
    decreases levels,
{
    if levels > 0 {
        lemma_map_sizes(plan, planes, (levels - 1) as nat);
    } else {
        let (w, h) = (plan[0].width as int, plan[0].height as int);
        assert(0 <= w * h) by (nonlinear_arith)
            requires
                0 <= w,
                0 <= h,
        ;
    }
}

} // verus!
