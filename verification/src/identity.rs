//! What the error map says before rounding: nothing of an image against itself, and the
//! same whichever of two images is called the source.
use vstd::arithmetic::div_mod::{lemma_fundamental_div_mod, lemma_mod_bound};
use vstd::prelude::*;

use crate::blur::Channels;
use crate::diffmap::{
    all_device_planes, all_reference_planes, device_map, images_fit,
    law_device_run_is_reference_run, lemma_level, level_blend, leveled, reference_map, runnable, weights,
};
use crate::geometry::{Level, CHANNELS, DIAM, R};
use crate::mirror::{law_reflect_in_range, reflect};
use crate::reference::{plane_pair, reference_planes, WINDOW_TAPS};
use crate::scalar::{exact, lemma_exact_ratio, lemma_exact_units, Exact, Scalar, Wide};
use crate::ssim::{reference_error, reference_errors, ssim_error};
use crate::upsample::{coarse_source, law_source_lies_in_map, lemma_rows_of_whole, rows_of};
use crate::window::{lemma_offset_in_plane, Moments, PlanePair};

verus! {

/// The sum of the squared distances from `x` of `n` samples with the sum `mu1` and the
/// sum of squares `s12`.
pub open spec fn spread(m: Moments<Exact>, n: real, x: real) -> real {
    m.s12.value@ - (m.mu1.value@ * x + m.mu1.value@ * x) + n * (x * x)
}

/// What sums of samples of a plane against itself keep: the two sums are one, the squares
/// are twice the products, and no spread is negative.
pub open spec fn self_sums(m: Moments<Exact>, n: real, x: real) -> bool {
    &&& m.mu1 == m.mu2
    &&& m.ssq.value@ == m.s12.value@ + m.s12.value@
    &&& spread(m, n, x) >= 0 as real
}

proof fn lemma_distribute(a: real, b: real, k: real)
    ensures
        (a + b) * k == a * k + b * k,
{
    assert((a + b) * k == a * k + b * k) by (nonlinear_arith);
}

proof fn lemma_square_of_difference(v: real, x: real)
    ensures
        v * v - (v * x + v * x) + x * x >= 0 as real,
{
    let d = v - x;
    assert(d * d >= 0 as real) by (nonlinear_arith);
    assert((v - x) * (v - x) == v * v - (v * x + v * x) + x * x) by (nonlinear_arith);
}

/// One sample more, against itself.
proof fn lemma_self_sums_step(m: Moments<Exact>, sample: Exact, n: real, x: real)
    requires
        self_sums(m, n, x),
    ensures
        self_sums(m.spec_summed(sample, sample), n + 1 as real, x),
{
    let v = sample.value@;
    lemma_square_of_difference(v, x);
    lemma_distribute(m.mu1.value@, v, x);
    lemma_distribute(n, 1 as real, x * x);
    assert(1 as real * (x * x) == x * x);
}

proof fn lemma_self_row(
    pair: PlanePair<Exact>,
    start: Moments<Exact>,
    n: real,
    x: real,
    row: int,
    col: int,
    taps: nat,
)
    requires
        pair.src == pair.dst,
        self_sums(start, n, x),
    ensures
        self_sums(pair.direct_row::<Exact>(start, row, col, taps), n + taps as real, x),
    decreases taps,
{
    if taps > 0 {
        let t = (taps - 1) as nat;
        lemma_self_row(pair, start, n, x, row, col, t);
        let at = pair.offset(row, col + taps - 1 - R);
        lemma_self_sums_step(
            pair.direct_row::<Exact>(start, row, col, t),
            pair.src[at],
            n + t as real,
            x,
        );
        assert(n + t as real + 1 as real == n + taps as real);
    }
}

proof fn lemma_self_window(pair: PlanePair<Exact>, x: real, y: int, col: int, rows: nat)
    requires
        pair.src == pair.dst,
    ensures
        self_sums(pair.direct_window::<Exact>(y, col, rows), (rows * DIAM) as real, x),
    decreases rows,
{
    if rows == 0 {
        lemma_exact_units();
        assert(0 as real * x == 0 as real);
        assert(0 as real * (x * x) == 0 as real);
    } else {
        let r = (rows - 1) as nat;
        lemma_self_window(pair, x, y, col, r);
        lemma_self_row(
            pair,
            pair.direct_window::<Exact>(y, col, r),
            (r * DIAM) as real,
            x,
            reflect(y + rows - 1 - R, pair.height),
            col,
            DIAM as nat,
        );
        assert((r * DIAM) as real + DIAM as nat as real == (rows * DIAM) as real);
    }
}

/// The mean of a window of a plane against itself: its mean square is no less than the
/// square of its mean.
proof fn lemma_self_mean(pair: PlanePair<Exact>, y: int, col: int)
    requires
        pair.src == pair.dst,
    ensures
        ({
            let m = pair.direct_moments::<Exact>(y, col);
            &&& m.mu1 == m.mu2
            &&& m.ssq.value@ == m.s12.value@ + m.s12.value@
            &&& m.s12.value@ - m.mu1.value@ * m.mu1.value@ >= 0 as real
        }),
{
    let total = pair.direct_window::<Exact>(y, col, DIAM as nat);
    let inv = Exact::spec_ratio(1, WINDOW_TAPS).value@;
    let (s, q) = (total.mu1.value@, total.s12.value@);
    let mu = s * inv;
    lemma_self_window(pair, mu, y, col, DIAM as nat);
    lemma_exact_ratio(1, WINDOW_TAPS);
    assert(inv * 121 as real == 1 as real);
    assert((s * inv) * 121 as real == s * (inv * 121 as real)) by (nonlinear_arith);
    assert(s * 1 as real == s);
    assert(s == 121 as real * mu);
    assert((121 as real * mu) * mu == 121 as real * (mu * mu)) by (nonlinear_arith);
    assert(spread(total, 121 as real, mu) == q - 121 as real * (mu * mu));
    let rest = q - 121 as real * (mu * mu);
    assert(inv * rest >= 0 as real) by (nonlinear_arith)
        requires
            inv > 0 as real,
            rest >= 0 as real,
    ;
    let square = mu * mu;
    assert(inv * (q - 121 as real * square) == q * inv - (inv * 121 as real) * square)
        by (nonlinear_arith);
    assert(1 as real * square == square);
    lemma_distribute(q, q, inv);
}

/// The error of moments whose means are one, whose squares are twice their products, and
/// whose mean square is no less than the square of their mean, is zero.
proof fn lemma_self_error(m: Moments<Exact>)
    requires
        m.mu1 == m.mu2,
        m.ssq.value@ == m.s12.value@ + m.s12.value@,
        m.s12.value@ - m.mu1.value@ * m.mu1.value@ >= 0 as real,
    ensures
        ssim_error(m) == exact(0 as real),
{
    lemma_exact_ratio(9, 10000);
    lemma_exact_ratio(2, 1);
    lemma_exact_units();
    let c2 = Exact::spec_ratio(9, 10000).value@;
    let two = Exact::spec_ratio(2, 1).value@;
    let (mu, p, ssq) = (m.mu1.value@, m.s12.value@, m.ssq.value@);
    assert(two == 2 as real);
    assert(c2 > 0 as real);
    assert((-mu) * mu == -(mu * mu)) by (nonlinear_arith);
    let cov = (-mu) * mu + p;
    assert(two * cov == cov + cov);
    let denom = (-mu) * mu + ((-mu) * mu + ssq) + c2;
    assert(denom == two * cov + c2);
    assert(denom > 0 as real);
    let none = mu - mu;
    assert(none * (-none) == 0 as real) by (nonlinear_arith)
        requires
            none == 0 as real,
    ;
    assert(1 as real * denom == denom);
    assert(denom / denom == 1 as real) by (nonlinear_arith)
        requires
            denom > 0 as real,
    ;
}

/// Before rounding, a plane has no error against itself.
pub proof fn law_plane_has_no_error_against_itself(pair: PlanePair<Exact>, y: int, col: int)
    requires
        pair.src == pair.dst,
    ensures
        ssim_error(pair.direct_moments::<Exact>(y, col)) == exact(0 as real),
{
    lemma_self_mean(pair, y, col);
    lemma_self_error(pair.direct_moments::<Exact>(y, col));
}

/// Two sets of planes hold the same samples.
pub open spec fn same_image(src: &Channels<Exact>, dst: &Channels<Exact>) -> bool {
    src.a@ == dst.a@ && src.b@ == dst.b@ && src.c@ == dst.c@
}

/// Before rounding, the weighted error of an image against itself is zero everywhere.
proof fn lemma_self_errors(src: &Channels<Exact>, dst: &Channels<Exact>, level: Level, idx: int)
    requires
        same_image(src, dst),
        0 <= idx < level.area(),
    ensures
        ({
            let (w, h) = (level.width as int, level.height as int);
            let planes = reference_planes::<Exact, Exact>(src, dst, w, h);
            reference_error(planes, level.area(), weights(), idx) == exact(0 as real)
        }),
{
    let (w, h) = (level.width as int, level.height as int);
    let area = level.area();
    let planes = reference_planes::<Exact, Exact>(src, dst, w, h);
    assert forall|i: int| 0 <= i < CHANNELS * area implies ssim_error(#[trigger] planes[i]) == exact(
        0 as real,
    ) by {
        law_plane_has_no_error_against_itself(
            plane_pair(src, dst, w, h, i / area),
            (i % area) / w,
            (i % area) % w,
        );
    }
    lemma_exact_units();
    let third = Exact::spec_ratio(1, 3).value@;
    assert(third * 0 as real == 0 as real);
    assert(ssim_error(planes[idx]) == exact(0 as real));
    assert(ssim_error(planes[idx + area]) == exact(0 as real));
    assert(ssim_error(planes[idx + 2 * area]) == exact(0 as real));
}

proof fn lemma_self_map(
    plan: Seq<Level>,
    src: Seq<Channels<Exact>>,
    dst: Seq<Channels<Exact>>,
    levels: nat,
)
    requires
        leveled(plan),
        levels <= plan.len(),
        forall|s: int| 0 <= s < plan.len() ==> #[trigger] same_image(&src[s], &dst[s]),
    ensures
        reference_map(plan, all_reference_planes::<Exact, Exact>(plan, src, dst), levels)
            == Seq::new(plan[0].area() as nat, |i: int| exact(0 as real)),
    decreases levels,
{
    let planes = all_reference_planes::<Exact, Exact>(plan, src, dst);
    let none = Seq::new(plan[0].area() as nat, |i: int| exact(0 as real));
    lemma_exact_units();
    if levels == 0 {
        assert(reference_map(plan, planes, levels) =~= none);
    } else {
        let s = levels - 1;
        lemma_self_map(plan, src, dst, s as nat);
        lemma_level(plan, s);
        lemma_level(plan, 0);
        assert(same_image(&src[s], &dst[s]));
        let (area, w) = (plan[s].area(), plan[s].width as int);
        let errors = reference_errors(planes[s], area, area, weights());
        let map = reference_map(plan, planes, levels);
        assert forall|i: int| 0 <= i < plan[0].area() implies #[trigger] map[i] == exact(
            0 as real,
        ) by {
            let at = coarse_source(i, w, rows_of(area, w), plan[0].width as int, s as nat);
            lemma_rows_of_whole(w, plan[s].height as int);
            law_source_lies_in_map(i, w, plan[s].height as int, plan[0].width as int, s as nat);
            lemma_self_errors(&src[s], &dst[s], plan[s], at);
            assert(errors[at] == exact(0 as real));
            let blend = level_blend::<Exact>(plan).value@;
            assert(blend * 0 as real == 0 as real);
        }
        assert(map =~= none);
    }
}

/// Before rounding, the map of an image against itself is zero, on the host and on the
/// device.
pub proof fn law_image_has_no_error_against_itself(
    plan: Seq<Level>,
    src: Seq<Channels<Exact>>,
    dst: Seq<Channels<Exact>>,
)
    requires
        runnable(plan),
        images_fit(plan, src),
        images_fit(plan, dst),
        forall|s: int| 0 <= s < plan.len() ==> #[trigger] same_image(&src[s], &dst[s]),
    ensures
        reference_map(plan, all_reference_planes::<Exact, Exact>(plan, src, dst), plan.len())
            == Seq::new(plan[0].area() as nat, |i: int| exact(0 as real)),
        device_map(plan, all_device_planes(plan, src, dst), plan.len()) == Seq::new(
            plan[0].area() as nat,
            |i: int| exact(0 as real),
        ),
{
    lemma_self_map(plan, src, dst, plan.len());
    law_device_run_is_reference_run(plan, src, dst);
}

/// The moments with the source and the distorted image exchanged.
pub open spec fn exchanged<F: Scalar>(m: Moments<F>) -> Moments<F> {
    Moments { mu1: m.mu2, mu2: m.mu1, ssq: m.ssq, s12: m.s12 }
}

/// The planes with the source and the distorted image exchanged.
pub open spec fn exchanged_pair<F: Scalar>(pair: PlanePair<F>) -> PlanePair<F> {
    PlanePair { src: pair.dst, dst: pair.src, width: pair.width, height: pair.height }
}

/// Before rounding, the error is the same whichever image is called the source.
pub proof fn law_error_is_symmetric(m: Moments<Exact>)
    ensures
        ssim_error(exchanged(m)) == ssim_error(m),
{
    let (a, b) = (m.mu1.value@, m.mu2.value@);
    let (d, e) = (a - b, b - a);
    assert(d * (-d) == e * (-e)) by (nonlinear_arith)
        requires
            e == -d,
    ;
    assert((-a) * b == (-b) * a) by (nonlinear_arith);
}

/// Neither the product of two samples nor the sum of their squares depends on their order.
/// So it is of all numbers in IEEE arithmetic.
pub open spec fn exchangeable<A: Scalar>(s: A, d: A) -> bool {
    &&& s.spec_times(d) == d.spec_times(s)
    &&& s.spec_times(s).spec_plus(d.spec_times(d)) == d.spec_times(d).spec_plus(s.spec_times(s))
}

/// The samples of a source plane and a distorted plane, widened, are exchangeable.
pub open spec fn exchangeable_planes<F: Scalar, A: Wide<F>>(pair: PlanePair<F>) -> bool {
    forall|i: int|
        0 <= i < pair.width * pair.height ==> #[trigger] exchangeable::<A>(
            A::spec_widen(pair.src[i]),
            A::spec_widen(pair.dst[i]),
        )
}

/// Before rounding, any two samples are exchangeable.
proof fn lemma_exact_exchangeable(s: Exact, d: Exact)
    ensures
        exchangeable(s, d),
{
    let (x, y) = (s.value@, d.value@);
    assert(x * y == y * x) by (nonlinear_arith);
}

proof fn lemma_exchanged_row<F: Scalar, A: Wide<F>>(
    pair: PlanePair<F>,
    start: Moments<A>,
    row: int,
    col: int,
    taps: nat,
)
    requires
        exchangeable_planes::<F, A>(pair),
        2 <= pair.width,
        0 <= row < pair.height,
    ensures
        exchanged_pair(pair).direct_row::<A>(exchanged(start), row, col, taps) == exchanged(
            pair.direct_row::<A>(start, row, col, taps),
        ),
    decreases taps,
{
    if taps > 0 {
        lemma_exchanged_row::<F, A>(pair, start, row, col, (taps - 1) as nat);
        let at = pair.offset(row, col + taps - 1 - R);
        lemma_offset_in_plane(pair, row, col + taps - 1 - R);
        assert(exchanged_pair(pair).offset(row, col + taps - 1 - R) == at);
        assert(exchangeable::<A>(A::spec_widen(pair.src[at]), A::spec_widen(pair.dst[at])));
    }
}

proof fn lemma_exchanged_window<F: Scalar, A: Wide<F>>(
    pair: PlanePair<F>,
    y: int,
    col: int,
    rows: nat,
)
    requires
        exchangeable_planes::<F, A>(pair),
        2 <= pair.width,
        2 <= pair.height,
    ensures
        exchanged_pair(pair).direct_window::<A>(y, col, rows) == exchanged(
            pair.direct_window::<A>(y, col, rows),
        ),
    decreases rows,
{
    if rows > 0 {
        lemma_exchanged_window::<F, A>(pair, y, col, (rows - 1) as nat);
        law_reflect_in_range(y + rows - 1 - R, pair.height);
        lemma_exchanged_row::<F, A>(
            pair,
            pair.direct_window::<A>(y, col, (rows - 1) as nat),
            reflect(y + rows - 1 - R, pair.height),
            col,
            DIAM as nat,
        );
    }
}

/// Bit for bit, exchanging the images exchanges the means of the reference planes and leaves
/// the other two moments alone, provided that the samples are exchangeable.
pub proof fn law_exchanging_images_exchanges_means<F: Scalar, A: Wide<F>>(
    src: &Channels<F>,
    dst: &Channels<F>,
    width: int,
    height: int,
)
    requires
        2 <= width,
        2 <= height,
        forall|c: int|
            0 <= c < CHANNELS ==> exchangeable_planes::<F, A>(
                #[trigger] plane_pair(src, dst, width, height, c),
            ),
    ensures
        reference_planes::<F, A>(dst, src, width, height) == Seq::new(
            reference_planes::<F, A>(src, dst, width, height).len(),
            |i: int| exchanged(reference_planes::<F, A>(src, dst, width, height)[i]),
        ),
{
    let area = width * height;
    assert(0 < area) by (nonlinear_arith)
        requires
            2 <= width,
            2 <= height,
            area == width * height,
    ;
    let there = reference_planes::<F, A>(src, dst, width, height);
    let back = reference_planes::<F, A>(dst, src, width, height);
    assert forall|i: int| 0 <= i < CHANNELS * area implies #[trigger] back[i] == exchanged(
        there[i],
    ) by {
        let c = i / area;
        lemma_fundamental_div_mod(i, area);
        lemma_mod_bound(i, area);
        assert(0 <= c < CHANNELS) by (nonlinear_arith)
            requires
                i == area * c + i % area,
                0 <= i % area < area,
                0 <= i < CHANNELS * area,
        ;
        let pair = plane_pair(src, dst, width, height, c);
        assert(plane_pair(dst, src, width, height, c) == exchanged_pair(pair));
        lemma_exchanged_window::<F, A>(
            pair,
            (i % area) / width,
            (i % area) % width,
            DIAM as nat,
        );
    }
    assert(back =~= Seq::new(there.len(), |i: int| exchanged(there[i])));
}

proof fn lemma_exchanged_errors(
    src: &Channels<Exact>,
    dst: &Channels<Exact>,
    level: Level,
)
    requires
        2 <= level.width,
        2 <= level.height,
    ensures
        ({
            let (w, h) = (level.width as int, level.height as int);
            let area = level.area();
            reference_errors(
                reference_planes::<Exact, Exact>(dst, src, w, h),
                area,
                area,
                weights(),
            ) == reference_errors(
                reference_planes::<Exact, Exact>(src, dst, w, h),
                area,
                area,
                weights(),
            )
        }),
{
    let (w, h) = (level.width as int, level.height as int);
    let area = level.area();
    let there = reference_planes::<Exact, Exact>(src, dst, w, h);
    let back = reference_planes::<Exact, Exact>(dst, src, w, h);
    assert forall|c: int| 0 <= c < CHANNELS implies exchangeable_planes::<Exact, Exact>(
        #[trigger] plane_pair(src, dst, w, h, c),
    ) by {
        let pair = plane_pair(src, dst, w, h, c);
        assert forall|i: int| 0 <= i < w * h implies #[trigger] exchangeable::<Exact>(
            Exact::spec_widen(pair.src[i]),
            Exact::spec_widen(pair.dst[i]),
        ) by {
            lemma_exact_exchangeable(pair.src[i], pair.dst[i]);
        }
    }
    law_exchanging_images_exchanges_means::<Exact, Exact>(src, dst, w, h);
    assert forall|i: int| 0 <= i < CHANNELS * area implies ssim_error(#[trigger] back[i])
        == ssim_error(there[i]) by {
        assert(back[i] == exchanged(there[i]));
        law_error_is_symmetric(there[i]);
    }
    assert forall|idx: int| 0 <= idx < area implies #[trigger] reference_error(
        back,
        area,
        weights(),
        idx,
    ) == reference_error(there, area, weights(), idx) by {
        assert(ssim_error(back[idx]) == ssim_error(there[idx]));
        assert(ssim_error(back[idx + area]) == ssim_error(there[idx + area]));
        assert(ssim_error(back[idx + 2 * area]) == ssim_error(there[idx + 2 * area]));
    }
    assert(reference_errors(back, area, area, weights()) =~= reference_errors(
        there,
        area,
        area,
        weights(),
    ));
}

proof fn lemma_exchanged_map(
    plan: Seq<Level>,
    src: Seq<Channels<Exact>>,
    dst: Seq<Channels<Exact>>,
    levels: nat,
)
    requires
        leveled(plan),
        levels <= plan.len(),
    ensures
        reference_map(plan, all_reference_planes::<Exact, Exact>(plan, dst, src), levels)
            == reference_map(plan, all_reference_planes::<Exact, Exact>(plan, src, dst), levels),
    decreases levels,
{
    if levels > 0 {
        let s = levels - 1;
        lemma_level(plan, s);
        lemma_exchanged_map(plan, src, dst, s as nat);
        lemma_exchanged_errors(&src[s], &dst[s], plan[s]);
    }
}

/// Before rounding, the map is the same whichever image is called the source, on the host
/// and on the device.
pub proof fn law_map_is_symmetric(
    plan: Seq<Level>,
    src: Seq<Channels<Exact>>,
    dst: Seq<Channels<Exact>>,
)
    requires
        runnable(plan),
        images_fit(plan, src),
        images_fit(plan, dst),
    ensures
        reference_map(plan, all_reference_planes::<Exact, Exact>(plan, dst, src), plan.len())
            == reference_map(
            plan,
            all_reference_planes::<Exact, Exact>(plan, src, dst),
            plan.len(),
        ),
        device_map(plan, all_device_planes(plan, dst, src), plan.len()) == device_map(
            plan,
            all_device_planes(plan, src, dst),
            plan.len(),
        ),
{
    lemma_exchanged_map(plan, src, dst, plan.len());
    law_device_run_is_reference_run(plan, src, dst);
    law_device_run_is_reference_run(plan, dst, src);
}

} // verus!
