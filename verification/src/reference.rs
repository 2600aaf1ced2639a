//! The moment planes by direct summation: at each pixel, all the taps of its window.
//! What the sliding kernels are held against.
use vstd::arithmetic::div_mod::lemma_fundamental_div_mod_converse;
use vstd::prelude::*;

use crate::blur::{blurred, channel_pair, lemma_pixel_offset, Channels, Layout};
use crate::geometry::{law_row_has_one_strip, CHANNELS, DIAM, R};
use crate::mirror::{mirror_idx, reflect};
use crate::scalar::{lemma_exact_ratio, lemma_exact_units, Exact, Scalar, Wide};
use crate::ssim::Planes;
use crate::window::{inv_diam, lemma_offset_in_plane, Moments, PlanePair};

verus! {

/// Taps of a window.
pub const WINDOW_TAPS: u32 = 121;

impl<A: Scalar> Moments<A> {
    /// One pair of samples more, by products that are rounded before they are added.
    pub open spec fn spec_summed(self, s: A, d: A) -> Self {
        Moments {
            mu1: self.mu1.spec_plus(s),
            mu2: self.mu2.spec_plus(d),
            ssq: self.ssq.spec_plus(s.spec_times(s).spec_plus(d.spec_times(d))),
            s12: self.s12.spec_plus(s.spec_times(d)),
        }
    }

    fn summed(self, s: A, d: A) -> (r: Self)
        ensures
            r == self.spec_summed(s, d),
    {
        Moments {
            mu1: self.mu1.plus(s),
            mu2: self.mu2.plus(d),
            ssq: self.ssq.plus(s.times(s).plus(d.times(d))),
            s12: self.s12.plus(s.times(d)),
        }
    }
}

/// Each moment rounded to the narrower type.
pub open spec fn narrowed<F: Scalar, A: Wide<F>>(m: Moments<A>) -> Moments<F> {
    Moments {
        mu1: m.mu1.spec_narrow(),
        mu2: m.mu2.spec_narrow(),
        ssq: m.ssq.spec_narrow(),
        s12: m.s12.spec_narrow(),
    }
}

impl<F: Scalar> PlanePair<F> {
    /// `start` and the first `taps` taps of row `row` of the window of column `col`.
    pub open spec fn direct_row<A: Wide<F>>(
        self,
        start: Moments<A>,
        row: int,
        col: int,
        taps: nat,
    ) -> Moments<A>
        decreases taps,
    {
        if taps == 0 {
            start
        } else {
            let at = self.offset(row, col + taps - 1 - R);
            self.direct_row(start, row, col, (taps - 1) as nat).spec_summed(
                A::spec_widen(self.src[at]),
                A::spec_widen(self.dst[at]),
            )
        }
    }

    /// The first `rows` rows of the window of row `y`, column `col`.
    pub open spec fn direct_window<A: Wide<F>>(self, y: int, col: int, rows: nat) -> Moments<A>
        decreases rows,
    {
        if rows == 0 {
            Moments::spec_zero()
        } else {
            self.direct_row(
                self.direct_window::<A>(y, col, (rows - 1) as nat),
                reflect(y + rows - 1 - R, self.height),
                col,
                DIAM as nat,
            )
        }
    }

    /// The mean of the window of row `y`, column `col`, summed in `A`.
    pub open spec fn direct_moments<A: Wide<F>>(self, y: int, col: int) -> Moments<F> {
        narrowed(
            self.direct_window::<A>(y, col, DIAM as nat).spec_scaled(A::spec_ratio(1, WINDOW_TAPS)),
        )
    }
}

/// The source and the distorted plane of channel `channel`, `width` by `height`.
pub open spec fn plane_pair<F: Scalar>(
    src: &Channels<F>,
    dst: &Channels<F>,
    width: int,
    height: int,
    channel: int,
) -> PlanePair<F> {
    PlanePair { src: src.of(channel), dst: dst.of(channel), width, height }
}

/// The reference moments at offset `i` of planes that hold the channels without
/// padding between them.
pub open spec fn reference_at<F: Scalar, A: Wide<F>>(
    src: &Channels<F>,
    dst: &Channels<F>,
    width: int,
    height: int,
    i: int,
) -> Moments<F> {
    let area = width * height;
    plane_pair(src, dst, width, height, i / area).direct_moments::<A>(
        (i % area) / width,
        (i % area) % width,
    )
}

/// The reference planes.
pub open spec fn reference_planes<F: Scalar, A: Wide<F>>(
    src: &Channels<F>,
    dst: &Channels<F>,
    width: int,
    height: int,
) -> Seq<Moments<F>> {
    Seq::new(
        (CHANNELS * (width * height)) as nat,
        |i: int| reference_at::<F, A>(src, dst, width, height, i),
    )
}

/// The mean of one window.
fn window_mean<F: Scalar, A: Wide<F>>(
    src: &[F],
    dst: &[F],
    pw: usize,
    ph: usize,
    y: usize,
    x: usize,
) -> (r: Moments<F>)
    requires
        2 <= pw,
        2 <= ph,
        3 * pw <= i64::MAX,
        3 * ph <= i64::MAX,
        pw * ph <= src@.len(),
        pw * ph <= dst@.len(),
        y < ph,
        x < pw,
    ensures
        r == (PlanePair { src: src@, dst: dst@, width: pw as int, height: ph as int }).direct_moments::<
            A,
        >(y as int, x as int),
{
    let ghost pair = PlanePair { src: src@, dst: dst@, width: pw as int, height: ph as int };
    let r: i64 = R as i64;
    let diam: i64 = DIAM as i64;
    let z = A::ratio(0, 1);
    let mut acc: Moments<A> = Moments { mu1: z, mu2: z, ssq: z, s12: z };
    let mut ky: i64 = 0;
    while ky < diam
        invariant
            0 <= ky <= diam,
            diam == DIAM,
            r == R,
            2 <= pw,
            2 <= ph,
            3 * pw <= i64::MAX,
            3 * ph <= i64::MAX,
            pw * ph <= src@.len(),
            pw * ph <= dst@.len(),
            y < ph,
            x < pw,
            pair == (PlanePair { src: src@, dst: dst@, width: pw as int, height: ph as int }),
            acc == pair.direct_window::<A>(y as int, x as int, ky as nat),
        decreases diam - ky,
    {
        let sy: usize = mirror_idx(y as i64 + ky - r, ph as i64);
        let ghost before = acc;
        let mut kx: i64 = 0;
        while kx < diam
            invariant
                0 <= kx <= diam,
                diam == DIAM,
                r == R,
                2 <= pw,
                3 * pw <= i64::MAX,
                sy < ph,
                pw * ph <= src@.len(),
                pw * ph <= dst@.len(),
                x < pw,
                pair == (PlanePair { src: src@, dst: dst@, width: pw as int, height: ph as int }),
                acc == pair.direct_row::<A>(before, sy as int, x as int, kx as nat),
            decreases diam - kx,
        {
            let sx: usize = mirror_idx(x as i64 + kx - r, pw as i64);
            proof {
                lemma_offset_in_plane(pair, sy as int, x + kx - r);
                assert(src.len() == src@.len());
            }
            let at: usize = sy * pw + sx;
            acc = acc.summed(A::widen(src[at]), A::widen(dst[at]));
            kx += 1;
        }
        ky += 1;
    }
    let inv = A::ratio(1, WINDOW_TAPS);
    Moments {
        mu1: acc.mu1.times(inv).narrow(),
        mu2: acc.mu2.times(inv).narrow(),
        ssq: acc.ssq.times(inv).narrow(),
        s12: acc.s12.times(inv).narrow(),
    }
}

/// The moment planes of a `pw` by `ph` level by direct summation in `A`, the channels
/// one after the other.
pub fn cpu_feature_planes<F: Scalar, A: Wide<F>>(
    src: &Channels<F>,
    dst: &Channels<F>,
    pw: usize,
    ph: usize,
) -> (planes: Planes<F>)
    requires
        CHANNELS * (pw * ph) <= usize::MAX,
        src.hold(pw * ph),
        dst.hold(pw * ph),
        pw * ph > 0 ==> 2 <= pw && 2 <= ph && 3 * pw <= i64::MAX && 3 * ph <= i64::MAX,
    ensures
        planes.wf(),
        planes@ == reference_planes::<F, A>(src, dst, pw as int, ph as int),
{
    let ghost (w, h) = (pw as int, ph as int);
    let ghost area = w * h;
    let mut planes: Planes<F> = Planes {
        mu1: Vec::new(),
        mu2: Vec::new(),
        ssq: Vec::new(),
        s12: Vec::new(),
    };
    let mut c: u32 = 0;
    while c < CHANNELS
        invariant
            c <= CHANNELS,
            w == pw,
            h == ph,
            area == w * h,
            src.hold(area),
            dst.hold(area),
            area > 0 ==> 2 <= pw && 2 <= ph && 3 * pw <= i64::MAX && 3 * ph <= i64::MAX,
            planes.wf(),
            planes@.len() == c * area,
            forall|i: int|
                0 <= i < planes@.len() ==> #[trigger] planes@[i] == reference_at::<F, A>(
                    src,
                    dst,
                    w,
                    h,
                    i,
                ),
        decreases CHANNELS - c,
    {
        let sc = src.plane(c);
        let dc = dst.plane(c);
        let mut y: usize = 0;
        while y < ph
            invariant
                c < CHANNELS,
                y <= ph,
                w == pw,
                h == ph,
                area == w * h,
                sc@ == src.of(c as int),
                dc@ == dst.of(c as int),
                src.hold(area),
                dst.hold(area),
                area > 0 ==> 2 <= pw && 2 <= ph && 3 * pw <= i64::MAX && 3 * ph <= i64::MAX,
                planes.wf(),
                planes@.len() == c * area + y * w,
                forall|i: int|
                    0 <= i < planes@.len() ==> #[trigger] planes@[i] == reference_at::<F, A>(
                        src,
                        dst,
                        w,
                        h,
                        i,
                    ),
            decreases ph - y,
        {
            let mut x: usize = 0;
            while x < pw
                invariant
                    c < CHANNELS,
                    y < ph,
                    x <= pw,
                    w == pw,
                    h == ph,
                    area == w * h,
                    sc@ == src.of(c as int),
                    dc@ == dst.of(c as int),
                    src.hold(area),
                    dst.hold(area),
                    area > 0 ==> 2 <= pw && 2 <= ph && 3 * pw <= i64::MAX && 3 * ph <= i64::MAX,
                    planes.wf(),
                    planes@.len() == c * area + y * w + x,
                    forall|i: int|
                        0 <= i < planes@.len() ==> #[trigger] planes@[i] == reference_at::<F, A>(
                            src,
                            dst,
                            w,
                            h,
                            i,
                        ),
                decreases pw - x,
            {
                proof {
                    let local = y * w + x;
                    assert(0 <= local < area) by (nonlinear_arith)
                        requires
                            0 <= y < h,
                            0 <= x < w,
                            local == y * w + x,
                            area == w * h,
                    ;
                    lemma_fundamental_div_mod_converse(c * area + local, area, c as int, local);
                    lemma_fundamental_div_mod_converse(local, w, y as int, x as int);
                }
                let m = window_mean::<F, A>(sc, dc, pw, ph, y, x);
                planes.append(m);
                x += 1;
            }
            assert(y * w + w == (y + 1) * w) by (nonlinear_arith);
            y += 1;
        }
        assert(c * area + h * w == (c + 1) * area) by (nonlinear_arith)
            requires
                area == w * h,
        ;
        c += 1;
    }
    planes
}

// ───────────── before rounding, the kernels compute the reference ─────────────

/// Taking the first row off a window leaves the first rows of the next window.
proof fn lemma_first_rows_shift(pair: PlanePair<Exact>, y: int, col: int, rows: nat)
    ensures
        pair.first_rows(y, col, rows + 1) == pair.row_moments(y - R, col).spec_plus(
            pair.first_rows(y + 1, col, rows),
        ),
    decreases rows,
{
    lemma_exact_units();
    if rows == 0 {
        reveal_with_fuel(PlanePair::first_rows, 2);
    } else {
        lemma_first_rows_shift(pair, y, col, (rows - 1) as nat);
        assert(pair.row_moments(y + (rows + 1) - 1 - R, col) == pair.row_moments(
            y + 1 + rows - 1 - R,
            col,
        ));
    }
}

/// Before rounding, a window holds the sum of its rows wherever it was started: what
/// sliding adds and takes off is what summing afresh would give.
pub proof fn law_sliding_sum_is_fresh_sum(
    pair: PlanePair<Exact>,
    y_start: int,
    y: int,
    col: int,
)
    requires
        y_start <= y,
    ensures
        pair.window_sum(y_start, y, col) == pair.first_rows(y, col, DIAM as nat),
    decreases y - y_start,
{
    if y_start < y {
        law_sliding_sum_is_fresh_sum(pair, y_start, y - 1, col);
        lemma_first_rows_shift(pair, y - 1, col, (DIAM - 1) as nat);
        assert(pair.first_rows(y - 1, col, DIAM as nat) == pair.row_moments(
            y - 1 - R,
            col,
        ).spec_plus(pair.first_rows(y, col, (DIAM - 1) as nat)));
        assert(pair.first_rows(y, col, DIAM as nat) == pair.first_rows(
            y,
            col,
            (DIAM - 1) as nat,
        ).spec_plus(pair.row_moments(y + R, col)));
    }
}

/// Before rounding, the direct sum adds the taps of a row to what it had.
proof fn lemma_direct_row_adds_taps(
    pair: PlanePair<Exact>,
    start: Moments<Exact>,
    row: int,
    col: int,
    taps: nat,
)
    ensures
        pair.direct_row::<Exact>(start, row, col, taps) == start.spec_plus(
            pair.row_taps(row, col, taps),
        ),
    decreases taps,
{
    lemma_exact_units();
    if taps > 0 {
        lemma_direct_row_adds_taps(pair, start, row, col, (taps - 1) as nat);
    }
}

proof fn lemma_scale_distributes(a: Moments<Exact>, b: Moments<Exact>, k: Exact)
    ensures
        a.spec_scaled(k).spec_plus(b.spec_scaled(k)) == a.spec_plus(b).spec_scaled(k),
{
    lemma_real_distributes(a.mu1.value@, b.mu1.value@, k.value@);
    lemma_real_distributes(a.mu2.value@, b.mu2.value@, k.value@);
    lemma_real_distributes(a.ssq.value@, b.ssq.value@, k.value@);
    lemma_real_distributes(a.s12.value@, b.s12.value@, k.value@);
}

proof fn lemma_real_distributes(a: real, b: real, k: real)
    ensures
        a * k + b * k == (a + b) * k,
{
    assert(a * k + b * k == (a + b) * k) by (nonlinear_arith);
}

/// Before rounding, the sum of the first rows of a window, each row scaled, is the
/// direct sum, scaled once.
proof fn lemma_first_rows_are_direct(pair: PlanePair<Exact>, y: int, col: int, rows: nat)
    ensures
        pair.first_rows(y, col, rows) == pair.direct_window::<Exact>(y, col, rows).spec_scaled(
            inv_diam(),
        ),
    decreases rows,
{
    let k = inv_diam::<Exact>();
    lemma_exact_units();
    if rows == 0 {
        let z = 0 as real;
        assert(z * k.value@ == z) by (nonlinear_arith)
            requires
                z == 0 as real,
        ;
    } else {
        let before = pair.direct_window::<Exact>(y, col, (rows - 1) as nat);
        let row = reflect(y + rows - 1 - R, pair.height);
        lemma_first_rows_are_direct(pair, y, col, (rows - 1) as nat);
        lemma_direct_row_adds_taps(pair, before, row, col, DIAM as nat);
        lemma_scale_distributes(before, pair.row_taps(row, col, DIAM as nat), k);
    }
}

proof fn lemma_scaling_twice(x: real, k: real, inv: real)
    requires
        k * 11 as real == 1 as real,
        inv * 121 as real == 1 as real,
    ensures
        (x * k) * k == x * inv,
{
    assert(k * k * 121 as real == (k * 11 as real) * (k * 11 as real)) by (nonlinear_arith);
    assert(k * k == inv);
    assert((x * k) * k == x * (k * k)) by (nonlinear_arith);
}

/// Before rounding, a sliding window gives the mean of the window of each pixel,
/// whatever row it was started at.
pub proof fn law_sliding_blur_is_direct_blur(
    pair: PlanePair<Exact>,
    y_start: int,
    y: int,
    col: int,
)
    requires
        y_start <= y,
    ensures
        pair.window_moments(y_start, y, col) == pair.direct_moments::<Exact>(y, col),
{
    let k = inv_diam::<Exact>();
    let inv = Exact::spec_ratio(1, WINDOW_TAPS);
    law_sliding_sum_is_fresh_sum(pair, y_start, y, col);
    lemma_first_rows_are_direct(pair, y, col, DIAM as nat);
    lemma_exact_ratio(1, DIAM);
    lemma_exact_ratio(1, WINDOW_TAPS);
    let total = pair.direct_window::<Exact>(y, col, DIAM as nat);
    lemma_scaling_twice(total.mu1.value@, k.value@, inv.value@);
    lemma_scaling_twice(total.mu2.value@, k.value@, inv.value@);
    lemma_scaling_twice(total.ssq.value@, k.value@, inv.value@);
    lemma_scaling_twice(total.s12.value@, k.value@, inv.value@);
}

/// Before rounding, the planes that a blur kernel writes are the reference planes,
/// however many strips they are computed in.
pub proof fn law_blurred_planes_are_reference_planes(
    before: Seq<Moments<Exact>>,
    src: &Channels<Exact>,
    dst: &Channels<Exact>,
    layout: Layout,
)
    requires
        layout.valid(),
        layout.pad_total == layout.width * layout.height,
        before.len() == CHANNELS * layout.pad_total,
    ensures
        blurred(before, src, dst, layout) == reference_planes::<Exact, Exact>(
            src,
            dst,
            layout.width as int,
            layout.height as int,
        ),
{
    let (w, h, n) = (layout.width as int, layout.height as int, layout.n_strips as int);
    assert forall|i: int| 0 <= i < before.len() implies #[trigger] blurred(
        before,
        src,
        dst,
        layout,
    )[i] == reference_at::<Exact, Exact>(src, dst, w, h, i) by {
        vstd::arithmetic::div_mod::lemma_mod_bound(i, w * h);
        assert(layout.is_pixel(i));
        lemma_pixel_offset(layout, i);
        law_row_has_one_strip(h, n, layout.row(i));
        law_sliding_blur_is_direct_blur(
            channel_pair(src, dst, layout, layout.channel(i)),
            layout.window_start(layout.row(i)),
            layout.row(i),
            layout.col(i),
        );
    }
    assert(blurred(before, src, dst, layout) =~= reference_planes::<Exact, Exact>(src, dst, w, h));
}

} // verus!
