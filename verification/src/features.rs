//! What the feature kernel adds up beside the moment planes: per column and strip,
//! seventeen sums and three peaks of per-pixel terms.
use vstd::prelude::*;

use crate::scalar::{exact, lemma_exact_units, one, zero, Exact, Scalar, Wide};
use crate::ssim::{clamped, per_pixel_ssim_error, ssim_error};
use crate::window::{Moments, PlanePair};

verus! {

/// What a blur kernel computes beside the moment planes.
#[derive(Clone, Copy, Debug, PartialEq, Eq, Structural)]
pub enum FeatMode {
    /// All the feature sums and peaks.
    Full,
    /// Nothing.
    BlurOnly,
    /// One sum, of the blurred source.
    BlurF64,
}

/// The name that a mode goes by in reports.
pub open spec fn feat_mode_label(mode: FeatMode) -> Seq<char> {
    match mode {
        FeatMode::Full => "feature-full"@,
        FeatMode::BlurOnly => "blur-only   "@,
        FeatMode::BlurF64 => "blur+f64    "@,
    }
}

impl FeatMode {
    /// The name that the mode goes by in reports.
    pub fn label(self) -> (r: &'static str)
        ensures
            r@ == feat_mode_label(self),
    {
        match self {
            FeatMode::Full => "feature-full",
            FeatMode::BlurOnly => "blur-only   ",
            FeatMode::BlurF64 => "blur+f64    ",
        }
    }

    /// Sums per column and strip.
    pub open spec fn n_sums(self) -> int {
        match self {
            FeatMode::Full => 17,
            FeatMode::BlurOnly => 0,
            FeatMode::BlurF64 => 1,
        }
    }

    /// Peaks per column and strip.
    pub open spec fn n_peaks(self) -> int {
        match self {
            FeatMode::Full => 3,
            FeatMode::BlurOnly => 0,
            FeatMode::BlurF64 => 0,
        }
    }

    /// Sums per column and strip.
    pub fn sums_per_column(self) -> (r: usize)
        ensures
            r == self.n_sums(),
    {
        match self {
            FeatMode::Full => 17,
            FeatMode::BlurOnly => 0,
            FeatMode::BlurF64 => 1,
        }
    }

    /// Peaks per column and strip.
    pub fn peaks_per_column(self) -> (r: usize)
        ensures
            r == self.n_peaks(),
    {
        match self {
            FeatMode::Full => 3,
            FeatMode::BlurOnly => 0,
            FeatMode::BlurF64 => 0,
        }
    }
}

/// One for a row that counts, zero for one that does not.
pub open spec fn mask<F: Scalar>(is_body: bool) -> F {
    if is_body {
        one()
    } else {
        zero()
    }
}

/// How much the distorted sample departs from its blur more than the source sample
/// does: above zero for an artifact, below for lost detail.
pub open spec fn edge_difference<F: Scalar>(m: Moments<F>, sv: F, dv: F) -> F {
    let diff1 = sv.spec_minus(m.mu1).spec_magnitude();
    let diff2 = dv.spec_minus(m.mu2).spec_magnitude();
    one::<F>().spec_plus(diff2).spec_over(one::<F>().spec_plus(diff1)).spec_minus(one())
}

/// The three terms whose peaks are kept: the structural-similarity error, the
/// artifact and the lost detail.
pub open spec fn peak_terms<F: Scalar>(m: Moments<F>, sv: F, dv: F, is_body: bool) -> Seq<F> {
    let ed = edge_difference(m, sv, dv);
    seq![
        ssim_error(m).spec_times(mask(is_body)),
        clamped(ed).spec_times(mask(is_body)),
        zero::<F>().spec_if_above(ed, ed.spec_negated(), zero()).spec_times(mask(is_body)),
    ]
}

/// `x` squared.
pub open spec fn squared<F: Scalar>(x: F) -> F {
    x.spec_times(x)
}

/// The seventeen terms that are summed, in the order in which the sums are stored.
pub open spec fn sum_terms<F: Scalar>(m: Moments<F>, sv: F, dv: F, is_body: bool) -> Seq<F> {
    let k = mask::<F>(is_body);
    let sd = peak_terms(m, sv, dv, is_body)[0];
    let artifact = peak_terms(m, sv, dv, is_body)[1];
    let lost = peak_terms(m, sv, dv, is_body)[2];
    let diff1 = sv.spec_minus(m.mu1).spec_magnitude();
    let diff2 = dv.spec_minus(m.mu2).spec_magnitude();
    seq![
        sd,
        squared(squared(sd)),
        squared(sd),
        artifact,
        squared(squared(artifact)),
        squared(artifact),
        lost,
        squared(squared(lost)),
        squared(lost),
        squared(sv.spec_minus(dv).spec_times(k)),
        squared(sv.spec_minus(m.mu1).spec_times(k)),
        squared(dv.spec_minus(m.mu2).spec_times(k)),
        diff1.spec_times(k),
        diff2.spec_times(k),
        squared(squared(squared(sd))),
        squared(squared(squared(artifact))),
        squared(squared(squared(lost))),
    ]
}

/// The terms that a kernel of the given mode sums.
pub open spec fn mode_sum_terms<F: Scalar>(
    mode: FeatMode,
    m: Moments<F>,
    sv: F,
    dv: F,
    is_body: bool,
) -> Seq<F> {
    match mode {
        FeatMode::Full => sum_terms(m, sv, dv, is_body),
        FeatMode::BlurOnly => Seq::empty(),
        FeatMode::BlurF64 => seq![m.mu1],
    }
}

/// The terms that a kernel of the given mode keeps the peaks of.
pub open spec fn mode_peak_terms<F: Scalar>(
    mode: FeatMode,
    m: Moments<F>,
    sv: F,
    dv: F,
    is_body: bool,
) -> Seq<F> {
    match mode {
        FeatMode::Full => peak_terms(m, sv, dv, is_body),
        FeatMode::BlurOnly => Seq::empty(),
        FeatMode::BlurF64 => Seq::empty(),
    }
}

fn square<F: Scalar>(x: F) -> (r: F)
    ensures
        r == squared(x),
{
    x.times(x)
}

/// The terms of one pixel: those that are summed, and those whose peaks are kept.
pub fn pixel_features<F: Scalar>(m: Moments<F>, sv: F, dv: F, is_body: bool) -> (r: (
    Vec<F>,
    Vec<F>,
))
    ensures
        r.0@ == sum_terms(m, sv, dv, is_body),
        r.1@ == peak_terms(m, sv, dv, is_body),
{
    let one = F::ratio(1, 1);
    let zero = F::ratio(0, 1);
    let mask = if is_body {
        one
    } else {
        zero
    };
    let sd = per_pixel_ssim_error(m.mu1, m.mu2, m.ssq, m.s12).times(mask);
    let sd2 = square(sd);
    let sd4 = square(sd2);

    let diff1 = sv.minus(m.mu1).magnitude();
    let diff2 = dv.minus(m.mu2).magnitude();
    let ed = one.plus(diff2).over(one.plus(diff1)).minus(one);
    let artifact = ed.if_above(zero, ed, zero).times(mask);
    let lost = zero.if_above(ed, ed.negated(), zero).times(mask);
    let a2 = square(artifact);
    let dl2 = square(lost);
    let a4 = square(a2);
    let dl4 = square(dl2);

    let vs = sv.minus(m.mu1).times(mask);
    let vd = dv.minus(m.mu2).times(mask);
    let pd = sv.minus(dv).times(mask);

    let sums: Vec<F> = vec![
        sd,
        sd4,
        sd2,
        artifact,
        a4,
        a2,
        lost,
        dl4,
        dl2,
        square(pd),
        square(vs),
        square(vd),
        diff1.times(mask),
        diff2.times(mask),
        square(sd4),
        square(a4),
        square(dl4),
    ];
    let peaks: Vec<F> = vec![sd, artifact, lost];
    assert(m == (Moments { mu1: m.mu1, mu2: m.mu2, ssq: m.ssq, s12: m.s12 }));
    (sums, peaks)
}

/// The terms of one pixel that a kernel of the given mode takes.
pub fn mode_features<F: Scalar>(mode: FeatMode, m: Moments<F>, sv: F, dv: F, is_body: bool) -> (r: (
    Vec<F>,
    Vec<F>,
))
    ensures
        r.0@ == mode_sum_terms(mode, m, sv, dv, is_body),
        r.1@ == mode_peak_terms(mode, m, sv, dv, is_body),
        r.0@.len() == mode.n_sums(),
        r.1@.len() == mode.n_peaks(),
{
    match mode {
        FeatMode::Full => pixel_features(m, sv, dv, is_body),
        FeatMode::BlurOnly => (Vec::new(), Vec::new()),
        FeatMode::BlurF64 => {
            let sums: Vec<F> = vec![m.mu1];
            (sums, Vec::new())
        },
    }
}

/// The rows that count toward the sums and peaks: from the first up to, and not
/// with, the second.
#[derive(Clone, Copy, Debug, PartialEq, Eq, Structural)]
pub struct Body {
    pub start: u32,
    pub end: u32,
}

impl Body {
    /// Whether row `y` counts.
    pub open spec fn has(self, y: int) -> bool {
        self.start <= y < self.end
    }
}

impl<F: Scalar> PlanePair<F> {
    /// The summed terms at row `y`, column `col`, in a strip that starts at `y_start`.
    pub open spec fn sum_terms_at(
        self,
        mode: FeatMode,
        body: Body,
        y_start: int,
        y: int,
        col: int,
    ) -> Seq<F> {
        mode_sum_terms(
            mode,
            self.window_moments(y_start, y, col),
            self.src[y * self.width + col],
            self.dst[y * self.width + col],
            body.has(y),
        )
    }

    /// The peaking terms at row `y`, column `col`, in a strip that starts at `y_start`.
    pub open spec fn peak_terms_at(
        self,
        mode: FeatMode,
        body: Body,
        y_start: int,
        y: int,
        col: int,
    ) -> Seq<F> {
        mode_peak_terms(
            mode,
            self.window_moments(y_start, y, col),
            self.src[y * self.width + col],
            self.dst[y * self.width + col],
            body.has(y),
        )
    }

    /// Sum `t` of column `col` over the rows from `y_start` up to, and not with, `y`.
    pub open spec fn column_sum<A: Wide<F>>(
        self,
        mode: FeatMode,
        body: Body,
        y_start: int,
        y: int,
        col: int,
        t: int,
    ) -> A
        decreases y - y_start,
    {
        if y <= y_start {
            zero()
        } else {
            self.column_sum::<A>(mode, body, y_start, y - 1, col, t).spec_plus(
                A::spec_widen(self.sum_terms_at(mode, body, y_start, y - 1, col)[t]),
            )
        }
    }

    /// Peak `t` of column `col` over the rows from `y_start` up to, and not with, `y`.
    pub open spec fn column_peak(
        self,
        mode: FeatMode,
        body: Body,
        y_start: int,
        y: int,
        col: int,
        t: int,
    ) -> F
        decreases y - y_start,
    {
        if y <= y_start {
            zero()
        } else {
            let so_far = self.column_peak(mode, body, y_start, y - 1, col, t);
            let term = self.peak_terms_at(mode, body, y_start, y - 1, col)[t];
            term.spec_if_above(so_far, term, so_far)
        }
    }
}

/// Before rounding, a row that does not count adds nothing: each of its terms is zero.
pub proof fn law_masked_terms_are_zero(m: Moments<Exact>, sv: Exact, dv: Exact, t: int)
    ensures
        0 <= t < FeatMode::Full.n_sums() ==> sum_terms(m, sv, dv, false)[t] == exact(0 as real),
        0 <= t < FeatMode::Full.n_peaks() ==> peak_terms(m, sv, dv, false)[t] == exact(0 as real),
{
    lemma_exact_units();
    assert(forall|x: Exact| #[trigger]
        x.spec_times(exact(0 as real)) == exact(x.value@ * 0 as real));
    assert(squared(exact(0 as real)) == exact(0 as real));
}

/// Before rounding, a peak is no less than zero and than each term that it was taken
/// over, and it is zero or one of those terms.
pub proof fn law_peak_is_greatest_term(
    pair: PlanePair<Exact>,
    mode: FeatMode,
    body: Body,
    y_start: int,
    y: int,
    col: int,
    t: int,
)
    ensures
        ({
            let peak = pair.column_peak(mode, body, y_start, y, col, t);
            &&& peak.value@ >= 0 as real
            &&& forall|r: int|
                y_start <= r < y ==> (#[trigger] pair.peak_terms_at(mode, body, y_start, r, col))[t].value@
                    <= peak.value@
            &&& peak == exact(0 as real) || exists|r: int|
                y_start <= r < y && (#[trigger] pair.peak_terms_at(mode, body, y_start, r, col))[t]
                    == peak
        }),
    decreases y - y_start,
{
    lemma_exact_units();
    if y > y_start {
        law_peak_is_greatest_term(pair, mode, body, y_start, y - 1, col, t);
        let so_far = pair.column_peak(mode, body, y_start, y - 1, col, t);
        let peak = pair.column_peak(mode, body, y_start, y, col, t);
        let term = pair.peak_terms_at(mode, body, y_start, y - 1, col)[t];
        assert(peak == term || peak == so_far);
    }
}

/// Where no number is above another, as none is that is not a number, the error is zero, and so
/// are the artifact and the lost detail before they are masked, and the peaks of every column.
pub proof fn law_incomparable_numbers_do_not_count<F: Scalar>(
    pair: PlanePair<F>,
    m: Moments<F>,
    sv: F,
    dv: F,
    is_body: bool,
    mode: FeatMode,
    body: Body,
    y_start: int,
    y: int,
    col: int,
    t: int,
)
    requires
        forall|x: F, limit: F, above: F, otherwise: F| #[trigger]
            x.spec_if_above(limit, above, otherwise) == otherwise,
    ensures
        ssim_error(m) == zero::<F>(),
        peak_terms(m, sv, dv, is_body)[1] == zero::<F>().spec_times(
            if is_body {
                one()
            } else {
                zero()
            },
        ),
        peak_terms(m, sv, dv, is_body)[2] == peak_terms(m, sv, dv, is_body)[1],
        pair.column_peak(mode, body, y_start, y, col, t) == zero::<F>(),
    decreases y - y_start,
{
    if y > y_start {
        law_incomparable_numbers_do_not_count(
            pair,
            m,
            sv,
            dv,
            is_body,
            mode,
            body,
            y_start,
            y - 1,
            col,
            t,
        );
    }
}

/// Bit for bit, whether a row counts is a factor of its terms, one or zero, before they are
/// squared: a term that is not a number stays so in a row that does not count.
pub proof fn law_rows_count_by_a_factor<F: Scalar>(m: Moments<F>, sv: F, dv: F, is_body: bool)
    ensures
        ({
            let k = if is_body {
                F::spec_ratio(1, 1)
            } else {
                F::spec_ratio(0, 1)
            };
            let t = sum_terms(m, sv, dv, is_body);
            let (apart, a, b) = (
                sv.spec_minus(dv).spec_times(k),
                sv.spec_minus(m.mu1).spec_times(k),
                dv.spec_minus(m.mu2).spec_times(k),
            );
            &&& t[0] == ssim_error(m).spec_times(k)
            &&& t[9] == apart.spec_times(apart)
            &&& t[10] == a.spec_times(a)
            &&& t[11] == b.spec_times(b)
            &&& t[12] == sv.spec_minus(m.mu1).spec_magnitude().spec_times(k)
            &&& t[13] == dv.spec_minus(m.mu2).spec_magnitude().spec_times(k)
        }),
{
}

} // verus!
