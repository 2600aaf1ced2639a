//! Structural-similarity error of blurred moments, per pixel and weighted over the
//! channels.
use vstd::prelude::*;

use crate::geometry::{line_units, LINE_UNITS};
use crate::scalar::{lemma_exact_units, one, zero, Exact, Scalar};
use crate::window::Moments;

verus! {

/// The moment planes of one level: the channels one after the other in each.
pub struct Planes<F: Scalar> {
    pub mu1: Vec<F>,
    pub mu2: Vec<F>,
    pub ssq: Vec<F>,
    pub s12: Vec<F>,
}

impl<F: Scalar> Planes<F> {
    /// All four planes hold as many samples as each other.
    pub open spec fn wf(&self) -> bool {
        self.mu1@.len() == self.mu2@.len() == self.ssq@.len() == self.s12@.len()
    }

    /// The moments at offset `i`.
    pub open spec fn at(&self, i: int) -> Moments<F> {
        Moments { mu1: self.mu1@[i], mu2: self.mu2@[i], ssq: self.ssq@[i], s12: self.s12@[i] }
    }

    /// The moments of every offset.
    pub open spec fn view(&self) -> Seq<Moments<F>> {
        Seq::new(self.mu1@.len(), |i: int| self.at(i))
    }

    /// The moments at offset `i`.
    pub fn get(&self, i: usize) -> (m: Moments<F>)
        requires
            self.wf(),
            i < self@.len(),
        ensures
            m == self@[i as int],
    {
        Moments { mu1: self.mu1[i], mu2: self.mu2[i], ssq: self.ssq[i], s12: self.s12[i] }
    }

    /// Adds moments behind the last.
    pub fn append(&mut self, m: Moments<F>)
        requires
            old(self).wf(),
        ensures
            final(self).wf(),
            final(self)@ == old(self)@.push(m),
    {
        self.mu1.push(m.mu1);
        self.mu2.push(m.mu2);
        self.ssq.push(m.ssq);
        self.s12.push(m.s12);
    }

    /// Sets the moments at offset `i`.
    pub fn put(&mut self, i: usize, m: Moments<F>)
        requires
            old(self).wf(),
            i < old(self)@.len(),
        ensures
            final(self).wf(),
            final(self)@ == old(self)@.update(i as int, m),
    {
        self.mu1.set(i, m.mu1);
        self.mu2.set(i, m.mu2);
        self.ssq.set(i, m.ssq);
        self.s12.set(i, m.s12);
    }
}

/// The constant that keeps the quotient of the structure term finite.
pub open spec fn c2<F: Scalar>() -> F {
    F::spec_ratio(9, 10000)
}

/// `x` where it is above zero, else zero.
pub open spec fn clamped<F: Scalar>(x: F) -> F {
    x.spec_if_above(zero(), x, zero())
}

/// One minus the structural similarity of the moments, no less than zero.
pub open spec fn ssim_error<F: Scalar>(m: Moments<F>) -> F {
    let mu_diff = m.mu1.spec_minus(m.mu2);
    let num_m = mu_diff.spec_fma(mu_diff.spec_negated(), one());
    let cov = m.mu1.spec_negated().spec_fma(m.mu2, m.s12);
    let num_s = F::spec_ratio(2, 1).spec_fma(cov, c2());
    let var1 = m.mu1.spec_negated().spec_fma(m.mu1, m.ssq);
    let denom_s = m.mu2.spec_negated().spec_fma(m.mu2, var1).spec_plus(c2());
    clamped(one::<F>().spec_minus(num_m.spec_times(num_s).spec_over(denom_s)))
}

/// The structural-similarity error of one pixel.
pub fn per_pixel_ssim_error<F: Scalar>(mu1: F, mu2: F, ssq: F, s12: F) -> (r: F)
    ensures
        r == ssim_error((Moments { mu1, mu2, ssq, s12 })),
{
    let c2 = F::ratio(9, 10000);
    let one = F::ratio(1, 1);
    let zero = F::ratio(0, 1);
    let mu_diff = mu1.minus(mu2);
    let num_m = mu_diff.fma(mu_diff.negated(), one);
    let inner_ns = mu1.negated().fma(mu2, s12);
    let num_s = F::ratio(2, 1).fma(inner_ns, c2);
    let inner_ds = mu1.negated().fma(mu1, ssq);
    let denom_s = mu2.negated().fma(mu2, inner_ds).plus(c2);
    let sd_raw = one.minus(num_m.times(num_s).over(denom_s));
    sd_raw.if_above(zero, sd_raw, zero)
}

/// The error at offset `idx`, weighted over the channels, as the reference sums
/// it: from zero on, channel by channel.
pub open spec fn reference_error<F: Scalar>(
    planes: Seq<Moments<F>>,
    pad_total: int,
    w: Seq<F>,
    idx: int,
) -> F {
    zero::<F>().spec_plus(w[0].spec_times(ssim_error(planes[idx]))).spec_plus(
        w[1].spec_times(ssim_error(planes[idx + pad_total])),
    ).spec_plus(w[2].spec_times(ssim_error(planes[idx + 2 * pad_total])))
}

/// The error at offset `idx`, weighted over the channels, as the device sums it.
pub open spec fn device_error<F: Scalar>(
    planes: Seq<Moments<F>>,
    pad_total: int,
    w: Seq<F>,
    idx: int,
) -> F {
    w[0].spec_times(ssim_error(planes[idx])).spec_plus(
        w[1].spec_times(ssim_error(planes[idx + pad_total])),
    ).spec_plus(w[2].spec_times(ssim_error(planes[idx + 2 * pad_total])))
}

/// The weighted errors of the first `n` pixels, as the reference computes them.
pub open spec fn reference_errors<F: Scalar>(
    planes: Seq<Moments<F>>,
    n: int,
    pad_total: int,
    w: Seq<F>,
) -> Seq<F> {
    Seq::new(n as nat, |idx: int| reference_error(planes, pad_total, w, idx))
}

/// `before` with the weighted errors of the first `n` pixels written into it by
/// `units` units.
pub open spec fn device_errors<F: Scalar>(
    before: Seq<F>,
    planes: Seq<Moments<F>>,
    n: int,
    pad_total: int,
    w: Seq<F>,
    units: int,
) -> Seq<F> {
    Seq::new(
        before.len(),
        |idx: int|
            if idx < n && idx < units {
                device_error(planes, pad_total, w, idx)
            } else {
                before[idx]
            },
    )
}

/// The weighted errors of the first `n` pixels, computed on the host.
pub fn cpu_per_scale<F: Scalar>(planes: &Planes<F>, pad_total: usize, n: usize, w: [F; 3]) -> (out:
    Vec<F>)
    requires
        planes.wf(),
        n > 0 ==> n + 2 * pad_total <= planes@.len(),
    ensures
        out@ == reference_errors(planes@, n as int, pad_total as int, w@),
{
    let mut out: Vec<F> = Vec::new();
    let mut idx: usize = 0;
    while idx < n
        invariant
            idx <= n,
            planes.wf(),
            n > 0 ==> n + 2 * pad_total <= planes@.len(),
            out@ == Seq::new(
                idx as nat,
                |k: int| reference_error(planes@, pad_total as int, w@, k),
            ),
        decreases n - idx,
    {
        let mut acc = F::ratio(0, 1);
        let mut c: usize = 0;
        while c < 3
            invariant
                c <= 3,
                idx < n,
                planes.wf(),
                n + 2 * pad_total <= planes@.len(),
                c == 0 ==> acc == zero::<F>(),
                c == 1 ==> acc == zero::<F>().spec_plus(
                    w@[0].spec_times(ssim_error(planes@[idx as int])),
                ),
                c == 2 ==> acc == zero::<F>().spec_plus(
                    w@[0].spec_times(ssim_error(planes@[idx as int])),
                ).spec_plus(w@[1].spec_times(ssim_error(planes@[idx + pad_total]))),
                c == 3 ==> acc == reference_error(planes@, pad_total as int, w@, idx as int),
            decreases 3 - c,
        {
            assert(c * pad_total <= 2 * pad_total) by (nonlinear_arith)
                requires
                    c <= 2,
                    pad_total >= 0,
            ;
            assert(0 * pad_total == 0 && 1 * pad_total == pad_total);
            assert(planes.mu1.len() == planes@.len());
            let o: usize = idx + c * pad_total;
            assert(planes@[o as int] == planes.at(o as int));
            let e = per_pixel_ssim_error(planes.mu1[o], planes.mu2[o], planes.ssq[o], planes.s12[o]);
            acc = acc.plus(w[c].times(e));
            c += 1;
        }
        out.push(acc);
        idx += 1;
    }
    out
}

/// The kernel that computes the weighted errors of a level on the device, unit by
/// unit. Unit `idx` writes pixel `idx`; units past the last pixel do nothing.
pub fn per_scale_weighted_ssim_kernel<F: Scalar>(
    blocks: u32,
    planes: &Planes<F>,
    out: &mut Vec<F>,
    padded_w: u32,
    height: u32,
    pad_total: u32,
    w: [F; 3],
)
    requires
        planes.wf(),
        padded_w * height <= u32::MAX,
        padded_w * height <= old(out)@.len(),
        padded_w * height > 0 ==> padded_w * height + 2 * pad_total <= planes@.len(),
    ensures
        final(out)@ == device_errors(
            old(out)@,
            planes@,
            padded_w * height,
            pad_total as int,
            w@,
            blocks * LINE_UNITS,
        ),
{
    let units: u64 = line_units(blocks);
    let total: u64 = (padded_w * height) as u64;
    let pt: usize = pad_total as usize;
    let mut pos: u64 = 0;
    while pos < units
        invariant
            pos <= units,
            units == blocks * LINE_UNITS,
            total == padded_w * height,
            pt == pad_total,
            total <= u32::MAX,
            total <= out@.len(),
            out@.len() == old(out)@.len(),
            planes.wf(),
            total > 0 ==> total + 2 * pad_total <= planes@.len(),
            out@ == Seq::new(
                old(out)@.len(),
                |idx: int|
                    if idx < padded_w * height && idx < pos {
                        device_error(planes@, pad_total as int, w@, idx)
                    } else {
                        old(out)@[idx]
                    },
            ),
        decreases units - pos,
    {
        if pos < total {
            let idx: usize = pos as usize;
            assert(planes.mu1.len() == planes@.len());
            assert(planes@[idx as int] == planes.at(idx as int));
            assert(planes@[idx + pt] == planes.at(idx + pt));
            assert(planes@[idx + 2 * pt] == planes.at(idx + 2 * pt));
            let sd_x = per_pixel_ssim_error(
                planes.mu1[idx],
                planes.mu2[idx],
                planes.ssq[idx],
                planes.s12[idx],
            );
            let y: usize = idx + pt;
            let sd_y = per_pixel_ssim_error(
                planes.mu1[y],
                planes.mu2[y],
                planes.ssq[y],
                planes.s12[y],
            );
            let b: usize = idx + pt * 2;
            let sd_b = per_pixel_ssim_error(
                planes.mu1[b],
                planes.mu2[b],
                planes.ssq[b],
                planes.s12[b],
            );
            out.set(idx, w[0].times(sd_x).plus(w[1].times(sd_y)).plus(w[2].times(sd_b)));
        }
        pos += 1;
    }
}

/// Zero and an error that `w` weights add up to that error. So it is wherever zero plus a
/// number is that number bit for bit, as in IEEE arithmetic for all but a negative zero,
/// which a weighted error is not.
pub open spec fn adds_to_zero<F: Scalar>(w: F) -> bool {
    forall|x: F|
        zero::<F>().spec_plus(#[trigger] w.spec_times(clamped(x))) == w.spec_times(clamped(x))
}

/// Before rounding, zero and any weighted error add up to it.
pub proof fn law_exact_errors_add_to_zero(w: Exact)
    ensures
        adds_to_zero(w),
{
    lemma_exact_units();
    assert forall|x: Exact|
        zero::<Exact>().spec_plus(#[trigger] w.spec_times(clamped(x))) == w.spec_times(
            clamped(x),
        ) by {
        let first = w.spec_times(clamped(x));
        assert(zero::<Exact>().spec_plus(first) == first);
    }
}

/// Bit for bit, the device computes the weighted error that the reference does, provided that
/// zero and the first weighted error add up to it.
pub proof fn law_device_error_is_reference_error<F: Scalar>(
    planes: Seq<Moments<F>>,
    pad_total: int,
    w: Seq<F>,
    idx: int,
)
    requires
        zero::<F>().spec_plus(w[0].spec_times(ssim_error(planes[idx]))) == w[0].spec_times(
            ssim_error(planes[idx]),
        ),
    ensures
        device_error(planes, pad_total, w, idx) == reference_error(planes, pad_total, w, idx),
{
}

/// Bit for bit, units for all `n` pixels write the errors that the reference computes, whatever
/// was there before, and leave what lies behind alone.
pub proof fn law_device_errors_are_reference_errors<F: Scalar>(
    before: Seq<F>,
    planes: Seq<Moments<F>>,
    n: int,
    pad_total: int,
    w: Seq<F>,
    units: int,
)
    requires
        adds_to_zero(w[0]),
        0 <= n <= before.len(),
        n <= units,
    ensures
        device_errors(before, planes, n, pad_total, w, units).len() == before.len(),
        device_errors(before, planes, n, pad_total, w, units).take(n) == reference_errors(
            planes,
            n,
            pad_total,
            w,
        ),
        device_errors(before, planes, n, pad_total, w, units).skip(n) == before.skip(n),
{
    let after = device_errors(before, planes, n, pad_total, w, units);
    assert forall|idx: int| 0 <= idx < n implies #[trigger] after[idx] == reference_error(
        planes,
        pad_total,
        w,
        idx,
    ) by {
        law_device_error_is_reference_error(planes, pad_total, w, idx);
    }
    assert(after.take(n) =~= reference_errors(planes, n, pad_total, w));
    assert(after.skip(n) =~= before.skip(n));
}

/// Before rounding, the error is never negative.
pub proof fn law_error_is_not_negative(m: Moments<Exact>)
    ensures
        ssim_error(m).value@ >= 0 as real,
{
    lemma_exact_units();
}

/// Each unit writes the error of its own pixel; a pixel without a unit, and what lies behind the
/// pixels, is left alone.
pub proof fn law_units_write_their_pixels<F: Scalar>(
    before: Seq<F>,
    planes: Seq<Moments<F>>,
    n: int,
    pad_total: int,
    w: Seq<F>,
    units: int,
    i: int,
)
    requires
        0 <= i < before.len(),
    ensures
        i < n && i < units ==> device_errors(before, planes, n, pad_total, w, units)[i]
            == device_error(planes, pad_total, w, i),
        i >= n || i >= units ==> device_errors(before, planes, n, pad_total, w, units)[i]
            == before[i],
{
}

} // verus!
