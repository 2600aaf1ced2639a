//! What the operations mean, in real arithmetic: of exact inputs and results, with no reference
//! to how they are computed.
use vstd::prelude::*;

use crate::features::{mode_peak_terms, mode_sum_terms, peak_terms, sum_terms, FeatMode};
use crate::scalar::{exact, lemma_exact_ratio, lemma_exact_units, Exact, Scalar};
use crate::ssim::{device_error, reference_error, ssim_error};
use crate::window::Moments;

verus! {

/// The larger of two numbers.
pub open spec fn larger(a: real, b: real) -> real {
    if a < b {
        b
    } else {
        a
    }
}

/// How far two numbers lie apart.
pub open spec fn distance(a: real, b: real) -> real {
    if a < b {
        b - a
    } else {
        a - b
    }
}

/// The sum of `f` over the first `n` numbers, from zero on.
pub open spec fn sum(n: nat, f: spec_fn(int) -> real) -> real
    decreases n,
{
    if n == 0 {
        0 as real
    } else {
        sum((n - 1) as nat, f) + f(n - 1)
    }
}

/// Nine ten-thousandths.
proof fn lemma_c2() -> (c2: real)
    ensures
        c2 == Exact::spec_ratio(9, 10000).value@,
        c2 == 9 as real / 10000 as real,
        c2 * 10000 as real == 9 as real,
{
    lemma_exact_ratio(9, 10000);
    let c2 = Exact::spec_ratio(9, 10000).value@;
    assert(9u32 as real == 9 as real && 10000u32 as real == 10000 as real);
    c2
}

/// The structural-similarity error of exact moments: one less the product of the closeness of
/// the means and of the structure term, over the variances, and nothing below zero. Only
/// moments with a denominator of zero are left out.
pub proof fn law_error_in_reals(m: Moments<Exact>)
    ensures
        ({
            let (mu1, mu2, ssq, s12) = (m.mu1.value@, m.mu2.value@, m.ssq.value@, m.s12.value@);
            let c2 = 9 as real / 10000 as real;
            let d = ssq - mu1 * mu1 - mu2 * mu2 + c2;
            let closeness = 1 as real - (mu1 - mu2) * (mu1 - mu2);
            let structure = 2 as real * (s12 - mu1 * mu2) + c2;
            d != 0 as real ==> ssim_error(m).value@ == larger(
                0 as real,
                1 as real - closeness * structure / d,
            )
        }),
{
    let (mu1, mu2, ssq, s12) = (m.mu1.value@, m.mu2.value@, m.ssq.value@, m.s12.value@);
    let c2 = lemma_c2();
    lemma_exact_units();
    lemma_exact_ratio(2, 1);
    assert(Exact::spec_ratio(2, 1).value@ == 2 as real);
    assert((mu1 - mu2) * (-(mu1 - mu2)) == -((mu1 - mu2) * (mu1 - mu2))) by (nonlinear_arith);
    assert((-mu1) * mu2 == -(mu1 * mu2)) by (nonlinear_arith);
    assert((-mu1) * mu1 == -(mu1 * mu1)) by (nonlinear_arith);
    assert((-mu2) * mu2 == -(mu2 * mu2)) by (nonlinear_arith);
    let structure = 2 as real * ((-mu1) * mu2 + s12) + c2;
    assert(structure == 2 as real * (s12 - mu1 * mu2) + c2);
    let d = (-mu2) * mu2 + ((-mu1) * mu1 + ssq) + c2;
    assert(d == ssq - mu1 * mu1 - mu2 * mu2 + c2);
    let closeness = (mu1 - mu2) * (-(mu1 - mu2)) + 1 as real;
    assert(closeness == 1 as real - (mu1 - mu2) * (mu1 - mu2));
}

/// The error of exact moments goes beyond one wherever the structure term is negative: it is
/// held to no upper limit. It is zero exactly where the similarity is one or more.
pub proof fn law_error_has_no_upper_limit(m: Moments<Exact>)
    ensures
        ({
            let (mu1, mu2, ssq, s12) = (m.mu1.value@, m.mu2.value@, m.ssq.value@, m.s12.value@);
            let c2 = 9 as real / 10000 as real;
            let d = ssq - mu1 * mu1 - mu2 * mu2 + c2;
            let closeness = 1 as real - (mu1 - mu2) * (mu1 - mu2);
            let structure = 2 as real * (s12 - mu1 * mu2) + c2;
            d > 0 as real ==> {
                &&& closeness > 0 as real && structure < 0 as real ==> ssim_error(m).value@ > 1 as real
                &&& closeness * structure < d ==> ssim_error(m).value@ * d == d - closeness
                    * structure
                &&& closeness * structure >= d ==> ssim_error(m).value@ == 0 as real
            }
        }),
{
    law_error_in_reals(m);
    let (mu1, mu2, ssq, s12) = (m.mu1.value@, m.mu2.value@, m.ssq.value@, m.s12.value@);
    let c2 = 9 as real / 10000 as real;
    let d = ssq - mu1 * mu1 - mu2 * mu2 + c2;
    let closeness = 1 as real - (mu1 - mu2) * (mu1 - mu2);
    let structure = 2 as real * (s12 - mu1 * mu2) + c2;
    let product = closeness * structure;
    if d > 0 as real {
        lemma_quotient(product, d);
        if closeness > 0 as real && structure < 0 as real {
            assert(product < 0 as real) by (nonlinear_arith)
                requires
                    product == closeness * structure,
                    closeness > 0 as real,
                    structure < 0 as real,
            ;
        }
        if product < d {
            let q = product / d;
            let e = 1 as real - q;
            assert(e * d == d - q * d) by (nonlinear_arith)
                requires
                    e == 1 as real - q,
            ;
        }
    }
}

/// A quotient by a positive number: what it multiplies back to, its sign, and whether it is
/// below one.
proof fn lemma_quotient(p: real, d: real)
    requires
        d > 0 as real,
    ensures
        (p / d) * d == p,
        p < 0 as real <==> p / d < 0 as real,
        p < d <==> p / d < 1 as real,
        p == d <==> p / d == 1 as real,
        p == 0 as real <==> p / d == 0 as real,
{
    let q = p / d;
    assert(q * d == p) by (nonlinear_arith)
        requires
            d > 0 as real,
            q == p / d,
    ;
    assert(p < 0 as real <==> q < 0 as real) by (nonlinear_arith)
        requires
            d > 0 as real,
            q * d == p,
    ;
    assert(p < d <==> q < 1 as real) by (nonlinear_arith)
        requires
            d > 0 as real,
            q * d == p,
    ;
    assert(p == d <==> q == 1 as real) by (nonlinear_arith)
        requires
            d > 0 as real,
            q * d == p,
    ;
    assert(p == 0 as real <==> q == 0 as real) by (nonlinear_arith)
        requires
            d > 0 as real,
            q * d == p,
    ;
}

/// Before rounding, the weighted error of a pixel is the sum of the errors of its three
/// channels, each times its weight, on the host and on the device.
pub proof fn law_weighted_error_in_reals(
    planes: Seq<Moments<Exact>>,
    pad_total: int,
    w: Seq<Exact>,
    idx: int,
)
    ensures
        ({
            let x = w[0].value@ * ssim_error(planes[idx]).value@;
            let y = w[1].value@ * ssim_error(planes[idx + pad_total]).value@;
            let b = w[2].value@ * ssim_error(planes[idx + 2 * pad_total]).value@;
            &&& reference_error(planes, pad_total, w, idx).value@ == x + y + b
            &&& device_error(planes, pad_total, w, idx).value@ == x + y + b
        }),
{
    lemma_exact_units();
}

/// An exact number times one is itself.
proof fn lemma_times_one(x: Exact)
    ensures
        x.spec_times(exact(1 as real)) == x,
{
    assert(x.value@ * 1 as real == x.value@) by (nonlinear_arith);
}

/// The square of how far two numbers lie apart is the square of their difference.
proof fn lemma_distance_squared(a: real, b: real)
    ensures
        distance(a, b) * distance(a, b) == (a - b) * (a - b),
        distance(a, b) >= 0 as real,
{
    assert((b - a) * (b - a) == (a - b) * (a - b)) by (nonlinear_arith);
}

/// What the artifact and the lost detail of a pixel are, by how far the samples lie from their
/// means.
proof fn lemma_edge(m: Moments<Exact>, sv: Exact, dv: Exact)
    ensures
        ({
            let a = distance(sv.value@, m.mu1.value@);
            let b = distance(dv.value@, m.mu2.value@);
            let terms = peak_terms(m, sv, dv, true);
            &&& terms[1].value@ * (1 as real + a) == larger(0 as real, b - a)
            &&& terms[2].value@ * (1 as real + a) == larger(0 as real, a - b)
            &&& terms[1].value@ >= 0 as real && terms[2].value@ >= 0 as real
            &&& terms[1].value@ > 0 as real <==> b > a
            &&& terms[2].value@ > 0 as real <==> a > b
        }),
{
    lemma_exact_units();
    let a = distance(sv.value@, m.mu1.value@);
    let b = distance(dv.value@, m.mu2.value@);
    let terms = peak_terms(m, sv, dv, true);
    lemma_distance_squared(sv.value@, m.mu1.value@);
    lemma_distance_squared(dv.value@, m.mu2.value@);
    lemma_quotient(1 as real + b, 1 as real + a);
    let q = (1 as real + b) / (1 as real + a);
    let ed = q - 1 as real;
    assert(ed * (1 as real + a) == q * (1 as real + a) - (1 as real + a)) by (nonlinear_arith)
        requires
            ed == q - 1 as real,
    ;
    assert((-ed) * (1 as real + a) == -(ed * (1 as real + a))) by (nonlinear_arith);
    assert(ed < 0 as real <==> b < a);
    assert(ed == 0 as real <==> b == a);
    let artifact = if ed > 0 as real { ed } else { 0 as real };
    let lost = if ed < 0 as real { -ed } else { 0 as real };
    lemma_times_one(exact(artifact));
    lemma_times_one(exact(lost));
    assert(terms[1] == exact(artifact));
    assert(terms[2] == exact(lost));
    assert(0 as real * (1 as real + a) == 0 as real) by (nonlinear_arith);
}

/// The terms of a pixel in a row that counts, in exact numbers. The departures of the two
/// samples from their means are magnitudes, whichever way the samples depart, and their squares
/// are kept beside them. The artifact is how much further the distorted sample departs, the lost
/// detail how much less far, both against one and the departure of the source. The squares, the
/// fourth and the eighth powers of the error, the artifact and the lost detail are kept too.
pub proof fn law_terms_in_reals(m: Moments<Exact>, sv: Exact, dv: Exact)
    ensures
        ({
            let t = sum_terms(m, sv, dv, true);
            let a = distance(sv.value@, m.mu1.value@);
            let b = distance(dv.value@, m.mu2.value@);
            &&& t.len() == 17
            &&& t[12].value@ == a && t[13].value@ == b
            &&& t[12].value@ * t[12].value@ == t[10].value@
            &&& t[13].value@ * t[13].value@ == t[11].value@
            &&& t[9].value@ == (sv.value@ - dv.value@) * (sv.value@ - dv.value@)
            &&& t[0] == ssim_error(m)
            &&& t[3].value@ * (1 as real + a) == larger(0 as real, b - a)
            &&& t[6].value@ * (1 as real + a) == larger(0 as real, a - b)
        }),
        ({
            let t = sum_terms(m, sv, dv, true);
            &&& t[2].value@ == t[0].value@ * t[0].value@
            &&& t[1].value@ == t[2].value@ * t[2].value@
            &&& t[14].value@ == t[1].value@ * t[1].value@
            &&& t[5].value@ == t[3].value@ * t[3].value@
            &&& t[4].value@ == t[5].value@ * t[5].value@
            &&& t[15].value@ == t[4].value@ * t[4].value@
            &&& t[8].value@ == t[6].value@ * t[6].value@
            &&& t[7].value@ == t[8].value@ * t[8].value@
            &&& t[16].value@ == t[7].value@ * t[7].value@
        }),
        ({
            let t = sum_terms(m, sv, dv, true);
            let p = peak_terms(m, sv, dv, true);
            p.len() == 3 && p[0] == t[0] && p[1] == t[3] && p[2] == t[6]
        }),
{
    lemma_exact_units();
    lemma_edge(m, sv, dv);
    lemma_times_one(ssim_error(m));
    lemma_times_one(sv.spec_minus(dv));
    lemma_times_one(sv.spec_minus(m.mu1));
    lemma_times_one(dv.spec_minus(m.mu2));
    lemma_times_one(sv.spec_minus(m.mu1).spec_magnitude());
    lemma_times_one(dv.spec_minus(m.mu2).spec_magnitude());
    lemma_distance_squared(sv.value@, m.mu1.value@);
    lemma_distance_squared(dv.value@, m.mu2.value@);
}

/// Before rounding, a pixel has an artifact exactly where the distorted sample departs further
/// from its mean than the source sample does, and has lost detail exactly where it departs less
/// far: neither, where the two departures are the same.
pub proof fn law_equal_departures_have_neither(m: Moments<Exact>, sv: Exact, dv: Exact)
    ensures
        ({
            let (artifact, lost) = (peak_terms(m, sv, dv, true)[1], peak_terms(m, sv, dv, true)[2]);
            let a = distance(sv.value@, m.mu1.value@);
            let b = distance(dv.value@, m.mu2.value@);
            &&& a == b ==> artifact.value@ == 0 as real && lost.value@ == 0 as real
            &&& a < b <==> artifact.value@ > 0 as real
            &&& b < a <==> lost.value@ > 0 as real
            &&& artifact.value@ >= 0 as real && lost.value@ >= 0 as real
        }),
{
    lemma_edge(m, sv, dv);
}

/// Two numbers that one positive number multiplies to the same are the same.
proof fn lemma_cancel(x: real, y: real, d: real)
    requires
        x * d == y * d,
        d > 0 as real,
    ensures
        x == y,
{
    assert(x == y) by (nonlinear_arith)
        requires
            x * d == y * d,
            d > 0 as real,
    ;
}

/// Before rounding, negating both samples and both means leaves the artifact and the lost detail
/// unchanged.
pub proof fn law_edges_ignore_sign(m: Moments<Exact>, sv: Exact, dv: Exact, ssq: Exact, s12: Exact)
    ensures
        ({
            let n = Moments { mu1: exact(-m.mu1.value@), mu2: exact(-m.mu2.value@), ssq, s12 };
            let was = peak_terms(m, sv, dv, true);
            let now = peak_terms(n, exact(-sv.value@), exact(-dv.value@), true);
            was[1] == now[1] && was[2] == now[2]
        }),
{
    let n = Moments { mu1: exact(-m.mu1.value@), mu2: exact(-m.mu2.value@), ssq, s12 };
    lemma_same_edges(m, sv, dv, n, exact(-sv.value@), exact(-dv.value@));
}

/// Before rounding, moving a sample and its mean by the same amount leaves the artifact and the
/// lost detail unchanged.
pub proof fn law_edges_ignore_level(
    m: Moments<Exact>,
    sv: Exact,
    dv: Exact,
    s: real,
    d: real,
    ssq: Exact,
    s12: Exact,
)
    ensures
        ({
            let n = Moments {
                mu1: exact(m.mu1.value@ + s),
                mu2: exact(m.mu2.value@ + d),
                ssq,
                s12,
            };
            let was = peak_terms(m, sv, dv, true);
            let now = peak_terms(n, exact(sv.value@ + s), exact(dv.value@ + d), true);
            was[1] == now[1] && was[2] == now[2]
        }),
{
    let n = Moments { mu1: exact(m.mu1.value@ + s), mu2: exact(m.mu2.value@ + d), ssq, s12 };
    lemma_same_edges(m, sv, dv, n, exact(sv.value@ + s), exact(dv.value@ + d));
}

/// Pixels whose samples lie as far from their means have the same artifact and lost detail.
proof fn lemma_same_edges(
    m: Moments<Exact>,
    sv: Exact,
    dv: Exact,
    n: Moments<Exact>,
    nsv: Exact,
    ndv: Exact,
)
    requires
        distance(sv.value@, m.mu1.value@) == distance(nsv.value@, n.mu1.value@),
        distance(dv.value@, m.mu2.value@) == distance(ndv.value@, n.mu2.value@),
    ensures
        peak_terms(m, sv, dv, true)[1] == peak_terms(n, nsv, ndv, true)[1],
        peak_terms(m, sv, dv, true)[2] == peak_terms(n, nsv, ndv, true)[2],
{
    lemma_edge(m, sv, dv);
    lemma_edge(n, nsv, ndv);
    let a = distance(sv.value@, m.mu1.value@);
    let (was, now) = (peak_terms(m, sv, dv, true), peak_terms(n, nsv, ndv, true));
    lemma_cancel(was[1].value@, now[1].value@, 1 as real + a);
    lemma_cancel(was[2].value@, now[2].value@, 1 as real + a);
}

/// Which terms of a pixel each mode takes: all of them, none, or the blurred source alone,
/// whether its row counts or not.
pub proof fn law_modes_take_their_terms<F: Scalar>(m: Moments<F>, sv: F, dv: F, is_body: bool)
    ensures
        mode_sum_terms(FeatMode::Full, m, sv, dv, is_body) == sum_terms(m, sv, dv, is_body),
        mode_sum_terms(FeatMode::Full, m, sv, dv, is_body).len() == 17,
        mode_sum_terms(FeatMode::BlurOnly, m, sv, dv, is_body).len() == 0,
        mode_sum_terms(FeatMode::BlurF64, m, sv, dv, is_body) == seq![m.mu1],
        mode_peak_terms(FeatMode::Full, m, sv, dv, is_body) == peak_terms(m, sv, dv, is_body),
        mode_peak_terms(FeatMode::Full, m, sv, dv, is_body).len() == 3,
        mode_peak_terms(FeatMode::BlurOnly, m, sv, dv, is_body).len() == 0,
        mode_peak_terms(FeatMode::BlurF64, m, sv, dv, is_body).len() == 0,
{
}

} // verus!
