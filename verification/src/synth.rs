//! Synthetic inputs: smooth, different at every level, plane and channel, and the same
//! in every run.
//!
//! A sample is a sum of waves: sines and cosines of angles that follow from its place. The
//! functions that turn an angle into a wave are the caller's.
use vstd::arithmetic::div_mod::lemma_fundamental_div_mod_converse;
use vstd::arithmetic::power2::lemma2_to64;
use vstd::prelude::*;

use crate::digits::{
    lemma_power, lemma_power_adds, lemma_rounding_error, lemma_zero_is_kept, power, rounded,
};
use crate::scalar::{exact, lemma_exact_ratio, lemma_exact_units, zero, Exact, Scalar};
use crate::rounding::lemma_product_size;
use crate::single::{law_rounded_numbers_round_to_themselves, lemma_zero, Single};

verus! {

/// A whole number.
pub open spec fn whole<F: Scalar>(n: int) -> F {
    F::spec_ratio(n as u32, 1)
}

/// The phase of moment plane `plane` of level `scale` in channel `channel`.
pub open spec fn moment_phase(scale: int, plane: int, channel: int) -> int {
    scale * 7 + plane * 3 + channel * 5
}

/// The angles of the two waves of sample `idx` of a moment plane: of the one that sets its
/// level, and of the one that runs along the channel.
pub open spec fn moment_angles<F: Scalar>(scale: int, plane: int, idx: int, pt: int) -> (F, F) {
    (
        whole(moment_phase(scale, plane, idx / pt)),
        whole::<F>(idx % pt).spec_times(F::spec_ratio(13, 1000)).spec_plus(whole(plane)),
    )
}

/// A sample of a moment plane, from the sines of its two angles.
pub open spec fn moment_sample<F: Scalar>(sines: (F, F)) -> F {
    F::spec_ratio(4, 10).spec_plus(F::spec_ratio(15, 100).spec_times(sines.0)).spec_plus(
        F::spec_ratio(1, 100).spec_times(sines.1),
    )
}

/// The phase of an image at level `scale` in channel `channel`.
pub open spec fn image_phase(scale: int, channel: int) -> int {
    scale * 3 + channel * 5
}

/// The angles of the two waves of the pixel at column `x`, row `y` of an image: of the wave
/// that both images have, and of the one that the distorted image has beside it.
pub open spec fn image_angles<F: Scalar>(scale: int, channel: int, x: int, y: int) -> (F, F) {
    let (fx, fy) = (whole::<F>(x), whole::<F>(y));
    (
        whole::<F>(image_phase(scale, channel)).spec_plus(
            fx.spec_times(F::spec_ratio(5, 100)),
        ).spec_plus(fy.spec_times(F::spec_ratio(7, 100))),
        fx.spec_times(F::spec_ratio(11, 100)).spec_plus(fy.spec_times(F::spec_ratio(9, 100))),
    )
}

/// A pixel, from the sine of its first angle and the cosine of its second.
pub open spec fn image_sample<F: Scalar>(distorted: bool, waves: (F, F)) -> F {
    let distortion = if distorted {
        F::spec_ratio(3, 100).spec_times(waves.1)
    } else {
        zero()
    };
    F::spec_ratio(3, 10).spec_plus(F::spec_ratio(2, 10).spec_times(waves.0)).spec_plus(distortion)
}

/// `v` is sample `idx` of moment plane `plane` of level `scale`, `pt` samples a channel, with
/// waves that `sin` gives.
pub open spec fn is_moment_sample<F: Scalar, S: Fn(F) -> F>(
    sin: S,
    scale: int,
    plane: int,
    idx: int,
    pt: int,
    v: F,
) -> bool {
    let angles = moment_angles::<F>(scale, plane, idx, pt);
    exists|a: F, b: F|
        call_ensures(sin, (angles.0,), a) && call_ensures(sin, (angles.1,), b) && v
            == #[trigger] moment_sample((a, b))
}

/// `v` is the pixel at column `x`, row `y` of channel `channel` of an image of level `scale`,
/// with waves that `sin` and `cos` give: of the distorted image or of the source.
pub open spec fn is_image_sample<F: Scalar, S: Fn(F) -> F, C: Fn(F) -> F>(
    sin: S,
    cos: C,
    scale: int,
    channel: int,
    distorted: bool,
    x: int,
    y: int,
    v: F,
) -> bool {
    let angles = image_angles::<F>(scale, channel, x, y);
    exists|a: F, b: F|
        call_ensures(sin, (angles.0,), a) && (distorted ==> call_ensures(cos, (angles.1,), b)) && v
            == #[trigger] image_sample(distorted, (a, b))
}

/// One sample of a synthetic moment plane.
pub fn synth<F: Scalar, S: Fn(F) -> F + Copy>(
    scale: usize,
    plane: usize,
    idx: usize,
    pt: usize,
    sin: S,
) -> (v: F)
    requires
        0 < pt <= u32::MAX,
        moment_phase(scale as int, plane as int, idx as int / pt as int) <= u32::MAX,
        forall|a: F| call_requires(sin, (a,)),
    ensures
        is_moment_sample(sin, scale as int, plane as int, idx as int, pt as int, v),
{
    let ch: usize = idx / pt;
    let i: usize = idx % pt;
    let phase: u32 = scale as u32 * 7 + plane as u32 * 3 + ch as u32 * 5;
    let a = sin(F::ratio(phase, 1));
    let base = F::ratio(4, 10).plus(F::ratio(15, 100).times(a));
    let b = sin(F::ratio(i as u32, 1).times(F::ratio(13, 1000)).plus(F::ratio(plane as u32, 1)));
    let v = base.plus(F::ratio(1, 100).times(b));
    assert(v == moment_sample((a, b)));
    v
}

/// One pixel of a synthetic image: of the distorted image where `side` is one, else of the
/// source.
pub fn synth_xyb<F: Scalar, S: Fn(F) -> F + Copy, C: Fn(F) -> F + Copy>(
    scale: usize,
    channel: usize,
    side: usize,
    x: usize,
    y: usize,
    sin: S,
    cos: C,
) -> (v: F)
    requires
        x <= u32::MAX,
        y <= u32::MAX,
        image_phase(scale as int, channel as int) <= u32::MAX,
        forall|a: F| call_requires(sin, (a,)),
        forall|a: F| call_requires(cos, (a,)),
    ensures
        is_image_sample(
            sin,
            cos,
            scale as int,
            channel as int,
            side == 1,
            x as int,
            y as int,
            v,
        ),
{
    let fx = F::ratio(x as u32, 1);
    let fy = F::ratio(y as u32, 1);
    let phase: u32 = scale as u32 * 3 + channel as u32 * 5;
    let a = sin(
        F::ratio(phase, 1).plus(fx.times(F::ratio(5, 100))).plus(fy.times(F::ratio(7, 100))),
    );
    let base = F::ratio(3, 10).plus(F::ratio(2, 10).times(a));
    if side == 1 {
        let b = cos(fx.times(F::ratio(11, 100)).plus(fy.times(F::ratio(9, 100))));
        let v = base.plus(F::ratio(3, 100).times(b));
        assert(v == image_sample(true, (a, b)));
        v
    } else {
        let v = base.plus(F::ratio(0, 1));
        assert(v == image_sample(false, (a, a)));
        v
    }
}

/// Moment plane `plane` of level `scale`: three channels of `pt` samples.
pub fn moment_plane<F: Scalar, S: Fn(F) -> F + Copy>(
    scale: usize,
    plane: usize,
    pt: usize,
    sin: S,
) -> (r: Vec<F>)
    requires
        3 * pt <= usize::MAX,
        pt <= u32::MAX,
        moment_phase(scale as int, plane as int, 2) <= u32::MAX,
        forall|a: F| call_requires(sin, (a,)),
    ensures
        r@.len() == 3 * pt,
        forall|i: int|
            0 <= i < r@.len() ==> is_moment_sample(
                sin,
                scale as int,
                plane as int,
                i,
                pt as int,
                #[trigger] r@[i],
            ),
{
    let mut r: Vec<F> = Vec::new();
    while r.len() < 3 * pt
        invariant
            r@.len() <= 3 * pt <= usize::MAX,
            pt <= u32::MAX,
            moment_phase(scale as int, plane as int, 2) <= u32::MAX,
            forall|a: F| call_requires(sin, (a,)),
            forall|i: int|
                0 <= i < r@.len() ==> is_moment_sample(
                    sin,
                    scale as int,
                    plane as int,
                    i,
                    pt as int,
                    #[trigger] r@[i],
                ),
        decreases 3 * pt - r.len(),
    {
        let idx: usize = r.len();
        assert(idx as int / pt as int <= 2) by (nonlinear_arith)
            requires
                0 <= idx < 3 * pt,
        ;
        r.push(synth(scale, plane, idx, pt, sin));
    }
    r
}

/// Channel `channel` of an image of level `scale`, `pw` by `ph`, row by row.
pub fn image_plane<F: Scalar, S: Fn(F) -> F + Copy, C: Fn(F) -> F + Copy>(
    scale: usize,
    channel: usize,
    side: usize,
    pw: usize,
    ph: usize,
    sin: S,
    cos: C,
) -> (r: Vec<F>)
    requires
        pw * ph <= usize::MAX,
        pw <= u32::MAX,
        ph <= u32::MAX,
        image_phase(scale as int, channel as int) <= u32::MAX,
        forall|a: F| call_requires(sin, (a,)),
        forall|a: F| call_requires(cos, (a,)),
    ensures
        r@.len() == pw * ph,
        forall|i: int|
            0 <= i < r@.len() ==> is_image_sample(
                sin,
                cos,
                scale as int,
                channel as int,
                side == 1,
                i % pw as int,
                i / pw as int,
                #[trigger] r@[i],
            ),
{
    let mut r: Vec<F> = Vec::new();
    let mut y: usize = 0;
    while y < ph
        invariant
            y <= ph <= u32::MAX,
            pw <= u32::MAX,
            image_phase(scale as int, channel as int) <= u32::MAX,
            forall|a: F| call_requires(sin, (a,)),
            forall|a: F| call_requires(cos, (a,)),
            r@.len() == y * pw,
            forall|i: int|
                0 <= i < r@.len() ==> is_image_sample(
                    sin,
                    cos,
                    scale as int,
                    channel as int,
                    side == 1,
                    i % pw as int,
                    i / pw as int,
                    #[trigger] r@[i],
                ),
        decreases ph - y,
    {
        let mut x: usize = 0;
        while x < pw
            invariant
                y < ph <= u32::MAX,
                x <= pw <= u32::MAX,
                image_phase(scale as int, channel as int) <= u32::MAX,
                forall|a: F| call_requires(sin, (a,)),
                forall|a: F| call_requires(cos, (a,)),
                r@.len() == y * pw + x,
                forall|i: int|
                    0 <= i < r@.len() ==> is_image_sample(
                        sin,
                        cos,
                        scale as int,
                        channel as int,
                        side == 1,
                        i % pw as int,
                        i / pw as int,
                        #[trigger] r@[i],
                    ),
            decreases pw - x,
        {
            proof {
                lemma_fundamental_div_mod_converse(y * pw + x, pw as int, y as int, x as int);
            }
            r.push(synth_xyb(scale, channel, side, x, y, sin, cos));
            x += 1;
        }
        assert(y * pw + pw == (y + 1) * pw) by (nonlinear_arith);
        y += 1;
    }
    assert(ph * pw == pw * ph) by (nonlinear_arith);
    r
}

// ───────────── before rounding, where the samples lie ─────────────

/// Within `by` of zero.
pub open spec fn within(x: real, by: real) -> bool {
    -by <= x <= by
}

/// A ratio of a wave within one of zero is within the ratio of zero.
proof fn lemma_wave(num: u32, den: u32, wave: Exact)
    requires
        den != 0,
        within(wave.value@, 1 as real),
    ensures
        ({
            let r = Exact::spec_ratio(num, den);
            &&& r.value@ * den as real == num as real
            &&& within(r.spec_times(wave).value@, r.value@)
        }),
{
    lemma_exact_ratio(num, den);
    let (r, w, n, d) = (
        Exact::spec_ratio(num, den).value@,
        wave.value@,
        num as real,
        den as real,
    );
    assert(r >= 0 as real) by (nonlinear_arith)
        requires
            r * d == n,
            n >= 0 as real,
            d > 0 as real,
    ;
    let (gap, lift) = (1 as real - w, 1 as real + w);
    assert(r * gap >= 0 as real) by (nonlinear_arith)
        requires
            r >= 0 as real,
            gap >= 0 as real,
    ;
    assert(r * lift >= 0 as real) by (nonlinear_arith)
        requires
            r >= 0 as real,
            lift >= 0 as real,
    ;
    assert(r * (1 as real - w) == r - r * w) by (nonlinear_arith);
    assert(r * (1 as real + w) == r + r * w) by (nonlinear_arith);
}

/// Before rounding, and with sines and cosines within one of zero, the samples of the source
/// lie between 1/10 and 5/10, and the distorted sample is within 3/100 of the source sample,
/// whatever the level, the channel and the place.
pub proof fn law_image_samples_lie_close(waves: (Exact, Exact))
    requires
        within(waves.0.value@, 1 as real),
        within(waves.1.value@, 1 as real),
    ensures
        ({
            let source = image_sample::<Exact>(false, waves).value@;
            let distorted = image_sample::<Exact>(true, waves).value@;
            &&& 1 as real <= source * 10 as real <= 5 as real
            &&& within((distorted - source) * 100 as real, 3 as real)
        }),
{
    lemma_wave(2, 10, waves.0);
    lemma_wave(3, 100, waves.1);
    lemma_exact_ratio(3, 10);
    lemma_exact_units();
}

/// Before rounding, and with sines within one of zero, the samples of a moment plane lie
/// between 24/100 and 56/100.
pub proof fn law_moment_samples_lie_close(sines: (Exact, Exact))
    requires
        within(sines.0.value@, 1 as real),
        within(sines.1.value@, 1 as real),
    ensures
        24 as real <= moment_sample::<Exact>(sines).value@ * 100 as real <= 56 as real,
{
    lemma_wave(15, 100, sines.0);
    lemma_wave(1, 100, sines.1);
    lemma_exact_ratio(4, 10);
}

// ───────────── in twenty-four digits, where the samples lie ─────────────

/// What the functions that give the waves have in common: to every angle one wave, within one
/// of zero.
pub open spec fn gives_waves<S: Fn(Single) -> Single>(f: S) -> bool {
    &&& forall|angle: Single, w: Single| #[trigger]
        call_ensures(f, (angle,), w) ==> within(w.value@, 1 as real)
    &&& forall|angle: Single, w: Single, v: Single|
        #![trigger call_ensures(f, (angle,), w), call_ensures(f, (angle,), v)]
        call_ensures(f, (angle,), w) && call_ensures(f, (angle,), v) ==> w == v
}

/// At most a millionth apart.
pub open spec fn close(x: real, y: real) -> bool {
    within((x - y) * 1000000 as real, 1 as real)
}

/// A number below one is rounded by less than a millionth.
proof fn lemma_small_error(x: real)
    requires
        within(x, 9 as real / 10 as real),
    ensures
        close(rounded(24, x), x),
{
    lemma_power(0);
    lemma2_to64();
    lemma_power_adds(-25, 25);
    let nine = 9 as real / 10 as real;
    assert(nine * 10 as real == 9 as real);
    lemma_rounding_error(24, x, 0);
    let (p, c) = (power(-25), power(25));
    assert(c == 33554432 as real);
    assert(p * c == 1 as real);
    assert(p * 33554432 as real == 1 as real);
    let d = rounded(24, x) - x;
    assert(-p <= d <= p);
    assert(-(1 as real) <= d * 1000000 as real <= 1 as real) by (nonlinear_arith)
        requires
            p * 33554432 as real == 1 as real,
            -p <= d <= p,
    ;
}

/// A ratio below one, rounded.
proof fn lemma_small_ratio(num: u32, den: u32)
    requires
        0 < den,
        10 * num <= 9 * den,
    ensures
        ({
            let r = Single::spec_ratio(num, den).value@;
            let q = num as real / den as real;
            &&& q * den as real == num as real
            &&& q >= 0 as real
            &&& close(r, q)
        }),
{
    let (n, d) = (num as real, den as real);
    let q = n / d;
    assert(q * d == n) by (nonlinear_arith)
        requires
            d > 0 as real,
            q == n / d,
    ;
    assert(q >= 0 as real) by (nonlinear_arith)
        requires
            q * d == n,
            d > 0 as real,
            n >= 0 as real,
    ;
    let nine = 9 as real / 10 as real;
    assert(nine * 10 as real == 9 as real);
    assert(n * 10 as real <= d * 9 as real);
    assert(q <= nine) by (nonlinear_arith)
        requires
            q * d == n,
            n * 10 as real <= d * 9 as real,
            nine * 10 as real == 9 as real,
            d > 0 as real,
    ;
    lemma_small_error(q);
}

/// A ratio below one, rounded, times a wave, rounded.
proof fn lemma_single_wave(num: u32, den: u32, wave: Single)
    requires
        0 < den,
        2 * num <= den,
        within(wave.value@, 1 as real),
    ensures
        ({
            let q = num as real / den as real;
            &&& q * den as real == num as real
            &&& within(
                Single::spec_ratio(num, den).spec_times(wave).value@ * 1000000 as real,
                q * 1000000 as real + 2 as real,
            )
        }),
{
    lemma_small_ratio(num, den);
    let (n, d) = (num as real, den as real);
    let q = n / d;
    let r = Single::spec_ratio(num, den).value@;
    let w = wave.value@;
    assert(n * 2 as real <= d);
    assert(q * 2 as real <= 1 as real) by (nonlinear_arith)
        requires
            q * d == n,
            n * 2 as real <= d,
            d > 0 as real,
    ;
    let most = if r < 0 as real {
        -r
    } else {
        r
    };
    lemma_product_size(r, w, most, 1 as real);
    assert(most * 1 as real == most);
    let nine = 9 as real / 10 as real;
    assert(nine * 10 as real == 9 as real);
    lemma_small_error(r * w);
}

/// In twenty-four digits, and with waves within one of zero, the samples of the source lie
/// between 999/10000 and 5001/10000, and the distorted sample is within 3001/100000 of the
/// source sample.
pub proof fn lemma_single_image_samples(a: Single, b: Single, c: Single)
    requires
        within(a.value@, 1 as real),
        within(b.value@, 1 as real),
    ensures
        ({
            let source = image_sample::<Single>(false, (a, c)).value@;
            let distorted = image_sample::<Single>(true, (a, b)).value@;
            &&& 999 as real <= source * 10000 as real <= 5001 as real
            &&& within((distorted - source) * 100000 as real, 3001 as real)
        }),
{
    lemma_zero::<24>();
    lemma_small_ratio(3, 10);
    lemma_single_wave(2, 10, a);
    lemma_single_wave(3, 100, b);
    let nine = 9 as real / 10 as real;
    assert(nine * 10 as real == 9 as real);
    let r = Single::spec_ratio(3, 10).value@;
    let p = Single::spec_ratio(2, 10).spec_times(a).value@;
    let d = Single::spec_ratio(3, 100).spec_times(b).value@;
    lemma_small_error(r + p);
    let q = rounded(24, r + p);
    lemma_small_error(q + 0 as real);
    lemma_small_error(q + d);
    assert(image_sample::<Single>(false, (a, c)).value@ == rounded(24, q + 0 as real));
    assert(image_sample::<Single>(true, (a, b)).value@ == rounded(24, q + d));
}

/// In twenty-four digits, and with waves within one of zero, the samples of a moment plane lie
/// between 2399/10000 and 5601/10000.
proof fn lemma_single_moment_samples(a: Single, b: Single)
    requires
        within(a.value@, 1 as real),
        within(b.value@, 1 as real),
    ensures
        2399 as real <= moment_sample::<Single>((a, b)).value@ * 10000 as real <= 5601 as real,
{
    lemma_small_ratio(4, 10);
    lemma_single_wave(15, 100, a);
    lemma_single_wave(1, 100, b);
    let nine = 9 as real / 10 as real;
    assert(nine * 10 as real == 9 as real);
    let r = Single::spec_ratio(4, 10).value@;
    let p = Single::spec_ratio(15, 100).spec_times(a).value@;
    let d = Single::spec_ratio(1, 100).spec_times(b).value@;
    lemma_small_error(r + p);
    let q = rounded(24, r + p);
    lemma_small_error(q + d);
    assert(moment_sample::<Single>((a, b)).value@ == rounded(24, q + d));
}

/// In twenty-four digits, whatever the level, the channel and the place: a pixel of the source
/// lies between 999/10000 and 5001/10000, and the distorted pixel is within 3001/100000 of it.
pub proof fn law_single_image_samples_lie_close<
    S: Fn(Single) -> Single,
    C: Fn(Single) -> Single,
>(
    sin: S,
    cos: C,
    scale: int,
    channel: int,
    x: int,
    y: int,
    source: Single,
    distorted: Single,
)
    requires
        gives_waves(sin),
        gives_waves(cos),
        is_image_sample(sin, cos, scale, channel, false, x, y, source),
        is_image_sample(sin, cos, scale, channel, true, x, y, distorted),
    ensures
        999 as real <= source.value@ * 10000 as real <= 5001 as real,
        within((distorted.value@ - source.value@) * 100000 as real, 3001 as real),
{
    let angles = image_angles::<Single>(scale, channel, x, y);
    let (a, c) = choose|a: Single, c: Single|
        call_ensures(sin, (angles.0,), a) && source == #[trigger] image_sample(false, (a, c));
    let (a2, b) = choose|a2: Single, b: Single|
        call_ensures(sin, (angles.0,), a2) && call_ensures(cos, (angles.1,), b) && distorted
            == #[trigger] image_sample(true, (a2, b));
    assert(a == a2);
    lemma_single_image_samples(a, b, c);
}

/// In twenty-four digits, whatever the level and the place, a sample of a moment plane lies
/// between 2399/10000 and 5601/10000.
pub proof fn law_single_moment_samples_lie_close<S: Fn(Single) -> Single>(
    sin: S,
    scale: int,
    plane: int,
    idx: int,
    pt: int,
    v: Single,
)
    requires
        gives_waves(sin),
        is_moment_sample(sin, scale, plane, idx, pt, v),
    ensures
        2399 as real <= v.value@ * 10000 as real <= 5601 as real,
{
    let angles = moment_angles::<Single>(scale, plane, idx, pt);
    let (a, b) = choose|a: Single, b: Single|
        call_ensures(sin, (angles.0,), a) && call_ensures(sin, (angles.1,), b) && v
            == #[trigger] moment_sample((a, b));
    lemma_single_moment_samples(a, b);
}

/// In twenty-four digits, and with a sine that is zero at zero, the first pixel of the source of
/// the first channel and level is 3/10, rounded.
pub proof fn law_single_first_pixel<S: Fn(Single) -> Single, C: Fn(Single) -> Single>(
    sin: S,
    cos: C,
    v: Single,
)
    requires
        forall|w: Single| #[trigger]
            call_ensures(sin, (zero::<Single>(),), w) ==> w == zero::<Single>(),
        is_image_sample(sin, cos, 0, 0, false, 0, 0, v),
    ensures
        v == Single::spec_ratio(3, 10),
{
    lemma_zero::<24>();
    lemma_zero_is_kept(24);
    let z = zero::<Single>();
    let (five, seven, two) = (
        Single::spec_ratio(5, 100),
        Single::spec_ratio(7, 100),
        Single::spec_ratio(2, 10),
    );
    assert(0 as real * five.value@ == 0 as real);
    assert(0 as real * seven.value@ == 0 as real);
    assert(two.value@ * 0 as real == 0 as real);
    assert(z.spec_times(five) == z);
    assert(z.spec_times(seven) == z);
    assert(two.spec_times(z) == z);
    assert(z.spec_plus(z) == z);
    let angles = image_angles::<Single>(0, 0, 0, 0);
    assert(angles.0 == z);
    let (a, b) = choose|a: Single, b: Single|
        call_ensures(sin, (angles.0,), a) && v == #[trigger] image_sample(false, (a, b));
    let r = Single::spec_ratio(3, 10);
    law_rounded_numbers_round_to_themselves::<24>(3u32 as real / 10u32 as real);
    assert(r.value@ + 0 as real == r.value@);
    assert(r.spec_plus(z) == r);
}

proof fn lemma_exact_whole(n: int)
    requires
        0 <= n <= u32::MAX,
    ensures
        whole::<Exact>(n).value@ == n as real,
{
    lemma_exact_ratio(n as u32, 1);
    let v = whole::<Exact>(n).value@;
    assert(1u32 as real == 1 as real && (n as u32) as real == n as real);
    assert(v * 1 as real == v) by (nonlinear_arith);
}

/// An exact ratio times a number, times the denominator back.
proof fn lemma_part(num: u32, den: u32, x: real)
    requires
        den != 0,
    ensures
        (Exact::spec_ratio(num, den).value@ * x) * den as real == num as real * x,
        (x * Exact::spec_ratio(num, den).value@) * den as real == num as real * x,
{
    lemma_exact_ratio(num, den);
    let (r, d, n) = (Exact::spec_ratio(num, den).value@, den as real, num as real);
    assert((r * x) * d == (r * d) * x && (x * r) * d == (r * d) * x) by (nonlinear_arith);
}

/// Before rounding, the two waves of sample `i` of channel `channel` of a moment plane: the first
/// is at an angle of seven to a level, three to a plane and five to a channel, the second at one
/// of thirteen thousandths to a sample and one to a plane.
pub proof fn law_moment_angles_in_reals(scale: int, plane: int, channel: int, i: int, pt: int)
    requires
        0 <= i < pt <= u32::MAX,
        0 <= scale,
        0 <= plane,
        0 <= channel,
        7 * scale + 3 * plane + 5 * channel <= u32::MAX,
    ensures
        ({
            let angles = moment_angles::<Exact>(scale, plane, channel * pt + i, pt);
            &&& angles.0.value@ == (7 * scale + 3 * plane + 5 * channel) as real
            &&& angles.1.value@ * 1000 as real == (13 * i + 1000 * plane) as real
        }),
{
    lemma_fundamental_div_mod_converse(channel * pt + i, pt, channel, i);
    lemma_exact_whole(7 * scale + 3 * plane + 5 * channel);
    lemma_exact_whole(i);
    lemma_exact_whole(plane);
    lemma_part(13, 1000, i as real);
    let step = i as real * Exact::spec_ratio(13, 1000).value@;
    let p = plane as real;
    assert((step + p) * 1000 as real == step * 1000 as real + p * 1000 as real) by (nonlinear_arith);
}

/// Before rounding, a sample of a moment plane is four tenths, fifteen hundredths of its first
/// wave and one hundredth of its second.
pub proof fn law_moment_sample_in_reals(sines: (Exact, Exact))
    ensures
        moment_sample(sines).value@ * 100 as real == 40 as real + 15 as real * sines.0.value@
            + sines.1.value@,
{
    let (a, b) = (sines.0.value@, sines.1.value@);
    lemma_exact_ratio(4, 10);
    lemma_part(15, 100, a);
    lemma_part(1, 100, b);
    let base = Exact::spec_ratio(4, 10).value@;
    let (wa, wb) = (
        Exact::spec_ratio(15, 100).value@ * a,
        Exact::spec_ratio(1, 100).value@ * b,
    );
    assert((base + wa + wb) * 100 as real == base * 10 as real * 10 as real + wa * 100 as real + wb
        * 100 as real) by (nonlinear_arith);
    assert(1 as real * b == b) by (nonlinear_arith);
}

/// Before rounding, the two waves of the pixel at column `x`, row `y` of an image: the first is
/// at an angle of three to a level, five to a channel, five hundredths to a column and seven to a
/// row, the second at one of eleven hundredths to a column and nine to a row.
pub proof fn law_image_angles_in_reals(scale: int, channel: int, x: int, y: int)
    requires
        0 <= x <= u32::MAX,
        0 <= y <= u32::MAX,
        0 <= scale,
        0 <= channel,
        3 * scale + 5 * channel <= u32::MAX,
    ensures
        ({
            let angles = image_angles::<Exact>(scale, channel, x, y);
            &&& angles.0.value@ * 100 as real == (100 * (3 * scale + 5 * channel) + 5 * x + 7
                * y) as real
            &&& angles.1.value@ * 100 as real == (11 * x + 9 * y) as real
        }),
{
    lemma_exact_whole(3 * scale + 5 * channel);
    lemma_exact_whole(x);
    lemma_exact_whole(y);
    let (fx, fy) = (x as real, y as real);
    lemma_part(5, 100, fx);
    lemma_part(7, 100, fy);
    lemma_part(11, 100, fx);
    lemma_part(9, 100, fy);
    let phase = (3 * scale + 5 * channel) as real;
    let (ax, ay) = (fx * Exact::spec_ratio(5, 100).value@, fy * Exact::spec_ratio(7, 100).value@);
    let (bx, by) = (fx * Exact::spec_ratio(11, 100).value@, fy * Exact::spec_ratio(9, 100).value@);
    assert((phase + ax + ay) * 100 as real == phase * 100 as real + ax * 100 as real + ay
        * 100 as real) by (nonlinear_arith);
    assert((bx + by) * 100 as real == bx * 100 as real + by * 100 as real) by (nonlinear_arith);
}

/// Before rounding, a pixel is three tenths and two tenths of its first wave; one of the
/// distorted image has three hundredths of its second wave beside.
pub proof fn law_image_sample_in_reals(waves: (Exact, Exact))
    ensures
        image_sample(false, waves).value@ * 100 as real == 30 as real + 20 as real
            * waves.0.value@,
        image_sample(true, waves).value@ * 100 as real == 30 as real + 20 as real * waves.0.value@
            + 3 as real * waves.1.value@,
{
    let (a, b) = (waves.0.value@, waves.1.value@);
    lemma_exact_units();
    lemma_exact_ratio(3, 10);
    lemma_part(2, 10, a);
    lemma_part(3, 100, b);
    let base = Exact::spec_ratio(3, 10).value@;
    let (wa, wb) = (Exact::spec_ratio(2, 10).value@ * a, Exact::spec_ratio(3, 100).value@ * b);
    assert((base + wa + wb) * 100 as real == base * 10 as real * 10 as real + wa * 10 as real
        * 10 as real + wb * 100 as real) by (nonlinear_arith);
    assert((base + wa) * 100 as real == base * 10 as real * 10 as real + wa * 10 as real
        * 10 as real) by (nonlinear_arith);
    assert((2 as real * a) * 10 as real == 20 as real * a) by (nonlinear_arith);
}

/// Before rounding, sample `i` of channel `channel` of a synthetic moment plane is made of the
/// sines of the two angles that its place gives.
pub proof fn law_moment_sample_by_place<S: Fn(Exact) -> Exact>(
    sin: S,
    scale: int,
    plane: int,
    channel: int,
    i: int,
    pt: int,
    v: Exact,
)
    requires
        0 <= i < pt <= u32::MAX,
        0 <= scale,
        0 <= plane,
        0 <= channel,
        7 * scale + 3 * plane + 5 * channel <= u32::MAX,
        is_moment_sample(sin, scale, plane, channel * pt + i, pt, v),
    ensures
        exists|a: Exact, b: Exact| #[trigger]
            call_ensures(sin, (exact((7 * scale + 3 * plane + 5 * channel) as real),), a)
                && #[trigger] call_ensures(
                sin,
                (exact((13 * i + 1000 * plane) as real / 1000 as real),),
                b,
            ) && v.value@ * 100 as real == 40 as real + 15 as real * a.value@ + b.value@,
{
    let angles = moment_angles::<Exact>(scale, plane, channel * pt + i, pt);
    law_moment_angles_in_reals(scale, plane, channel, i, pt);
    let (a, b) = choose|a: Exact, b: Exact|
        call_ensures(sin, (angles.0,), a) && call_ensures(sin, (angles.1,), b) && v
            == #[trigger] moment_sample((a, b));
    law_moment_sample_in_reals((a, b));
    assert(angles.0 == exact((7 * scale + 3 * plane + 5 * channel) as real));
    assert(angles.1 == exact((13 * i + 1000 * plane) as real / 1000 as real));
}

/// Before rounding, the pixel at column `x`, row `y` of a synthetic image is made of the sine of
/// one angle that its place gives, and on the distorted side of the cosine of another.
pub proof fn law_image_sample_by_place<S: Fn(Exact) -> Exact, C: Fn(Exact) -> Exact>(
    sin: S,
    cos: C,
    scale: int,
    channel: int,
    distorted: bool,
    x: int,
    y: int,
    v: Exact,
)
    requires
        0 <= x <= u32::MAX,
        0 <= y <= u32::MAX,
        0 <= scale,
        0 <= channel,
        3 * scale + 5 * channel <= u32::MAX,
        is_image_sample(sin, cos, scale, channel, distorted, x, y, v),
    ensures
        !distorted ==> exists|a: Exact| #[trigger]
            call_ensures(
                sin,
                (exact((100 * (3 * scale + 5 * channel) + 5 * x + 7 * y) as real / 100 as real),),
                a,
            ) && v.value@ * 100 as real == 30 as real + 20 as real * a.value@,
        distorted ==> exists|a: Exact, b: Exact| #[trigger]
            call_ensures(
                sin,
                (exact((100 * (3 * scale + 5 * channel) + 5 * x + 7 * y) as real / 100 as real),),
                a,
            ) && #[trigger] call_ensures(
                cos,
                (exact((11 * x + 9 * y) as real / 100 as real),),
                b,
            ) && v.value@ * 100 as real == 30 as real + 20 as real * a.value@ + 3 as real * b.value@,
{
    let angles = image_angles::<Exact>(scale, channel, x, y);
    law_image_angles_in_reals(scale, channel, x, y);
    let (a, b) = choose|a: Exact, b: Exact|
        call_ensures(sin, (angles.0,), a) && (distorted ==> call_ensures(cos, (angles.1,), b)) && v
            == #[trigger] image_sample(distorted, (a, b));
    law_image_sample_in_reals((a, b));
    assert(angles.0 == exact(
        (100 * (3 * scale + 5 * channel) + 5 * x + 7 * y) as real / 100 as real,
    ));
    assert(angles.1 == exact((11 * x + 9 * y) as real / 100 as real));
}

} // verus!
