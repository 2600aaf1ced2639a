//! The rounding of [`Single`] and [`Double`], as the bounds on the blur ask for it, and what
//! follows for the kernels.
use vstd::arithmetic::power2::{lemma2_to64, lemma_pow2_pos, pow2};
use vstd::prelude::*;

use crate::blur::{blurred_at, Channels, Layout};
use crate::compare::{Comparison, TOLERANCE_BITS};
use crate::diffmap::{device_planes, level_blend, reference_map, runnable, weights, Producer};
use crate::digits::{
    lemma_kept, lemma_power, lemma_power_adds, lemma_power_grows, lemma_rounded_is_kept,
    lemma_rounding_error, power, rounded, size,
};
use crate::geometry::{Level, CHANNELS};
use crate::identity::{
    exchangeable, exchangeable_planes, exchanged, law_exchanging_images_exchanges_means,
};
use crate::machine::{law_chain_run_passes, map_errors, performed, Inputs, Memory};
use crate::reference::{plane_pair, reference_planes};
use crate::rounding::{
    bounds_channels, law_device_planes_are_near_reference_planes, law_strips_leave_no_seam,
    lemma_product_size, near, part, suits_reference, Model,
};
use crate::scalar::{zero, Scalar, Wide};
use crate::single::{
    law_rounded_errors_add_to_zero, law_rounded_numbers_round_to_themselves, lemma_zero, Digits,
    Double, Single,
};
use crate::ssim::{device_errors, law_device_errors_are_reference_errors, reference_errors};
use crate::steps::chain_run;
use crate::synth::{
    gives_waves, image_angles, image_sample, is_image_sample, lemma_single_image_samples,
};
use crate::window::{slidable, Moments};

verus! {

/// The model of the numbers of `N` digits up to `2^k`: those that are rounded stand for
/// themselves, and operations are off by at most half of the last digit.
pub open spec fn digits_model<const N: u32>(k: int) -> Model<Digits<N>> {
    Model {
        fine: |x: Digits<N>| x.is_rounded(),
        val: |x: Digits<N>| x.value@,
        limit: power(k),
        unit: power(k - 1 - N),
    }
}

/// Rounding a number up to `2^k` takes it no further than half of its last digit.
proof fn lemma_near<const N: u32>(k: int, x: real)
    requires
        1 <= N,
        near(x, 0 as real, power(k)),
    ensures
        near(rounded(N as nat, x), x, power(k - 1 - N)),
{
    lemma_power(k);
    lemma_power(0);
    lemma_power(k - 1 - N);
    if size(x) < power(k) {
        lemma_rounding_error(N as nat, x, k);
    } else {
        lemma_power_grows(0, N as int);
        let m: int = if x < 0 as real {
            -1
        } else {
            1
        };
        lemma_kept(N as nat, m, k);
        let p = power(k);
        assert((-(1 as real)) * p == -p) by (nonlinear_arith);
        assert(1 as real * p == p);
    }
}

/// What an operation rounds a number up to `2^k` to is fine, and near it.
proof fn lemma_result<const N: u32>(k: int, x: real, r: Digits<N>)
    requires
        1 <= N,
        near(x, 0 as real, power(k)),
        r.value@ == rounded(N as nat, x),
    ensures
        digits_model::<N>(k).is_near(r, x, power(k - 1 - N)),
{
    lemma_near::<N>(k, x);
    law_rounded_numbers_round_to_themselves::<N>(x);
}

proof fn lemma_sums<const N: u32>(k: int)
    requires
        1 <= N,
    ensures
        digits_model::<N>(k).sums_hold(),
{
    let m = digits_model::<N>(k);
    assert forall|a: Digits<N>, b: Digits<N>|
        #![trigger a.spec_plus(b)]
        (m.fine)(a) && (m.fine)(b) && near((m.val)(a) + (m.val)(b), 0 as real, m.limit) implies
        m.is_near(a.spec_plus(b), (m.val)(a) + (m.val)(b), m.unit) by {
        lemma_result::<N>(k, a.value@ + b.value@, a.spec_plus(b));
    }
}

proof fn lemma_differences<const N: u32>(k: int)
    requires
        1 <= N,
    ensures
        digits_model::<N>(k).differences_hold(),
{
    let m = digits_model::<N>(k);
    assert forall|a: Digits<N>, b: Digits<N>|
        #![trigger a.spec_minus(b)]
        (m.fine)(a) && (m.fine)(b) && near((m.val)(a) - (m.val)(b), 0 as real, m.limit) implies
        m.is_near(a.spec_minus(b), (m.val)(a) - (m.val)(b), m.unit) by {
        lemma_result::<N>(k, a.value@ - b.value@, a.spec_minus(b));
    }
}

proof fn lemma_products<const N: u32>(k: int)
    requires
        1 <= N,
    ensures
        digits_model::<N>(k).products_hold(),
{
    let m = digits_model::<N>(k);
    assert forall|a: Digits<N>, b: Digits<N>|
        #![trigger a.spec_times(b)]
        (m.fine)(a) && (m.fine)(b) && near((m.val)(a) * (m.val)(b), 0 as real, m.limit) implies
        m.is_near(a.spec_times(b), (m.val)(a) * (m.val)(b), m.unit) by {
        lemma_result::<N>(k, a.value@ * b.value@, a.spec_times(b));
    }
}

proof fn lemma_fused_products<const N: u32>(k: int)
    requires
        1 <= N,
    ensures
        digits_model::<N>(k).fused_products_hold(),
{
    let m = digits_model::<N>(k);
    assert forall|a: Digits<N>, b: Digits<N>, c: Digits<N>|
        #![trigger a.spec_fma(b, c)]
        (m.fine)(a) && (m.fine)(b) && (m.fine)(c) && near(
            (m.val)(a) * (m.val)(b) + (m.val)(c),
            0 as real,
            m.limit,
        ) implies m.is_near(
        a.spec_fma(b, c),
        (m.val)(a) * (m.val)(b) + (m.val)(c),
        m.unit,
    ) by {
        lemma_result::<N>(k, a.value@ * b.value@ + c.value@, a.spec_fma(b, c));
    }
}

/// The model of the numbers of `N` digits is one: it holds up to any power of two.
pub proof fn law_digits_model_holds<const N: u32>(k: int)
    requires
        1 <= N,
    ensures
        digits_model::<N>(k).holds(),
{
    let m = digits_model::<N>(k);
    lemma_sums::<N>(k);
    lemma_differences::<N>(k);
    lemma_products::<N>(k);
    lemma_fused_products::<N>(k);
    lemma_power(k - 1 - N);
    lemma_zero::<N>();
    law_rounded_numbers_round_to_themselves::<N>(0 as real / 1 as real);
    assert((m.fine)(zero()));
    assert((m.val)(zero()) == 0 as real);
    reveal(Model::holds);
}

/// The model of [`Single`] for the kernels: up to 32, off by at most 2^-20.
pub open spec fn single_model() -> Model<Single> {
    digits_model::<24>(5)
}

/// The model of [`Double`] for the reference: up to 256, off by at most 2^-46.
pub open spec fn double_model() -> Model<Double> {
    digits_model::<53>(8)
}

/// One over `d` is off by at most one digit behind the last, in proportion.
proof fn lemma_reciprocal<const N: u32>(d: u32, j: nat)
    requires
        1 <= N,
        pow2(j) < d,
        d <= pow2(j + 1),
    ensures
        ({
            let r = Digits::<N>::spec_ratio(1, d);
            &&& r.is_rounded()
            &&& near(r.value@ * d as real, 1 as real, power(-(N as int)))
        }),
{
    lemma_pow2_pos(j);
    let c = d as real;
    let x = 1 as real / c;
    assert(1u32 as real == 1 as real);
    assert(x * c == 1 as real) by (nonlinear_arith)
        requires
            c > 0 as real,
            x == 1 as real / c,
    ;
    assert(x > 0 as real) by (nonlinear_arith)
        requires
            x * c == 1 as real,
            c > 0 as real,
    ;
    let (e, n) = (j as int, N as int);
    lemma_power_adds(e, -e);
    lemma_power(0);
    lemma_power(-e);
    let (p, q) = (power(e), power(-e));
    assert(p < c);
    // x p < x c = 1 = q p.
    let (gap, rest) = (c - p, 1 as real - x * p);
    assert(x * gap > 0 as real) by (nonlinear_arith)
        requires
            x > 0 as real,
            gap > 0 as real,
    ;
    assert(x * (c - p) == x * c - x * p) by (nonlinear_arith);
    assert(rest * q > 0 as real) by (nonlinear_arith)
        requires
            rest > 0 as real,
            q > 0 as real,
    ;
    assert((1 as real - x * p) * q == q - x * (p * q)) by (nonlinear_arith);
    assert(x * 1 as real == x);
    assert(size(x) < q);
    lemma_rounding_error(N as nat, x, -e);
    law_rounded_numbers_round_to_themselves::<N>(x);
    let off = rounded(N as nat, x) - x;
    let most = power(-e - 1 - n);
    lemma_product_size(off, c, most, power(e + 1));
    lemma_power_adds(-e - 1 - n, e + 1);
    let r = rounded(N as nat, x);
    assert((r - x) * c == r * c - x * c) by (nonlinear_arith);
}

/// [`Single`] suits the kernels.
pub proof fn law_single_suits_kernels()
    ensures
        single_model().suits_kernels(),
{
    lemma2_to64();
    law_digits_model_holds::<24>(5);
    lemma_power_adds(-20, 20);
    lemma_power(0);
    assert(power(5) == 32 as real && power(20) == 1048576 as real);
    lemma_reciprocal::<24>(11, 3);
    lemma_power_grows(-24, -20);
}

proof fn lemma_widening()
    ensures
        forall|x: Single|
            (single_model().fine)(x) ==> (double_model().fine)(#[trigger] Double::spec_widen(x)) && (
            double_model().val)(Double::spec_widen(x)) == (single_model().val)(x),
{
    assert forall|x: Single| (single_model().fine)(x) implies (double_model().fine)(
        #[trigger] Double::spec_widen(x),
    ) && (double_model().val)(Double::spec_widen(x)) == (single_model().val)(x) by {
        lemma_rounded_is_kept(24, 53, x.value@);
    }
}

proof fn lemma_narrowing()
    ensures
        forall|y: Double|
            (double_model().fine)(y) && near((double_model().val)(y), 0 as real, 32 as real)
                ==> single_model().is_near(
                #[trigger] Wide::<Single>::spec_narrow(y),
                (double_model().val)(y),
                single_model().unit,
            ),
{
    lemma2_to64();
    assert(power(5) == 32 as real);
    assert forall|y: Double|
        (double_model().fine)(y) && near((double_model().val)(y), 0 as real, 32 as real) implies
        single_model().is_near(
        #[trigger] Wide::<Single>::spec_narrow(y),
        (double_model().val)(y),
        single_model().unit,
    ) by {
        lemma_result::<24>(5, y.value@, Wide::<Single>::spec_narrow(y));
    }
}

/// [`Double`] suits the reference of [`Single`].
pub proof fn law_double_suits_reference()
    ensures
        suits_reference::<Single, Double>(single_model(), double_model()),
{
    lemma2_to64();
    law_digits_model_holds::<53>(8);
    lemma_widening();
    lemma_narrowing();
    lemma_reciprocal::<53>(121, 6);
    lemma_power_grows(-53, -46);
    lemma_power_grows(-46, -20);
    assert(power(8) == 256 as real);
    reveal(suits_reference);
}

// ───────────── what follows for the kernels ─────────────

/// The first `n` samples of every channel are there, are rounded, and lie within one of zero.
pub open spec fn small_samples(image: &Channels<Single>, n: int) -> bool {
    &&& image.hold(n)
    &&& forall|c: int, i: int|
        0 <= c < CHANNELS && 0 <= i < n ==> (#[trigger] image.of(c)[i]).is_rounded() && near(
            image.of(c)[i].value@,
            0 as real,
            1 as real,
        )
}

proof fn lemma_takes(
    src: &Channels<Single>,
    dst: &Channels<Single>,
    width: int,
    height: int,
    c: int,
)
    requires
        small_samples(src, width * height),
        small_samples(dst, width * height),
        0 <= c < CHANNELS,
    ensures
        single_model().takes(plane_pair(src, dst, width, height, c)),
{
    reveal(Model::takes);
    let pair = plane_pair(src, dst, width, height, c);
    assert forall|i: int|
        #![trigger pair.src[i]]
        #![trigger pair.dst[i]]
        0 <= i < pair.width * pair.height implies single_model().is_near(
        pair.src[i],
        0 as real,
        1 as real,
    ) && single_model().is_near(pair.dst[i], 0 as real, 1 as real) by {
        assert(src.of(c)[i].is_rounded());
        assert(dst.of(c)[i].is_rounded());
    }
}

proof fn lemma_bounds(src: &Channels<Single>, dst: &Channels<Single>, width: int, height: int)
    requires
        small_samples(src, width * height),
        small_samples(dst, width * height),
        2 <= width,
        2 <= height,
    ensures
        bounds_channels(single_model(), src, dst, width, height),
{
    reveal(bounds_channels);
    law_single_suits_kernels();
    assert forall|c: int| 0 <= c < CHANNELS implies single_model().bounds(
        #[trigger] plane_pair(src, dst, width, height, c),
    ) by {
        lemma_takes(src, dst, width, height, c);
    }
}

proof fn lemma_ten_thousandth(a: Single, b: Single)
    requires
        single_model().within_ten_thousandth(a, b),
    ensures
        near((a.value@ - b.value@) * 10000 as real, 0 as real, 1 as real),
{
    reveal(Model::within_ten_thousandth);
}

proof fn lemma_thousandth(a: Single, b: Single)
    requires
        single_model().within_thousandth(a, b),
    ensures
        near((a.value@ - b.value@) * 1000 as real, 0 as real, 1 as real),
{
    reveal(Model::within_thousandth);
}

/// In numbers of twenty-four digits, with samples within one of zero: blurring a plane of up to
/// 256 rows in any number of strips gives, at every pixel, moments at most 1/10000 from those of
/// any other number of strips.
pub proof fn law_single_strips_leave_no_seam(
    src: &Channels<Single>,
    dst: &Channels<Single>,
    a: Layout,
    b: Layout,
    j: int,
    i: int,
)
    requires
        a.valid(),
        b.valid(),
        a.width == b.width,
        a.height == b.height,
        a.height <= 256,
        a.pad_total == b.pad_total,
        a.is_pixel(j),
        small_samples(src, a.width * a.height),
        small_samples(dst, a.width * a.height),
        0 <= i < 4,
    ensures
        near(
            (part(blurred_at(src, dst, a, j), i).value@ - part(
                blurred_at(src, dst, b, j),
                i,
            ).value@) * 10000 as real,
            0 as real,
            1 as real,
        ),
{
    lemma_bounds(src, dst, a.width as int, a.height as int);
    law_strips_leave_no_seam(single_model(), src, dst, a, b, j, i);
    lemma_ten_thousandth(
        part(blurred_at(src, dst, a, j), i),
        part(blurred_at(src, dst, b, j), i),
    );
}

/// In numbers of twenty-four digits, with samples within one of zero, and with reference sums in
/// fifty-three digits: the moment planes that the kernels write for a level of up to 4096 rows
/// are within 1/1000 of the reference planes, each moment of each pixel, whatever the mode.
pub proof fn law_single_planes_are_near_reference_planes(
    src: &Channels<Single>,
    dst: &Channels<Single>,
    level: Level,
    j: int,
    i: int,
)
    requires
        level.addressable(),
        slidable(level.width as int),
        slidable(level.height as int),
        level.height <= 4096,
        small_samples(src, level.area()),
        small_samples(dst, level.area()),
        0 <= j < CHANNELS * level.area(),
        0 <= i < 4,
    ensures
        ({
            let (w, h) = (level.width as int, level.height as int);
            let device = part(device_planes(src, dst, level)[j], i);
            let reference = part(reference_planes::<Single, Double>(src, dst, w, h)[j], i);
            near((device.value@ - reference.value@) * 1000 as real, 0 as real, 1 as real)
        }),
{
    let (w, h) = (level.width as int, level.height as int);
    lemma_bounds(src, dst, w, h);
    law_double_suits_reference();
    law_device_planes_are_near_reference_planes(
        single_model(),
        double_model(),
        src,
        dst,
        level,
        j,
        i,
    );
    lemma_thousandth(
        part(device_planes(src, dst, level)[j], i),
        part(reference_planes::<Single, Double>(src, dst, w, h)[j], i),
    );
}

/// In numbers of twenty-four digits, units for all `n` pixels write the errors that the
/// reference computes, bit for bit, whatever the weights and whatever was there before, and
/// leave what lies behind alone.
pub proof fn law_single_errors_are_reference_errors(
    before: Seq<Single>,
    planes: Seq<Moments<Single>>,
    n: int,
    pad_total: int,
    w: Seq<Single>,
    units: int,
)
    requires
        0 <= n <= before.len(),
        n <= units,
    ensures
        device_errors(before, planes, n, pad_total, w, units).len() == before.len(),
        device_errors(before, planes, n, pad_total, w, units).take(n) == reference_errors(
            planes,
            n,
            pad_total,
            w,
        ),
        device_errors(before, planes, n, pad_total, w, units).skip(n) == before.skip(n),
{
    law_rounded_errors_add_to_zero::<24>(w[0]);
    law_device_errors_are_reference_errors(before, planes, n, pad_total, w, units);
}

/// In numbers of twenty-four digits, a run on moment planes passes, of every size, with every
/// producer, zeroed or not: a device whose kernels do what their contracts say reads back the
/// reference map bit for bit.
pub proof fn law_single_chain_run_passes(
    plan: Seq<Level>,
    zero_fill: bool,
    producer: Producer,
    inputs: Inputs<Single>,
    history: Seq<Memory<Single>>,
    bits: spec_fn(Single) -> u32,
    differences: Seq<u32>,
    found: Comparison,
)
    requires
        runnable(plan),
        forall|s: int|
            0 <= s < plan.len() ==> (#[trigger] inputs.planes[s]).len() == CHANNELS
                * plan[s].area(),
        performed(
            inputs,
            level_blend(plan),
            chain_run(plan, zero_fill, producer, plan.len()),
            history,
        ),
        history[0].map.len() == plan[0].area(),
        found.is_of(
            map_errors(
                history.last().map,
                reference_map(plan, inputs.planes, plan.len()),
                bits,
                differences,
            ),
        ),
    ensures
        history.last().map == reference_map(plan, inputs.planes, plan.len()),
        found.max_err <= TOLERANCE_BITS,
        found.n_div == 0,
{
    law_rounded_errors_add_to_zero::<24>(weights::<Single>()[0]);
    law_chain_run_passes(
        plan,
        zero_fill,
        producer,
        inputs,
        history,
        bits,
        differences,
        found,
    );
}

/// In numbers of twenty-four digits, with reference sums in fifty-three: exchanging the images
/// exchanges the means of the reference planes and leaves the other two moments alone, bit for
/// bit.
pub proof fn law_single_exchanging_images_exchanges_means(
    src: &Channels<Single>,
    dst: &Channels<Single>,
    width: int,
    height: int,
)
    requires
        2 <= width,
        2 <= height,
    ensures
        reference_planes::<Single, Double>(dst, src, width, height) == Seq::new(
            reference_planes::<Single, Double>(src, dst, width, height).len(),
            |i: int| exchanged(reference_planes::<Single, Double>(src, dst, width, height)[i]),
        ),
{
    assert forall|c: int| 0 <= c < CHANNELS implies exchangeable_planes::<Single, Double>(
        #[trigger] plane_pair(src, dst, width, height, c),
    ) by {
        let pair = plane_pair(src, dst, width, height, c);
        assert forall|i: int| 0 <= i < pair.width * pair.height implies #[trigger] exchangeable::<
            Double,
        >(Double::spec_widen(pair.src[i]), Double::spec_widen(pair.dst[i])) by {
            law_digits_are_exchangeable::<53>(
                Double::spec_widen(pair.src[i]),
                Double::spec_widen(pair.dst[i]),
            );
        }
    }
    law_exchanging_images_exchanges_means::<Single, Double>(src, dst, width, height);
}

/// Any two numbers of `N` digits are exchangeable.
pub proof fn law_digits_are_exchangeable<const N: u32>(s: Digits<N>, d: Digits<N>)
    ensures
        exchangeable(s, d),
{
    let (x, y) = (s.value@, d.value@);
    assert(x * y == y * x) by (nonlinear_arith);
    let (a, b) = (s.spec_times(s).value@, d.spec_times(d).value@);
    assert(a + b == b + a);
}

/// The planes hold a synthetic image of level `scale`, `width` by `height`.
pub open spec fn is_synthetic<S: Fn(Single) -> Single, C: Fn(Single) -> Single>(
    image: &Channels<Single>,
    sin: S,
    cos: C,
    scale: int,
    distorted: bool,
    width: int,
    height: int,
) -> bool {
    &&& image.hold(width * height)
    &&& forall|c: int, i: int|
        0 <= c < CHANNELS && 0 <= i < width * height ==> is_image_sample(
            sin,
            cos,
            scale,
            c,
            distorted,
            i % width,
            i / width,
            #[trigger] image.of(c)[i],
        )
}

proof fn lemma_synthetic_sample<S: Fn(Single) -> Single, C: Fn(Single) -> Single>(
    sin: S,
    cos: C,
    scale: int,
    channel: int,
    distorted: bool,
    x: int,
    y: int,
    v: Single,
)
    requires
        gives_waves(sin),
        gives_waves(cos),
        is_image_sample(sin, cos, scale, channel, distorted, x, y, v),
    ensures
        v.is_rounded(),
        near(v.value@, 0 as real, 1 as real),
{
    let angles = image_angles::<Single>(scale, channel, x, y);
    let (a, b) = choose|a: Single, b: Single|
        call_ensures(sin, (angles.0,), a) && (distorted ==> call_ensures(cos, (angles.1,), b)) && v
            == #[trigger] image_sample(distorted, (a, b));
    let base = Single::spec_ratio(3, 10).spec_plus(Single::spec_ratio(2, 10).spec_times(a));
    if distorted {
        lemma_single_image_samples(a, b, b);
        let d = Single::spec_ratio(3, 100).spec_times(b);
        law_rounded_numbers_round_to_themselves::<24>(base.value@ + d.value@);
    } else {
        lemma_single_image_samples(a, a, b);
        law_rounded_numbers_round_to_themselves::<24>(base.value@ + zero::<Single>().value@);
    }
}

proof fn lemma_synthetic_samples<S: Fn(Single) -> Single, C: Fn(Single) -> Single>(
    image: &Channels<Single>,
    sin: S,
    cos: C,
    scale: int,
    distorted: bool,
    width: int,
    height: int,
)
    requires
        gives_waves(sin),
        gives_waves(cos),
        is_synthetic(image, sin, cos, scale, distorted, width, height),
    ensures
        small_samples(image, width * height),
{
    assert forall|c: int, i: int| 0 <= c < CHANNELS && 0 <= i < width * height implies (
    #[trigger] image.of(c)[i]).is_rounded() && near(
        image.of(c)[i].value@,
        0 as real,
        1 as real,
    ) by {
        lemma_synthetic_sample(
            sin,
            cos,
            scale,
            c,
            distorted,
            i % width,
            i / width,
            image.of(c)[i],
        );
    }
}

/// In numbers of twenty-four digits, with reference sums in fifty-three: the moment planes that
/// the kernels write of the synthetic images, at any level of up to 4096 rows and in any mode,
/// are within 1/1000 of the reference planes, each moment of each pixel.
pub proof fn law_synthetic_planes_pass<S: Fn(Single) -> Single, C: Fn(Single) -> Single>(
    src: &Channels<Single>,
    dst: &Channels<Single>,
    sin: S,
    cos: C,
    scale: int,
    level: Level,
    j: int,
    i: int,
)
    requires
        gives_waves(sin),
        gives_waves(cos),
        level.addressable(),
        slidable(level.width as int),
        slidable(level.height as int),
        level.height <= 4096,
        is_synthetic(src, sin, cos, scale, false, level.width as int, level.height as int),
        is_synthetic(dst, sin, cos, scale, true, level.width as int, level.height as int),
        0 <= j < CHANNELS * level.area(),
        0 <= i < 4,
    ensures
        ({
            let (w, h) = (level.width as int, level.height as int);
            let device = part(device_planes(src, dst, level)[j], i);
            let reference = part(reference_planes::<Single, Double>(src, dst, w, h)[j], i);
            near((device.value@ - reference.value@) * 1000 as real, 0 as real, 1 as real)
        }),
{
    let (w, h) = (level.width as int, level.height as int);
    lemma_synthetic_samples(src, sin, cos, scale, false, w, h);
    lemma_synthetic_samples(dst, sin, cos, scale, true, w, h);
    law_single_planes_are_near_reference_planes(src, dst, level, j, i);
}

} // verus!
