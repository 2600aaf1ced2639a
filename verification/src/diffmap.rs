//! The error map of an image: over the levels of its pyramid, the weighted errors of
//! the moment planes, added up at the size of the first level. Computed in one way on
//! the host and in another by the kernels.
use vstd::arithmetic::div_mod::{lemma_fundamental_div_mod_converse, lemma_mod_bound};
use vstd::arithmetic::power2::{lemma_pow2_pos, pow2};
use vstd::prelude::*;

use crate::blur::{
    blur_f64_kernel, blur_planes_kernel, blurred, blurred_at, fused_features_kernel_persist,
    Channels, Layout, Offsets,
};
use crate::features::{Body, FeatMode};
use crate::geometry::{
    blocks_for, cube_count, is_pyramid, law_blocks_cover_items, law_pyramid_is_not_empty,
    lemma_ceil_div_parts, level_height, level_width, padded, pick_n_strips, relay_grid, strip_count, Level,
    CHANNELS, LINE_UNITS, MIN_SIDE, N_SCALES, RELAY_TX,
};
use crate::line::{
    diffmap_zero_kernel, law_relays_hand_on_staged_planes, relay_planes_1d_kernel,
    relay_planes_3d_kernel,
};
use crate::reference::{
    cpu_feature_planes, law_blurred_planes_are_reference_planes, reference_planes,
};
use crate::scalar::{zero, Exact, Scalar, Wide};
use crate::ssim::{
    adds_to_zero, cpu_per_scale, device_error, device_errors, law_device_error_is_reference_error,
    law_exact_errors_add_to_zero, per_scale_weighted_ssim_kernel, reference_errors, Planes,
};
use crate::upsample::{
    cpu_upsample_add, device_upsampled, law_device_adds_as_reference, pow2x_upsample_add_kernel,
    reference_upsampled,
};
use crate::window::{slidable, Moments};

verus! {

/// How the moment planes get to where the kernels read them.
#[derive(Clone, Copy, Debug, PartialEq, Eq, Structural)]
pub enum Producer {
    /// The host puts them there.
    Host,
    /// The host stages them, and a linear relay copies them on the device.
    Relay1d,
    /// The host stages them, and a relay with a layer of blocks per channel copies them
    /// on the device.
    Relay3d,
}

/// The name that a producer goes by in reports.
pub open spec fn producer_label(producer: Producer) -> Seq<char> {
    match producer {
        Producer::Host => "host-upload"@,
        Producer::Relay1d => "gpu-relay-1d"@,
        Producer::Relay3d => "gpu-relay-3d(ch=z)"@,
    }
}

impl Producer {
    /// The name that the producer goes by in reports.
    pub fn label(self) -> (r: &'static str)
        ensures
            r@ == producer_label(self),
    {
        match self {
            Producer::Host => "host-upload",
            Producer::Relay1d => "gpu-relay-1d",
            Producer::Relay3d => "gpu-relay-3d(ch=z)",
        }
    }
}

/// The weights of the channels: a third each.
pub open spec fn weights<F: Scalar>() -> Seq<F> {
    seq![F::spec_ratio(1, 3), F::spec_ratio(1, 3), F::spec_ratio(1, 3)]
}

/// The weight of a level: one over the number of levels.
pub open spec fn level_blend<F: Scalar>(plan: Seq<Level>) -> F {
    F::spec_ratio(1, plan.len() as u32)
}

/// The weights of the channels.
pub fn channel_weights<F: Scalar>() -> (r: [F; 3])
    ensures
        r@ == weights::<F>(),
{
    let third = F::ratio(1, 3);
    [third, third, third]
}

/// The weight of a level of `plan`.
pub fn blend_weight<F: Scalar>(plan: &Vec<Level>) -> (r: F)
    requires
        0 < plan@.len() <= N_SCALES,
    ensures
        r == level_blend::<F>(plan@),
{
    F::ratio(1, plan.len() as u32)
}

/// The map after the first `levels` levels, as the reference adds them up.
pub open spec fn reference_map<F: Scalar>(
    plan: Seq<Level>,
    planes: Seq<Seq<Moments<F>>>,
    levels: nat,
) -> Seq<F>
    decreases levels,
{
    if levels == 0 {
        Seq::new(plan[0].area() as nat, |i: int| zero::<F>())
    } else {
        let s = levels - 1;
        reference_upsampled(
            reference_errors(planes[s], plan[s].area(), plan[s].area(), weights()),
            plan[s].width as int,
            reference_map(plan, planes, s as nat),
            plan[0].width as int,
            plan[0].height as int,
            s as nat,
            level_blend(plan),
        )
    }
}

/// The weighted errors of a level that the kernels compute.
pub open spec fn device_level<F: Scalar>(planes: Seq<Moments<F>>, area: int) -> Seq<F> {
    Seq::new(area as nat, |i: int| device_error(planes, area, weights(), i))
}

/// The map after the first `levels` levels, as the kernels add them up.
pub open spec fn device_map<F: Scalar>(
    plan: Seq<Level>,
    planes: Seq<Seq<Moments<F>>>,
    levels: nat,
) -> Seq<F>
    decreases levels,
{
    if levels == 0 {
        Seq::new(plan[0].area() as nat, |i: int| zero::<F>())
    } else {
        let s = levels - 1;
        device_upsampled(
            device_level(planes[s], plan[s].area()),
            plan[s].width as int,
            plan[s].height as int,
            device_map(plan, planes, s as nat),
            plan[0].width as int,
            plan[0].height as int,
            s as nat,
            level_blend(plan),
            plan[0].area(),
        )
    }
}

/// What the planes hold, level by level.
pub open spec fn views<F: Scalar>(planes: Seq<Planes<F>>) -> Seq<Seq<Moments<F>>> {
    Seq::new(planes.len(), |s: int| planes[s]@)
}

/// There are planes for every level, and they hold its channels.
pub open spec fn planes_fit<F: Scalar>(plan: Seq<Level>, planes: Seq<Planes<F>>) -> bool {
    &&& planes.len() == plan.len()
    &&& forall|s: int|
        0 <= s < plan.len() ==> (#[trigger] planes[s]).wf() && planes[s]@.len() == CHANNELS
            * plan[s].area()
}

/// The levels of a pyramid: none is too small, none is wider than the first, and each
/// has a row for every row of the first that it stands for.
pub open spec fn leveled(plan: Seq<Level>) -> bool {
    &&& 0 < plan.len() <= N_SCALES
    &&& forall|s: int|
        0 <= s < plan.len() ==> {
            &&& MIN_SIDE <= (#[trigger] plan[s]).width <= plan[0].width
            &&& MIN_SIDE <= plan[s].height
            &&& plan[s].height == level_height(plan[0].height as int, s as nat)
        }
}

/// The levels of a pyramid that a device can address.
pub open spec fn runnable(plan: Seq<Level>) -> bool {
    leveled(plan) && plan[0].addressable()
}

/// The pyramid of an image has levels where the image is not empty and at least
/// [`MIN_SIDE`] rows high; it can be run where a device can address the first.
pub proof fn law_pyramid_is_runnable(plan: Seq<Level>, width: int, height: int)
    requires
        0 < width,
        MIN_SIDE <= height,
        is_pyramid(plan, width, height),
    ensures
        leveled(plan),
        plan[0].addressable() ==> runnable(plan),
{
    law_pyramid_is_not_empty(plan, width, height);
    let w0 = plan[0].width as int;
    assert forall|s: int| 0 <= s < plan.len() implies MIN_SIDE <= (#[trigger] plan[s]).width
        <= plan[0].width && MIN_SIDE <= plan[s].height && plan[s].height == level_height(
        plan[0].height as int,
        s as nat,
    ) by {
        let f = pow2(s as nat) as int;
        lemma_pow2_pos(s as nat);
        assert(plan[s].width == level_width(padded(width), s as nat));
        assert(w0 / f <= w0) by (nonlinear_arith)
            requires
                0 <= w0,
                1 <= f,
        ;
    }
}

/// What holds of each level of a plan that can be run.
pub proof fn lemma_level(plan: Seq<Level>, s: int)
    requires
        leveled(plan),
        0 <= s < plan.len(),
    ensures
        MIN_SIDE <= plan[s].width <= plan[0].width,
        MIN_SIDE <= plan[s].height <= plan[0].height,
        64 <= plan[s].area() <= plan[0].area(),
        plan[s].width <= plan[s].area(),
        plan[s].height <= plan[s].area(),
        plan[0].addressable() ==> {
            &&& plan[s].addressable()
            &&& slidable(plan[s].width as int)
            &&& slidable(plan[s].height as int)
        },
        plan[s].height == level_height(plan[0].height as int, s as nat),
{
    let f = pow2(s as nat) as int;
    lemma_pow2_pos(s as nat);
    lemma_ceil_div_parts(plan[0].height as int, f);
    let (w, h) = (plan[s].width as int, plan[s].height as int);
    let (w0, h0) = (plan[0].width as int, plan[0].height as int);
    assert(64 <= w * h <= w0 * h0 && w * 8 <= w * h && h * 8 <= w * h) by (nonlinear_arith)
        requires
            8 <= w <= w0,
            8 <= h <= h0,
    ;
}

fn zero_vec<F: Scalar>(n: usize) -> (r: Vec<F>)
    ensures
        r@ == Seq::new(n as nat, |i: int| zero::<F>()),
{
    filled(F::ratio(0, 1), n)
}

/// `n` times `x`.
fn filled<F: Scalar>(x: F, n: usize) -> (r: Vec<F>)
    ensures
        r@ == Seq::new(n as nat, |i: int| x),
{
    let mut r: Vec<F> = Vec::new();
    while r.len() < n
        invariant
            r@.len() <= n,
            r@ == Seq::new(r@.len(), |i: int| x),
        decreases n - r.len(),
    {
        r.push(x);
    }
    r
}

/// The map of the given moment planes, computed on the host.
pub fn cpu_diffmap<F: Scalar>(
    plan: &Vec<Level>,
    planes: &Vec<Planes<F>>,
) -> (map: Vec<F>)
    requires
        leveled(plan@),
        planes_fit(plan@, planes@),
    ensures
        map@ == reference_map(plan@, views(planes@), plan@.len()),
{
    proof {
        lemma_level(plan@, 0);
        assert(planes@[0].mu1.len() == planes@[0]@.len());
    }
    let base: Level = plan[0];
    let mut map: Vec<F> = zero_vec(base.width * base.height);
    let blend: F = blend_weight(plan);
    let mut s: usize = 0;
    while s < plan.len()
        invariant
            s <= plan@.len(),
            base == plan@[0],
            leveled(plan@),
            planes_fit(plan@, planes@),
            blend == level_blend::<F>(plan@),
            map@ == reference_map(plan@, views(planes@), s as nat),
            map@.len() == base.area(),
        decreases plan@.len() - s,
    {
        proof {
            lemma_level(plan@, s as int);
            assert(planes@[s as int].mu1.len() == planes@[s as int]@.len());
        }
        let level: Level = plan[s];
        let pt: usize = level.width * level.height;
        let errors = cpu_per_scale(&planes[s], pt, pt, channel_weights());
        assert(views(planes@)[s as int] == planes@[s as int]@);
        assert(errors@.len() as int % level.width as int == 0) by {
            lemma_fundamental_div_mod_converse(
                level.area(),
                level.width as int,
                level.height as int,
                0,
            );
        }
        cpu_upsample_add(
            errors.as_slice(),
            level.width,
            &mut map,
            base.width,
            base.height,
            s as u32,
            blend,
        );
        s += 1;
    }
    map
}

/// Whatever a level's scratch held before, the kernel overwrites all of it: filling it
/// with zeros first makes no difference.
pub proof fn law_scratch_makes_no_difference<F: Scalar>(
    scratch: Seq<F>,
    planes: Seq<Moments<F>>,
    area: int,
)
    requires
        0 <= area,
        scratch.len() == area,
    ensures
        device_errors(
            scratch,
            planes,
            area,
            area,
            weights(),
            blocks_for(area, LINE_UNITS as int) * LINE_UNITS,
        ) == device_level(planes, area),
{
    law_blocks_cover_items(area, LINE_UNITS as int);
    assert(device_errors(
        scratch,
        planes,
        area,
        area,
        weights(),
        blocks_for(area, LINE_UNITS as int) * LINE_UNITS,
    ) =~= device_level(planes, area));
}

/// Adds level `s`, with the given moment planes, to the map: the kernels compute its
/// errors into a scratch that held `junk`, and add them.
fn add_level<F: Scalar>(
    plan: &Vec<Level>,
    s: usize,
    planes: &Planes<F>,
    map: &mut Vec<F>,
    junk: F,
    zero_fill: bool,
)
    requires
        runnable(plan@),
        s < plan@.len(),
        planes.wf(),
        planes@.len() == CHANNELS * plan@[s as int].area(),
        old(map)@.len() == plan@[0].area(),
    ensures
        final(map)@ == device_upsampled(
            device_level(planes@, plan@[s as int].area()),
            plan@[s as int].width as int,
            plan@[s as int].height as int,
            old(map)@,
            plan@[0].width as int,
            plan@[0].height as int,
            s as nat,
            level_blend(plan@),
            plan@[0].area(),
        ),
{
    proof {
        lemma_level(plan@, 0);
        lemma_level(plan@, s as int);
    }
    let base: Level = plan[0];
    let level: Level = plan[s];
    let pt: usize = level.width * level.height;
    let base_n: usize = base.width * base.height;
    let mut scratch: Vec<F> = filled(junk, pt);
    if zero_fill {
        diffmap_zero_kernel(cube_count(pt).x, &mut scratch, pt as u32);
    }
    proof {
        law_scratch_makes_no_difference(scratch@, planes@, pt as int);
    }
    per_scale_weighted_ssim_kernel(
        cube_count(pt).x,
        planes,
        &mut scratch,
        level.width as u32,
        level.height as u32,
        pt as u32,
        channel_weights(),
    );
    let ghost before = map@;
    pow2x_upsample_add_kernel(
        cube_count(base_n).x,
        scratch.as_slice(),
        map,
        level.width as u32,
        level.height as u32,
        base.width as u32,
        base.height as u32,
        s as u32,
        blend_weight(plan),
    );
    proof {
        law_blocks_cover_items(base_n as int, LINE_UNITS as int);
        assert(map@ =~= device_upsampled(
            device_level(planes@, level.area()),
            level.width as int,
            level.height as int,
            before,
            base.width as int,
            base.height as int,
            s as nat,
            level_blend(plan@),
            base.area(),
        ));
    }
}

/// Planes of `n` samples that hold `junk`.
fn junk_planes<F: Scalar>(junk: F, n: usize) -> (r: Planes<F>)
    ensures
        r.wf(),
        r@.len() == n,
{
    Planes {
        mu1: filled(junk, n),
        mu2: filled(junk, n),
        ssq: filled(junk, n),
        s12: filled(junk, n),
    }
}

/// The zeroed map of the first level.
fn start_map<F: Scalar>(plan: &Vec<Level>, junk: F) -> (map: Vec<F>)
    requires
        runnable(plan@),
    ensures
        map@ == Seq::new(plan@[0].area() as nat, |i: int| zero::<F>()),
{
    proof {
        lemma_level(plan@, 0);
    }
    let base_n: usize = plan[0].width * plan[0].height;
    let mut map: Vec<F> = filled(junk, base_n);
    diffmap_zero_kernel(cube_count(base_n).x, &mut map, base_n as u32);
    proof {
        law_blocks_cover_items(base_n as int, LINE_UNITS as int);
        assert(map@ =~= Seq::new(plan@[0].area() as nat, |i: int| zero::<F>()));
    }
    map
}

/// The map of the given moment planes, computed by the kernels. Neither what fresh
/// memory holds (`junk`), nor whether scratch is zeroed, nor how the planes get to the
/// device makes a difference.
pub fn device_diffmap<F: Scalar>(
    plan: &Vec<Level>,
    staged: &Vec<Planes<F>>,
    junk: F,
    zero_fill: bool,
    producer: Producer,
) -> (map: Vec<F>)
    requires
        runnable(plan@),
        planes_fit(plan@, staged@),
    ensures
        map@ == device_map(plan@, views(staged@), plan@.len()),
{
    let mut map: Vec<F> = start_map(plan, junk);
    let mut s: usize = 0;
    while s < plan.len()
        invariant
            s <= plan@.len(),
            runnable(plan@),
            planes_fit(plan@, staged@),
            map@ == device_map(plan@, views(staged@), s as nat),
            map@.len() == plan@[0].area(),
        decreases plan@.len() - s,
    {
        proof {
            lemma_level(plan@, s as int);
        }
        assert(views(staged@)[s as int] == staged@[s as int]@);
        let pt: usize = plan[s].width * plan[s].height;
        let plane_len: usize = pt * 3;
        match producer {
            Producer::Host => {
                add_level(plan, s, &staged[s], &mut map, junk, zero_fill);
            },
            Producer::Relay1d => {
                let mut planes: Planes<F> = junk_planes(junk, plane_len);
                proof {
                    law_relays_hand_on_staged_planes(planes@, staged@[s as int]@, pt as int);
                }
                relay_planes_1d_kernel(
                    cube_count(plane_len).x,
                    &staged[s],
                    &mut planes,
                    plane_len as u32,
                );
                add_level(plan, s, &planes, &mut map, junk, zero_fill);
            },
            Producer::Relay3d => {
                let mut planes: Planes<F> = junk_planes(junk, plane_len);
                proof {
                    law_relays_hand_on_staged_planes(planes@, staged@[s as int]@, pt as int);
                    law_blocks_cover_items(pt as int, RELAY_TX as int);
                }
                let grid = relay_grid(pt as u32);
                relay_planes_3d_kernel(grid.x, grid.z, &staged[s], &mut planes, pt as u32);
                add_level(plan, s, &planes, &mut map, junk, zero_fill);
            },
        }
        s += 1;
    }
    map
}

// ───────────── from images ─────────────

/// How the blur kernels are launched on a level.
pub open spec fn level_layout(level: Level) -> Layout {
    Layout {
        width: level.width as u32,
        height: level.height as u32,
        n_strips: strip_count(level.width as int, level.height as int),
        pad_total: level.area() as u32,
    }
}

/// The sums of a level can be indexed.
pub open spec fn partials_fit(level: Level) -> bool {
    level_layout(level).columns() * FeatMode::Full.n_sums() <= usize::MAX
}

/// The launch sizes of a level.
pub fn layout_of(level: Level) -> (r: Layout)
    requires
        level.addressable(),
        0 < level.width,
        0 < level.height,
    ensures
        r == level_layout(level),
        r.width == level.width,
        r.height == level.height,
        r.pad_total == level.area(),
{
    let (w, h) = (level.width, level.height);
    assert(w <= w * h && h <= w * h) by (nonlinear_arith)
        requires
            0 < w,
            0 < h,
    ;
    Layout {
        width: w as u32,
        height: h as u32,
        n_strips: pick_n_strips(w as u32, h as u32),
        pad_total: (w * h) as u32,
    }
}

/// The moment planes that a blur kernel writes for a level.
pub open spec fn device_planes<F: Scalar>(
    src: &Channels<F>,
    dst: &Channels<F>,
    level: Level,
) -> Seq<Moments<F>> {
    Seq::new(
        (CHANNELS * level.area()) as nat,
        |i: int| blurred_at(src, dst, level_layout(level), i),
    )
}

/// Whatever the planes held before, a blur kernel overwrites all of them.
pub proof fn law_blur_overwrites_planes<F: Scalar>(
    before: Seq<Moments<F>>,
    src: &Channels<F>,
    dst: &Channels<F>,
    level: Level,
)
    requires
        level.addressable(),
        0 < level.width,
        0 < level.height,
        before.len() == CHANNELS * level.area(),
    ensures
        blurred(before, src, dst, level_layout(level)) == device_planes(src, dst, level),
{
    let layout = level_layout(level);
    let (w, h) = (level.width as int, level.height as int);
    assert(0 < w * h && w <= w * h && h <= w * h) by (nonlinear_arith)
        requires
            0 < w,
            0 < h,
    ;
    assert forall|i: int| 0 <= i < before.len() implies layout.is_pixel(i) by {
        lemma_mod_bound(i, w * h);
    }
    assert(blurred(before, src, dst, layout) =~= device_planes(src, dst, level));
}

/// The moment planes of one level, computed by a blur kernel of the given mode. Neither
/// the mode, nor the type that sums are kept in, nor what fresh memory holds makes a
/// difference to them.
pub fn device_feature_planes<F: Scalar, A: Wide<F>>(
    mode: FeatMode,
    level: Level,
    src: &Channels<F>,
    dst: &Channels<F>,
    junk: F,
) -> (planes: Planes<F>)
    requires
        level.addressable(),
        slidable(level.width as int),
        slidable(level.height as int),
        partials_fit(level),
        src.hold(level.area()),
        dst.hold(level.area()),
    ensures
        planes.wf(),
        planes@ == device_planes(src, dst, level),
{
    let layout = layout_of(level);
    let mut planes: Planes<F> = junk_planes(junk, layout.pad_total as usize * 3);
    proof {
        law_blur_overwrites_planes(planes@, src, dst, level);
        let (w, n) = (layout.width as int, layout.n_strips as int);
        assert(layout.columns() == w * n * 3 && 0 <= w * n) by (nonlinear_arith)
            requires
                layout.columns() == CHANNELS * n * w,
                CHANNELS == 3,
                0 <= w,
                0 <= n,
        ;
    }
    let columns: usize = layout.width as usize * layout.n_strips as usize * 3;
    match mode {
        FeatMode::Full => {
            let mut partials: Vec<A> = filled(A::ratio(0, 1), columns * 17);
            let mut peaks: Vec<F> = filled(junk, columns * 3);
            fused_features_kernel_persist(
                src,
                dst,
                &mut partials,
                &mut peaks,
                &mut planes,
                layout,
                Offsets { sums: 0, peaks: 0 },
                Body { start: 0, end: layout.height },
            );
        },
        FeatMode::BlurOnly => {
            blur_planes_kernel(src, dst, &mut planes, layout);
        },
        FeatMode::BlurF64 => {
            let mut partials: Vec<A> = filled(A::ratio(0, 1), columns);
            blur_f64_kernel(src, dst, &mut partials, &mut planes, layout);
        },
    }
    planes
}

/// There are images for every level, and they hold it.
pub open spec fn images_fit<F: Scalar>(plan: Seq<Level>, images: Seq<Channels<F>>) -> bool {
    &&& images.len() == plan.len()
    &&& forall|s: int| 0 <= s < plan.len() ==> (#[trigger] images[s]).hold(plan[s].area())
}

/// The moment planes that the blur kernels write, level by level.
pub open spec fn all_device_planes<F: Scalar>(
    plan: Seq<Level>,
    src: Seq<Channels<F>>,
    dst: Seq<Channels<F>>,
) -> Seq<Seq<Moments<F>>> {
    Seq::new(plan.len(), |s: int| device_planes(&src[s], &dst[s], plan[s]))
}

/// The reference moment planes, level by level.
pub open spec fn all_reference_planes<F: Scalar, A: Wide<F>>(
    plan: Seq<Level>,
    src: Seq<Channels<F>>,
    dst: Seq<Channels<F>>,
) -> Seq<Seq<Moments<F>>> {
    Seq::new(
        plan.len(),
        |s: int|
            reference_planes::<F, A>(
                &src[s],
                &dst[s],
                plan[s].width as int,
                plan[s].height as int,
            ),
    )
}

/// The moment planes of the levels of an image, and its map, computed by the kernels.
pub fn device_feature_diffmap<F: Scalar, A: Wide<F>>(
    plan: &Vec<Level>,
    src: &Vec<Channels<F>>,
    dst: &Vec<Channels<F>>,
    junk: F,
    mode: FeatMode,
) -> (r: (Vec<Planes<F>>, Vec<F>))
    requires
        runnable(plan@),
        forall|s: int| 0 <= s < plan@.len() ==> partials_fit(#[trigger] plan@[s]),
        images_fit(plan@, src@),
        images_fit(plan@, dst@),
    ensures
        planes_fit(plan@, r.0@),
        views(r.0@) == all_device_planes(plan@, src@, dst@),
        r.1@ == device_map(plan@, all_device_planes(plan@, src@, dst@), plan@.len()),
{
    let ghost wanted = all_device_planes(plan@, src@, dst@);
    let mut all: Vec<Planes<F>> = Vec::new();
    let mut map: Vec<F> = start_map(plan, junk);
    let mut s: usize = 0;
    while s < plan.len()
        invariant
            s <= plan@.len(),
            runnable(plan@),
            forall|k: int| 0 <= k < plan@.len() ==> partials_fit(#[trigger] plan@[k]),
            images_fit(plan@, src@),
            images_fit(plan@, dst@),
            wanted == all_device_planes(plan@, src@, dst@),
            all@.len() == s,
            forall|k: int| 0 <= k < s ==> (#[trigger] all@[k]).wf() && all@[k]@ == wanted[k],
            map@ == device_map(plan@, wanted, s as nat),
            map@.len() == plan@[0].area(),
        decreases plan@.len() - s,
    {
        proof {
            lemma_level(plan@, s as int);
        }
        assert(src@[s as int].hold(plan@[s as int].area()));
        assert(dst@[s as int].hold(plan@[s as int].area()));
        let planes = device_feature_planes::<F, A>(mode, plan[s], &src[s], &dst[s], junk);
        assert(planes@ == wanted[s as int]);
        add_level(plan, s, &planes, &mut map, junk, false);
        all.push(planes);
        s += 1;
    }
    proof {
        assert forall|k: int| 0 <= k < plan@.len() implies (#[trigger] all@[k]).wf()
            && all@[k]@.len() == CHANNELS * plan@[k].area() by {
            lemma_level(plan@, k);
            assert(all@[k]@ == wanted[k]);
        }
        assert(views(all@) =~= wanted);
    }
    (all, map)
}

/// The moment planes of the levels of an image, and its map, computed on the host with
/// window sums in `A`.
pub fn cpu_feature_diffmap<F: Scalar, A: Wide<F>>(
    plan: &Vec<Level>,
    src: &Vec<Channels<F>>,
    dst: &Vec<Channels<F>>,
) -> (r: (Vec<Planes<F>>, Vec<F>))
    requires
        leveled(plan@),
        CHANNELS * plan@[0].area() <= usize::MAX,
        images_fit(plan@, src@),
        images_fit(plan@, dst@),
    ensures
        planes_fit(plan@, r.0@),
        views(r.0@) == all_reference_planes::<F, A>(plan@, src@, dst@),
        r.1@ == reference_map(
            plan@,
            all_reference_planes::<F, A>(plan@, src@, dst@),
            plan@.len(),
        ),
{
    let ghost wanted = all_reference_planes::<F, A>(plan@, src@, dst@);
    let mut all: Vec<Planes<F>> = Vec::new();
    let mut s: usize = 0;
    while s < plan.len()
        invariant
            s <= plan@.len(),
            leveled(plan@),
            CHANNELS * plan@[0].area() <= usize::MAX,
            images_fit(plan@, src@),
            images_fit(plan@, dst@),
            wanted == all_reference_planes::<F, A>(plan@, src@, dst@),
            all@.len() == s,
            forall|k: int| 0 <= k < s ==> (#[trigger] all@[k]).wf() && all@[k]@ == wanted[k],
        decreases plan@.len() - s,
    {
        proof {
            lemma_level(plan@, s as int);
            let (w, h) = (plan@[s as int].width as int, plan@[s as int].height as int);
            assert(w * 8 <= w * h && h * 8 <= w * h) by (nonlinear_arith)
                requires
                    8 <= w,
                    8 <= h,
            ;
        }
        assert(src@[s as int].hold(plan@[s as int].area()));
        assert(dst@[s as int].hold(plan@[s as int].area()));
        let planes = cpu_feature_planes::<F, A>(&src[s], &dst[s], plan[s].width, plan[s].height);
        assert(planes@ == wanted[s as int]);
        all.push(planes);
        s += 1;
    }
    proof {
        assert forall|k: int| 0 <= k < plan@.len() implies (#[trigger] all@[k]).wf()
            && all@[k]@.len() == CHANNELS * plan@[k].area() by {
            lemma_level(plan@, k);
            assert(all@[k]@ == wanted[k]);
        }
        assert(views(all@) =~= wanted);
    }
    let map = cpu_diffmap(plan, &all);
    (all, map)
}

// ───────────── the kernels compute the reference ─────────────

/// Bit for bit, the map that the kernels compute from moment planes is the reference map of
/// the same planes, provided that zero and a weighted error add up to it.
pub proof fn law_device_map_is_reference_map<F: Scalar>(
    plan: Seq<Level>,
    planes: Seq<Seq<Moments<F>>>,
    levels: nat,
)
    requires
        leveled(plan),
        levels <= plan.len(),
        adds_to_zero(weights::<F>()[0]),
    ensures
        device_map(plan, planes, levels) == reference_map(plan, planes, levels),
    decreases levels,
{
    if levels > 0 {
        let s = levels - 1;
        lemma_level(plan, s);
        law_device_map_is_reference_map(plan, planes, s as nat);
        let area = plan[s].area();
        let errors = reference_errors(planes[s], area, area, weights());
        assert forall|i: int| 0 <= i < area implies #[trigger] device_level(planes[s], area)[i]
            == errors[i] by {
            law_device_error_is_reference_error(planes[s], area, weights(), i);
        }
        assert(device_level(planes[s], area) =~= errors);
        law_device_adds_as_reference(
            errors,
            plan[s].width as int,
            plan[s].height as int,
            reference_map(plan, planes, s as nat),
            plan[0].width as int,
            plan[0].height as int,
            s as nat,
            level_blend(plan),
            plan[0].area(),
        );
    }
}

/// Before rounding, the kernels compute from images what the host does: the same moment
/// planes at every level, and the same map.
pub proof fn law_device_run_is_reference_run(
    plan: Seq<Level>,
    src: Seq<Channels<Exact>>,
    dst: Seq<Channels<Exact>>,
)
    requires
        runnable(plan),
        images_fit(plan, src),
        images_fit(plan, dst),
    ensures
        all_device_planes(plan, src, dst) == all_reference_planes::<Exact, Exact>(plan, src, dst),
        device_map(plan, all_device_planes(plan, src, dst), plan.len()) == reference_map(
            plan,
            all_reference_planes::<Exact, Exact>(plan, src, dst),
            plan.len(),
        ),
{
    assert forall|s: int| 0 <= s < plan.len() implies #[trigger] all_device_planes(plan, src, dst)[s]
        == all_reference_planes::<Exact, Exact>(plan, src, dst)[s] by {
        lemma_level(plan, s);
        let before = device_planes(&src[s], &dst[s], plan[s]);
        law_blur_overwrites_planes(before, &src[s], &dst[s], plan[s]);
        law_blurred_planes_are_reference_planes(
            before,
            &src[s],
            &dst[s],
            level_layout(plan[s]),
        );
    }
    assert(all_device_planes(plan, src, dst) =~= all_reference_planes::<Exact, Exact>(
        plan,
        src,
        dst,
    ));
    law_exact_errors_add_to_zero(weights::<Exact>()[0]);
    law_device_map_is_reference_map(plan, all_device_planes(plan, src, dst), plan.len());
}

} // verus!
