//! What the steps of a run do to the memory of a device, and that a run computes the map.
use vstd::prelude::*;

use crate::blur::{blurred, Channels};
use crate::compare::{law_equal_maps_pass, value_error, Comparison, TOLERANCE_BITS};
use crate::diffmap::{
    all_device_planes, all_reference_planes, device_level, device_map, device_planes, images_fit,
    law_blur_overwrites_planes, law_device_map_is_reference_map, law_device_run_is_reference_run,
    law_scratch_makes_no_difference, lemma_level, level_blend, level_layout, reference_map,
    runnable, weights, Producer,
};
use crate::features::FeatMode;
use crate::geometry::{
    blocks_for, law_blocks_cover_items, lemma_ceil_div_parts, Level, CHANNELS, LINE_UNITS, RELAY_TX,
};
use crate::line::{channels_written, law_relays_hand_on_staged_planes, line_written};
use crate::scalar::{zero, Exact, Scalar};
use crate::ssim::{adds_to_zero, device_errors, law_exact_errors_add_to_zero};
use crate::steps::{
    adding_steps, blur_step, chain_run, feature_run, first_step, line_blocks, producer_steps, Step,
};
use crate::upsample::device_upsampled;
use crate::window::Moments;

verus! {

/// What the buffers of a device hold.
pub struct Memory<F: Scalar> {
    /// The map.
    pub map: Seq<F>,
    /// The moment planes that the host staged last.
    pub staged: Seq<Moments<F>>,
    /// The moment planes that the kernels read.
    pub planes: Seq<Moments<F>>,
    /// The errors of a level.
    pub scratch: Seq<F>,
}

/// What a run starts from: the moment planes of each level, or the images.
pub struct Inputs<F: Scalar> {
    pub planes: Seq<Seq<Moments<F>>>,
    pub src: Seq<Channels<F>>,
    pub dst: Seq<Channels<F>>,
}

/// The first `n` samples filled with zeros on `blocks` blocks.
pub open spec fn zeroed<F: Scalar>(before: Seq<F>, n: u32, blocks: u32) -> Seq<F> {
    line_written(
        before,
        Seq::new(n as nat, |i: int| zero::<F>()),
        n as int,
        blocks * LINE_UNITS,
    )
}

/// `step` takes the memory of a device from `before` to `after`. Kernels do what their
/// contracts say; of memory that was just made, only the size is known.
pub open spec fn performs<F: Scalar>(
    inputs: Inputs<F>,
    blend: F,
    before: Memory<F>,
    step: Step,
    after: Memory<F>,
) -> bool {
    match step {
        Step::ZeroMap { blocks, n } => after == (Memory {
            map: zeroed(before.map, n, blocks),
            ..before
        }),
        Step::Upload { scale, .. } => after == (Memory {
            planes: inputs.planes[scale as int],
            ..before
        }),
        Step::Stage { scale, len } => {
            &&& after.planes.len() == len
            &&& after == (Memory {
                staged: inputs.planes[scale as int],
                planes: after.planes,
                ..before
            })
        },
        Step::Relay1d { blocks, n } => after == (Memory {
            planes: line_written(before.planes, before.staged, n as int, blocks * LINE_UNITS),
            ..before
        }),
        Step::Relay3d { grid, pad_total } => after == (Memory {
            planes: channels_written(
                before.planes,
                before.staged,
                pad_total as int,
                grid.z as int,
                grid.x * RELAY_TX,
            ),
            ..before
        }),
        Step::Blur { scale, len, layout, .. } => exists|fresh: Seq<Moments<F>>|
            fresh.len() == len && after == (Memory {
                planes: #[trigger] blurred(
                    fresh,
                    &inputs.src[scale as int],
                    &inputs.dst[scale as int],
                    layout,
                ),
                ..before
            }),
        Step::Scratch { n } => {
            &&& after.scratch.len() == n
            &&& after == (Memory { scratch: after.scratch, ..before })
        },
        Step::ZeroScratch { blocks, n } => after == (Memory {
            scratch: zeroed(before.scratch, n, blocks),
            ..before
        }),
        Step::PerScale { blocks, width, height, pad_total } => after == (Memory {
            scratch: device_errors(
                before.scratch,
                before.planes,
                width * height,
                pad_total as int,
                weights(),
                blocks * LINE_UNITS,
            ),
            ..before
        }),
        Step::UpsampleAdd { blocks, src_w, src_h, dst_w, dst_h, log2_factor } => after == (Memory {
            map: device_upsampled(
                before.scratch,
                src_w as int,
                src_h as int,
                before.map,
                dst_w as int,
                dst_h as int,
                log2_factor as nat,
                blend,
                blocks * LINE_UNITS,
            ),
            ..before
        }),
    }
}

/// `history` is what the memory of a device holds before, between and after `steps`.
pub open spec fn performed<F: Scalar>(
    inputs: Inputs<F>,
    blend: F,
    steps: Seq<Step>,
    history: Seq<Memory<F>>,
) -> bool {
    &&& history.len() == steps.len() + 1
    &&& forall|k: int|
        0 <= k < steps.len() ==> performs(
            inputs,
            blend,
            #[trigger] history[k],
            steps[k],
            history[k + 1],
        )
}

/// A history of steps that are made up of two parts is made up of two histories.
proof fn lemma_parts<F: Scalar>(
    inputs: Inputs<F>,
    blend: F,
    a: Seq<Step>,
    b: Seq<Step>,
    history: Seq<Memory<F>>,
)
    requires
        performed(inputs, blend, a + b, history),
    ensures
        performed(inputs, blend, a, history.take(a.len() as int + 1)),
        performed(inputs, blend, b, history.skip(a.len() as int)),
        history.take(a.len() as int + 1).last() == history[a.len() as int],
        history.skip(a.len() as int)[0] == history[a.len() as int],
        history.skip(a.len() as int).last() == history.last(),
{
    let (first, second) = (history.take(a.len() as int + 1), history.skip(a.len() as int));
    assert forall|k: int| 0 <= k < a.len() implies performs(
        inputs,
        blend,
        #[trigger] first[k],
        a[k],
        first[k + 1],
    ) by {
        assert(performs(inputs, blend, history[k], (a + b)[k], history[k + 1]));
    }
    assert forall|k: int| 0 <= k < b.len() implies performs(
        inputs,
        blend,
        #[trigger] second[k],
        b[k],
        second[k + 1],
    ) by {
        let j = a.len() + k;
        assert(performs(inputs, blend, history[j], (a + b)[j], history[j + 1]));
    }
}

proof fn lemma_line_cover(n: int)
    requires
        0 <= n <= u32::MAX,
    ensures
        line_blocks(n) * LINE_UNITS >= n,
        line_blocks(n) == blocks_for(n, LINE_UNITS as int),
{
    law_blocks_cover_items(n, LINE_UNITS as int);
    lemma_ceil_div_parts(n, LINE_UNITS as int);
}

/// A run starts with a map of zeros.
proof fn lemma_start<F: Scalar>(
    plan: Seq<Level>,
    inputs: Inputs<F>,
    blend: F,
    history: Seq<Memory<F>>,
)
    requires
        runnable(plan),
        performed(inputs, blend, seq![first_step(plan)], history),
        history[0].map.len() == plan[0].area(),
    ensures
        history.last().map == Seq::new(plan[0].area() as nat, |i: int| zero::<F>()),
{
    lemma_level(plan, 0);
    let area = plan[0].area();
    lemma_line_cover(area);
    assert(performs(inputs, blend, history[0], first_step(plan), history[1]));
    assert(zeroed(history[0].map, area as u32, line_blocks(area)) =~= Seq::new(
        area as nat,
        |i: int| zero::<F>(),
    ));
}

/// The steps that add a level do: whatever its scratch held, zeroed or not.
proof fn lemma_adds<F: Scalar>(
    plan: Seq<Level>,
    s: int,
    zero_fill: bool,
    inputs: Inputs<F>,
    history: Seq<Memory<F>>,
)
    requires
        runnable(plan),
        0 <= s < plan.len(),
        performed(inputs, level_blend(plan), adding_steps(plan, s, zero_fill), history),
        history[0].map.len() == plan[0].area(),
    ensures
        history.last().map == device_upsampled(
            device_level(history[0].planes, plan[s].area()),
            plan[s].width as int,
            plan[s].height as int,
            history[0].map,
            plan[0].width as int,
            plan[0].height as int,
            s as nat,
            level_blend(plan),
            plan[0].area(),
        ),
        history.last().planes == history[0].planes,
{
    lemma_level(plan, 0);
    lemma_level(plan, s);
    let blend = level_blend::<F>(plan);
    let (area, base) = (plan[s].area(), plan[0].area());
    lemma_line_cover(area);
    lemma_line_cover(base);
    let steps = adding_steps(plan, s, zero_fill);
    let n = steps.len() as int;
    assert(performs(inputs, blend, history[0], steps[0], history[1]));
    if zero_fill {
        assert(performs(inputs, blend, history[1], steps[1], history[2]));
    }
    let ready = history[n - 2];
    assert(ready.scratch.len() == area && ready.planes == history[0].planes && ready.map
        == history[0].map);
    assert(performs(inputs, blend, ready, steps[n - 2], history[n - 1]));
    assert(performs(inputs, blend, history[n - 1], steps[n - 1], history[n]));
    law_scratch_makes_no_difference(ready.scratch, ready.planes, area);
    assert(history[n].map =~= device_upsampled(
        device_level(history[0].planes, area),
        plan[s].width as int,
        plan[s].height as int,
        history[0].map,
        plan[0].width as int,
        plan[0].height as int,
        s as nat,
        blend,
        base,
    ));
}

/// The steps that bring the moment planes of a level to the kernels do, and leave the map
/// alone.
proof fn lemma_produces<F: Scalar>(
    plan: Seq<Level>,
    s: int,
    producer: Producer,
    inputs: Inputs<F>,
    blend: F,
    history: Seq<Memory<F>>,
)
    requires
        runnable(plan),
        0 <= s < plan.len(),
        inputs.planes[s].len() == CHANNELS * plan[s].area(),
        performed(inputs, blend, producer_steps(plan[s], s, producer), history),
    ensures
        history.last().planes == inputs.planes[s],
        history.last().map == history[0].map,
{
    lemma_level(plan, s);
    let area = plan[s].area();
    let steps = producer_steps(plan[s], s, producer);
    assert(performs(inputs, blend, history[0], steps[0], history[1]));
    if producer != Producer::Host {
        lemma_line_cover(CHANNELS * area);
        law_blocks_cover_items(area, RELAY_TX as int);
        lemma_ceil_div_parts(area, RELAY_TX as int);
        assert(performs(inputs, blend, history[1], steps[1], history[2]));
        law_relays_hand_on_staged_planes(history[1].planes, history[1].staged, area);
    }
}

proof fn lemma_chain_levels<F: Scalar>(
    plan: Seq<Level>,
    zero_fill: bool,
    producer: Producer,
    levels: nat,
    inputs: Inputs<F>,
    history: Seq<Memory<F>>,
)
    requires
        runnable(plan),
        levels <= plan.len(),
        forall|s: int|
            0 <= s < plan.len() ==> (#[trigger] inputs.planes[s]).len() == CHANNELS
                * plan[s].area(),
        performed(
            inputs,
            level_blend(plan),
            chain_run(plan, zero_fill, producer, levels),
            history,
        ),
        history[0].map.len() == plan[0].area(),
    ensures
        history.last().map == device_map(plan, inputs.planes, levels),
        history.last().map.len() == plan[0].area(),
    decreases levels,
{
    let blend = level_blend::<F>(plan);
    if levels == 0 {
        lemma_start(plan, inputs, blend, history);
    } else {
        let s = levels - 1;
        let before = chain_run(plan, zero_fill, producer, s as nat);
        let produced = producer_steps(plan[s], s, producer);
        let added = adding_steps(plan, s, zero_fill);
        lemma_parts(inputs, blend, before + produced, added, history);
        let (front, back) = (
            history.take((before + produced).len() as int + 1),
            history.skip((before + produced).len() as int),
        );
        lemma_parts(inputs, blend, before, produced, front);
        let (start, middle) = (front.take(before.len() as int + 1), front.skip(before.len() as int));
        lemma_chain_levels(plan, zero_fill, producer, s as nat, inputs, start);
        assert(inputs.planes[s].len() == CHANNELS * plan[s].area());
        lemma_produces(plan, s, producer, inputs, blend, middle);
        lemma_adds(plan, s, zero_fill, inputs, back);
    }
}

/// A run on moment planes computes their map, whatever the memory of the device held
/// before, and whatever memory that is made on the way holds.
pub proof fn law_chain_run_computes_map<F: Scalar>(
    plan: Seq<Level>,
    zero_fill: bool,
    producer: Producer,
    inputs: Inputs<F>,
    history: Seq<Memory<F>>,
)
    requires
        runnable(plan),
        forall|s: int|
            0 <= s < plan.len() ==> (#[trigger] inputs.planes[s]).len() == CHANNELS
                * plan[s].area(),
        performed(
            inputs,
            level_blend(plan),
            chain_run(plan, zero_fill, producer, plan.len()),
            history,
        ),
        history[0].map.len() == plan[0].area(),
    ensures
        history.last().map == device_map(plan, inputs.planes, plan.len()),
{
    lemma_chain_levels(plan, zero_fill, producer, plan.len(), inputs, history);
}

/// Two runs on the same moment planes read back the same map, bit for bit, whichever way
/// the planes get to the kernels, and whether scratch is zeroed or not.
pub proof fn law_producers_give_one_map<F: Scalar>(
    plan: Seq<Level>,
    inputs: Inputs<F>,
    zero_fill: bool,
    producer: Producer,
    history: Seq<Memory<F>>,
    other_zero_fill: bool,
    other_producer: Producer,
    other_history: Seq<Memory<F>>,
)
    requires
        runnable(plan),
        forall|s: int|
            0 <= s < plan.len() ==> (#[trigger] inputs.planes[s]).len() == CHANNELS
                * plan[s].area(),
        performed(
            inputs,
            level_blend(plan),
            chain_run(plan, zero_fill, producer, plan.len()),
            history,
        ),
        performed(
            inputs,
            level_blend(plan),
            chain_run(plan, other_zero_fill, other_producer, plan.len()),
            other_history,
        ),
        history[0].map.len() == plan[0].area(),
        other_history[0].map.len() == plan[0].area(),
    ensures
        history.last().map == other_history.last().map,
{
    law_chain_run_computes_map(plan, zero_fill, producer, inputs, history);
    law_chain_run_computes_map(plan, other_zero_fill, other_producer, inputs, other_history);
}

/// The errors of a map, by the patterns that `bits` gives its values and by those of the
/// differences.
pub open spec fn map_errors<F: Scalar>(
    map: Seq<F>,
    reference: Seq<F>,
    bits: spec_fn(F) -> u32,
    differences: Seq<u32>,
) -> Seq<u32> {
    Seq::new(
        reference.len(),
        |i: int| value_error(bits(map[i]), bits(reference[i]), differences[i]),
    )
}

/// A run on moment planes passes, of every size, with every producer, zeroed or not: on a
/// device whose kernels do what their contracts say it reads back the reference map bit for
/// bit, provided that zero and a weighted error add up to it.
pub proof fn law_chain_run_passes<F: Scalar>(
    plan: Seq<Level>,
    zero_fill: bool,
    producer: Producer,
    inputs: Inputs<F>,
    history: Seq<Memory<F>>,
    bits: spec_fn(F) -> u32,
    differences: Seq<u32>,
    found: Comparison,
)
    requires
        runnable(plan),
        forall|s: int|
            0 <= s < plan.len() ==> (#[trigger] inputs.planes[s]).len() == CHANNELS
                * plan[s].area(),
        performed(
            inputs,
            level_blend(plan),
            chain_run(plan, zero_fill, producer, plan.len()),
            history,
        ),
        history[0].map.len() == plan[0].area(),
        adds_to_zero(weights::<F>()[0]),
        found.is_of(
            map_errors(
                history.last().map,
                reference_map(plan, inputs.planes, plan.len()),
                bits,
                differences,
            ),
        ),
    ensures
        history.last().map == reference_map(plan, inputs.planes, plan.len()),
        found.max_err == 0,
        found.max_err <= TOLERANCE_BITS,
        found.n_div == 0,
{
    law_chain_run_computes_map(plan, zero_fill, producer, inputs, history);
    law_device_map_is_reference_map(plan, inputs.planes, plan.len());
    let reference = reference_map(plan, inputs.planes, plan.len());
    law_equal_maps_pass(found, map_errors(history.last().map, reference, bits, differences));
}

/// The step that blurs a level writes its moment planes, and leaves the map alone.
proof fn lemma_blurs<F: Scalar>(
    plan: Seq<Level>,
    s: int,
    mode: FeatMode,
    inputs: Inputs<F>,
    blend: F,
    before: Memory<F>,
    after: Memory<F>,
)
    requires
        runnable(plan),
        0 <= s < plan.len(),
        performs(inputs, blend, before, blur_step(plan[s], s, mode), after),
    ensures
        after.planes == device_planes(&inputs.src[s], &inputs.dst[s], plan[s]),
        after.map == before.map,
{
    lemma_level(plan, s);
    let (src, dst) = (&inputs.src[s], &inputs.dst[s]);
    let layout = level_layout(plan[s]);
    let fresh = choose|fresh: Seq<Moments<F>>|
        fresh.len() == CHANNELS * plan[s].area() && after == (Memory {
            planes: #[trigger] blurred(fresh, src, dst, layout),
            ..before
        });
    law_blur_overwrites_planes(fresh, src, dst, plan[s]);
}

/// Whatever step of a run blurs a level, the planes that the kernels read after it, and
/// that the host reads back, are those of the level.
pub proof fn law_blur_step_writes_planes<F: Scalar>(
    plan: Seq<Level>,
    s: int,
    mode: FeatMode,
    inputs: Inputs<F>,
    steps: Seq<Step>,
    history: Seq<Memory<F>>,
    k: int,
)
    requires
        runnable(plan),
        0 <= s < plan.len(),
        performed(inputs, level_blend(plan), steps, history),
        0 <= k < steps.len(),
        steps[k] == blur_step(plan[s], s, mode),
    ensures
        history[k + 1].planes == device_planes(&inputs.src[s], &inputs.dst[s], plan[s]),
        history[k + 1].map == history[k].map,
{
    let blend = level_blend::<F>(plan);
    assert(performs(inputs, blend, history[k], steps[k], history[k + 1]));
    lemma_blurs(plan, s, mode, inputs, blend, history[k], history[k + 1]);
}

proof fn lemma_feature_levels<F: Scalar>(
    plan: Seq<Level>,
    mode: FeatMode,
    levels: nat,
    inputs: Inputs<F>,
    history: Seq<Memory<F>>,
)
    requires
        runnable(plan),
        levels <= plan.len(),
        performed(inputs, level_blend(plan), feature_run(plan, mode, levels), history),
        history[0].map.len() == plan[0].area(),
    ensures
        history.last().map == device_map(
            plan,
            all_device_planes(plan, inputs.src, inputs.dst),
            levels,
        ),
        history.last().map.len() == plan[0].area(),
    decreases levels,
{
    let blend = level_blend::<F>(plan);
    if levels == 0 {
        lemma_start(plan, inputs, blend, history);
    } else {
        let s = levels - 1;
        let before = feature_run(plan, mode, s as nat);
        let blur = seq![blur_step(plan[s], s, mode)];
        let added = adding_steps(plan, s, false);
        assert(before.push(blur_step(plan[s], s, mode)) =~= before + blur);
        lemma_parts(inputs, blend, before + blur, added, history);
        let (front, back) = (
            history.take((before + blur).len() as int + 1),
            history.skip((before + blur).len() as int),
        );
        lemma_parts(inputs, blend, before, blur, front);
        let (start, middle) = (front.take(before.len() as int + 1), front.skip(before.len() as int));
        lemma_feature_levels(plan, mode, s as nat, inputs, start);
        assert(performs(inputs, blend, middle[0], blur[0], middle[1]));
        lemma_blurs(plan, s, mode, inputs, blend, middle[0], middle[1]);
        lemma_adds(plan, s, false, inputs, back);
        assert(all_device_planes(plan, inputs.src, inputs.dst)[s] == device_planes(
            &inputs.src[s],
            &inputs.dst[s],
            plan[s],
        ));
    }
}

/// A run on images computes their map, whatever the memory of the device held before, and
/// whatever memory that is made on the way holds. The mode of its blur makes no difference.
pub proof fn law_feature_run_computes_map<F: Scalar>(
    plan: Seq<Level>,
    mode: FeatMode,
    inputs: Inputs<F>,
    history: Seq<Memory<F>>,
)
    requires
        runnable(plan),
        performed(inputs, level_blend(plan), feature_run(plan, mode, plan.len()), history),
        history[0].map.len() == plan[0].area(),
    ensures
        history.last().map == device_map(
            plan,
            all_device_planes(plan, inputs.src, inputs.dst),
            plan.len(),
        ),
{
    lemma_feature_levels(plan, mode, plan.len(), inputs, history);
}

/// Before rounding, a run computes the reference map: of given moment planes, and of
/// images.
pub proof fn law_runs_compute_reference_map(
    plan: Seq<Level>,
    zero_fill: bool,
    producer: Producer,
    mode: FeatMode,
    inputs: Inputs<Exact>,
    history: Seq<Memory<Exact>>,
)
    requires
        runnable(plan),
        forall|s: int|
            0 <= s < plan.len() ==> (#[trigger] inputs.planes[s]).len() == CHANNELS
                * plan[s].area(),
        images_fit(plan, inputs.src),
        images_fit(plan, inputs.dst),
        history[0].map.len() == plan[0].area(),
    ensures
        performed(
            inputs,
            level_blend(plan),
            chain_run(plan, zero_fill, producer, plan.len()),
            history,
        ) ==> history.last().map == reference_map(plan, inputs.planes, plan.len()),
        performed(inputs, level_blend(plan), feature_run(plan, mode, plan.len()), history)
            ==> history.last().map == reference_map(
            plan,
            all_reference_planes::<Exact, Exact>(plan, inputs.src, inputs.dst),
            plan.len(),
        ),
{
    let blend = level_blend::<Exact>(plan);
    if performed(inputs, blend, chain_run(plan, zero_fill, producer, plan.len()), history) {
        law_chain_run_computes_map(plan, zero_fill, producer, inputs, history);
        law_exact_errors_add_to_zero(weights::<Exact>()[0]);
        law_device_map_is_reference_map(plan, inputs.planes, plan.len());
    }
    if performed(inputs, blend, feature_run(plan, mode, plan.len()), history) {
        law_feature_run_computes_map(plan, mode, inputs, history);
        law_device_run_is_reference_run(plan, inputs.src, inputs.dst);
    }
}

} // verus!
