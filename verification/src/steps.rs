//! What the host asks of the device, in order, to have a map computed: buffers, uploads
//! and launches, each with the sizes that it takes.
use vstd::prelude::*;

use crate::blur::{Layout, Offsets};
use crate::diffmap::{layout_of, lemma_level, level_layout, partials_fit, runnable, Producer};
use crate::features::{Body, FeatMode};
use crate::geometry::{
    blocks_for, cube_count, feature_grid, law_blocks_cover_items, lemma_ceil_div_parts, relay_grid,
    strip_count, Grid, Level, CHANNELS, LINE_UNITS, RELAY_TX, TX,
};

verus! {

/// One thing that the host asks of the device.
#[derive(Clone, Copy, Debug, PartialEq, Eq, Structural)]
pub enum Step {
    /// Fill the first `n` samples of the map with zeros.
    ZeroMap { blocks: u32, n: u32 },
    /// Put the moment planes of a level, `len` samples each, where the kernels read them.
    Upload { scale: usize, len: usize },
    /// Put the moment planes of a level, `len` samples each, into a staging area, and make
    /// room for them where the kernels read them.
    Stage { scale: usize, len: usize },
    /// Copy the staged planes linearly.
    Relay1d { blocks: u32, n: u32 },
    /// Copy the staged planes by channels.
    Relay3d { grid: Grid, pad_total: u32 },
    /// Put the images of a level, `pt` samples a channel, where the kernels read them; make
    /// room for `len` samples of each moment plane, for the sums and for the peaks; and
    /// compute the moment planes, and the sums and peaks of the rows of `body`, which go
    /// where `offsets` says.
    Blur {
        scale: usize,
        mode: FeatMode,
        pt: usize,
        len: usize,
        n_sums: usize,
        n_peaks: usize,
        grid: Grid,
        layout: Layout,
        offsets: Offsets,
        body: Body,
    },
    /// Make room for the errors of a level.
    Scratch { n: usize },
    /// Fill the errors of a level with zeros.
    ZeroScratch { blocks: u32, n: u32 },
    /// Compute the errors of a level.
    PerScale { blocks: u32, width: u32, height: u32, pad_total: u32 },
    /// Add the errors of a level to the map.
    UpsampleAdd {
        blocks: u32,
        src_w: u32,
        src_h: u32,
        dst_w: u32,
        dst_h: u32,
        log2_factor: u32,
    },
}

/// Blocks of a linear kernel for `n` samples.
pub open spec fn line_blocks(n: int) -> u32 {
    blocks_for(n, LINE_UNITS as int) as u32
}

/// The steps that bring the moment planes of level `s` to the kernels.
pub open spec fn producer_steps(level: Level, s: int, producer: Producer) -> Seq<Step> {
    let len = (CHANNELS * level.area()) as usize;
    match producer {
        Producer::Host => seq![Step::Upload { scale: s as usize, len }],
        Producer::Relay1d => seq![
            Step::Stage { scale: s as usize, len },
            Step::Relay1d { blocks: line_blocks(CHANNELS * level.area()), n: len as u32 },
        ],
        Producer::Relay3d => seq![
            Step::Stage { scale: s as usize, len },
            Step::Relay3d {
                grid: Grid {
                    x: blocks_for(level.area(), RELAY_TX as int) as u32,
                    y: 1,
                    z: CHANNELS,
                },
                pad_total: level.area() as u32,
            },
        ],
    }
}

/// The step that computes the moment planes of level `s` from images.
pub open spec fn blur_step(level: Level, s: int, mode: FeatMode) -> Step {
    let layout = level_layout(level);
    Step::Blur {
        scale: s as usize,
        mode,
        pt: level.area() as usize,
        len: (CHANNELS * level.area()) as usize,
        n_sums: (layout.columns() * mode.n_sums()) as usize,
        n_peaks: (layout.columns() * mode.n_peaks()) as usize,
        grid: Grid {
            x: blocks_for(level.width as int, TX as int) as u32,
            y: layout.n_strips,
            z: CHANNELS,
        },
        layout,
        offsets: Offsets { sums: 0, peaks: 0 },
        body: Body { start: 0, end: layout.height },
    }
}

/// The steps that add level `s` to the map, once its moment planes are there.
pub open spec fn adding_steps(plan: Seq<Level>, s: int, zero_fill: bool) -> Seq<Step> {
    let level = plan[s];
    let area = level.area();
    seq![Step::Scratch { n: area as usize }] + (if zero_fill {
        seq![Step::ZeroScratch { blocks: line_blocks(area), n: area as u32 }]
    } else {
        seq![]
    }) + seq![
        Step::PerScale {
            blocks: line_blocks(area),
            width: level.width as u32,
            height: level.height as u32,
            pad_total: area as u32,
        },
        Step::UpsampleAdd {
            blocks: line_blocks(plan[0].area()),
            src_w: level.width as u32,
            src_h: level.height as u32,
            dst_w: plan[0].width as u32,
            dst_h: plan[0].height as u32,
            log2_factor: s as u32,
        },
    ]
}

/// The step that a run starts with.
pub open spec fn first_step(plan: Seq<Level>) -> Step {
    Step::ZeroMap { blocks: line_blocks(plan[0].area()), n: plan[0].area() as u32 }
}

/// The steps of the first `levels` levels of a run on given moment planes.
pub open spec fn chain_run(
    plan: Seq<Level>,
    zero_fill: bool,
    producer: Producer,
    levels: nat,
) -> Seq<Step>
    decreases levels,
{
    if levels == 0 {
        seq![first_step(plan)]
    } else {
        let s = levels - 1;
        chain_run(plan, zero_fill, producer, s as nat) + producer_steps(plan[s], s, producer)
            + adding_steps(plan, s, zero_fill)
    }
}

/// The steps of the first `levels` levels of a run on images.
pub open spec fn feature_run(plan: Seq<Level>, mode: FeatMode, levels: nat) -> Seq<Step>
    decreases levels,
{
    if levels == 0 {
        seq![first_step(plan)]
    } else {
        let s = levels - 1;
        feature_run(plan, mode, s as nat).push(blur_step(plan[s], s, mode)) + adding_steps(
            plan,
            s,
            false,
        )
    }
}

/// A launch has a unit for every sample that it is to write.
pub open spec fn covers(step: Step) -> bool {
    match step {
        Step::ZeroMap { blocks, n } => n <= blocks * LINE_UNITS,
        Step::Relay1d { blocks, n } => n <= blocks * LINE_UNITS,
        Step::Relay3d { grid, pad_total } => pad_total <= grid.x * RELAY_TX && grid.z == CHANNELS,
        Step::Blur { grid, layout, .. } => layout.width <= grid.x * TX && grid.y == layout.n_strips
            && grid.z == CHANNELS,
        Step::ZeroScratch { blocks, n } => n <= blocks * LINE_UNITS,
        Step::PerScale { blocks, width, height, .. } => width * height <= blocks * LINE_UNITS,
        Step::UpsampleAdd { blocks, dst_w, dst_h, .. } => dst_w * dst_h <= blocks * LINE_UNITS,
        Step::Upload { .. } => true,
        Step::Stage { .. } => true,
        Step::Scratch { .. } => true,
    }
}

proof fn lemma_line_blocks(n: int)
    requires
        0 <= n <= u32::MAX,
    ensures
        line_blocks(n) == blocks_for(n, LINE_UNITS as int),
        n <= line_blocks(n) * LINE_UNITS,
{
    law_blocks_cover_items(n, LINE_UNITS as int);
    lemma_ceil_div_parts(n, LINE_UNITS as int);
}

proof fn lemma_level_covered(
    plan: Seq<Level>,
    s: int,
    zero_fill: bool,
    producer: Producer,
    mode: FeatMode,
)
    requires
        runnable(plan),
        0 <= s < plan.len(),
    ensures
        covers(first_step(plan)),
        covers(blur_step(plan[s], s, mode)),
        forall|k: int|
            0 <= k < producer_steps(plan[s], s, producer).len() ==> covers(
                #[trigger] producer_steps(plan[s], s, producer)[k],
            ),
        forall|k: int|
            0 <= k < adding_steps(plan, s, zero_fill).len() ==> covers(
                #[trigger] adding_steps(plan, s, zero_fill)[k],
            ),
{
    lemma_level(plan, 0);
    lemma_level(plan, s);
    let (a, a0) = (plan[s].area(), plan[0].area());
    lemma_line_blocks(a);
    lemma_line_blocks(a0);
    lemma_line_blocks(CHANNELS * a);
    law_blocks_cover_items(a, RELAY_TX as int);
    law_blocks_cover_items(plan[s].width as int, TX as int);
    lemma_ceil_div_parts(a, RELAY_TX as int);
    lemma_ceil_div_parts(plan[s].width as int, TX as int);
}

/// Every launch of a run on moment planes has a unit for every sample that it is to write.
pub proof fn law_chain_run_covers(
    plan: Seq<Level>,
    zero_fill: bool,
    producer: Producer,
    levels: nat,
    k: int,
)
    requires
        runnable(plan),
        levels <= plan.len(),
        0 <= k < chain_run(plan, zero_fill, producer, levels).len(),
    ensures
        covers(chain_run(plan, zero_fill, producer, levels)[k]),
    decreases levels,
{
    if levels == 0 {
        lemma_level_covered(plan, 0, zero_fill, producer, FeatMode::Full);
    } else {
        let s = levels - 1;
        let before = chain_run(plan, zero_fill, producer, s as nat);
        let produced = producer_steps(plan[s], s, producer);
        lemma_level_covered(plan, s, zero_fill, producer, FeatMode::Full);
        if k < before.len() {
            law_chain_run_covers(plan, zero_fill, producer, s as nat, k);
        } else if k < before.len() + produced.len() {
            assert(covers(produced[k - before.len()]));
        } else {
            assert(covers(
                adding_steps(plan, s, zero_fill)[k - before.len() - produced.len()],
            ));
        }
    }
}

/// Every launch of a run on images has a unit for every sample that it is to write.
pub proof fn law_feature_run_covers(plan: Seq<Level>, mode: FeatMode, levels: nat, k: int)
    requires
        runnable(plan),
        levels <= plan.len(),
        0 <= k < feature_run(plan, mode, levels).len(),
    ensures
        covers(feature_run(plan, mode, levels)[k]),
    decreases levels,
{
    if levels == 0 {
        lemma_level_covered(plan, 0, false, Producer::Host, mode);
    } else {
        let s = levels - 1;
        let before = feature_run(plan, mode, s as nat);
        lemma_level_covered(plan, s, false, Producer::Host, mode);
        if k < before.len() {
            law_feature_run_covers(plan, mode, s as nat, k);
        } else if k > before.len() {
            assert(covers(adding_steps(plan, s, false)[k - before.len() - 1]));
        }
    }
}

/// Blocks of a linear kernel that are just enough for `n` samples.
pub open spec fn just_enough(blocks: u32, n: int) -> bool {
    (blocks - 1) * 256 < n <= blocks * 256
}

/// The steps that add level `s` of a plan to the map stand in `steps` from `at` on: room for its
/// errors, zeros into it where they are asked for, the errors, and the adding.
pub open spec fn adds_level(
    steps: Seq<Step>,
    at: int,
    plan: Seq<Level>,
    s: int,
    zero_fill: bool,
) -> bool {
    let (w, h) = (plan[s].width, plan[s].height);
    let (w0, h0) = (plan[0].width, plan[0].height);
    let zero: int = if zero_fill { 1 } else { 0 };
    &&& steps[at] matches Step::Scratch { n } && n == w * h
    &&& zero_fill ==> (steps[at + 1] matches Step::ZeroScratch { blocks, n } && n == w * h
        && just_enough(blocks, w * h))
    &&& steps[at + 1 + zero] matches Step::PerScale { blocks, width, height, pad_total } && width
        == w && height == h && pad_total == w * h && just_enough(blocks, w * h)
    &&& steps[at + 2 + zero] matches Step::UpsampleAdd {
        blocks,
        src_w,
        src_h,
        dst_w,
        dst_h,
        log2_factor,
    } && src_w == w && src_h == h && dst_w == w0 && dst_h == h0 && log2_factor == s && just_enough(
        blocks,
        w0 * h0,
    )
}

/// The steps that bring the moment planes of level `s` to the kernels stand in `steps` from `at`
/// on: three channels of each.
pub open spec fn brings_level(
    steps: Seq<Step>,
    at: int,
    plan: Seq<Level>,
    s: int,
    producer: Producer,
) -> bool {
    let area = plan[s].width * plan[s].height;
    match producer {
        Producer::Host => steps[at] matches Step::Upload { scale, len } && scale == s && len == 3
            * area,
        Producer::Relay1d => {
            &&& steps[at] matches Step::Stage { scale, len } && scale == s && len == 3 * area
            &&& steps[at + 1] matches Step::Relay1d { blocks, n } && n == 3 * area && just_enough(
                blocks,
                3 * area,
            )
        },
        Producer::Relay3d => {
            &&& steps[at] matches Step::Stage { scale, len } && scale == s && len == 3 * area
            &&& steps[at + 1] matches Step::Relay3d { grid, pad_total } && pad_total == area
                && just_enough(grid.x, area) && grid.y == 1 && grid.z == 3
        },
    }
}

proof fn lemma_adding_steps(plan: Seq<Level>, s: int, zero_fill: bool)
    requires
        runnable(plan),
        0 <= s < plan.len(),
    ensures
        adds_level(adding_steps(plan, s, zero_fill), 0, plan, s, zero_fill),
        adding_steps(plan, s, zero_fill).len() == 3 + (if zero_fill {
            1int
        } else {
            0
        }),
{
    lemma_level(plan, 0);
    lemma_level(plan, s);
    let (a, a0) = (plan[s].area(), plan[0].area());
    lemma_line_blocks(a);
    lemma_line_blocks(a0);
    law_blocks_cover_items(a, LINE_UNITS as int);
    law_blocks_cover_items(a0, LINE_UNITS as int);
}

proof fn lemma_producer_steps(plan: Seq<Level>, s: int, producer: Producer)
    requires
        runnable(plan),
        0 <= s < plan.len(),
    ensures
        brings_level(producer_steps(plan[s], s, producer), 0, plan, s, producer),
        producer_steps(plan[s], s, producer).len() == (if producer is Host {
            1int
        } else {
            2
        }),
{
    lemma_level(plan, s);
    let a = plan[s].area();
    lemma_line_blocks(CHANNELS * a);
    law_blocks_cover_items(CHANNELS * a, LINE_UNITS as int);
    law_blocks_cover_items(a, RELAY_TX as int);
    lemma_ceil_div_parts(a, RELAY_TX as int);
}

/// Steps that stand in a part of a sequence stand in the whole of it.
proof fn lemma_in_part(
    part: Seq<Step>,
    whole: Seq<Step>,
    at: int,
    plan: Seq<Level>,
    s: int,
    zero_fill: bool,
    producer: Producer,
)
    requires
        forall|k: int| 0 <= k < part.len() ==> #[trigger] whole[at + k] == part[k],
    ensures
        part.len() == 3 + (if zero_fill {
            1int
        } else {
            0
        }) && adds_level(part, 0, plan, s, zero_fill) ==> adds_level(whole, at, plan, s, zero_fill),
        part.len() == (if producer is Host {
            1int
        } else {
            2
        }) && brings_level(part, 0, plan, s, producer) ==> brings_level(
            whole,
            at,
            plan,
            s,
            producer,
        ),
{
    assert(part.len() > 0 ==> whole[at + 0] == part[0]);
    assert(part.len() > 1 ==> whole[at + 1] == part[1]);
    assert(part.len() > 2 ==> whole[at + 2] == part[2]);
    assert(part.len() > 3 ==> whole[at + 3] == part[3]);
}

/// How many steps a run on moment planes takes for a level: one or two to bring the planes, and
/// three, or four with zeroing, to add the errors.
pub open spec fn steps_per_level(producer: Producer, zero_fill: bool) -> int {
    (if producer is Host {
        1int
    } else {
        2
    }) + (if zero_fill {
        4int
    } else {
        3
    })
}

/// A run on moment planes starts by zeroing the map, and then takes the same number of steps for
/// each level.
pub proof fn law_chain_run_starts_from_zero(
    plan: Seq<Level>,
    zero_fill: bool,
    producer: Producer,
    levels: nat,
)
    requires
        runnable(plan),
        levels <= plan.len(),
    ensures
        ({
            let steps = chain_run(plan, zero_fill, producer, levels);
            let area = plan[0].width * plan[0].height;
            &&& steps.len() == 1 + levels * steps_per_level(producer, zero_fill)
            &&& steps[0] matches Step::ZeroMap { blocks, n } && n == area && just_enough(blocks, area)
        }),
    decreases levels,
{
    let each = steps_per_level(producer, zero_fill);
    lemma_level(plan, 0);
    lemma_line_blocks(plan[0].area());
    law_blocks_cover_items(plan[0].area(), LINE_UNITS as int);
    if levels == 0 {
        assert(0 * each == 0) by (nonlinear_arith);
    } else {
        let m = levels - 1;
        law_chain_run_starts_from_zero(plan, zero_fill, producer, m as nat);
        lemma_producer_steps(plan, m, producer);
        lemma_adding_steps(plan, m, zero_fill);
        assert(levels * each == m * each + each) by (nonlinear_arith)
            requires
                levels == m + 1,
        ;
        assert(0 <= m * each) by (nonlinear_arith)
            requires
                0 <= m,
                0 <= each,
        ;
        let steps = chain_run(plan, zero_fill, producer, levels);
        assert(steps[0] == chain_run(plan, zero_fill, producer, m as nat)[0]);
    }
}

/// A run on moment planes goes level by level from the first on. It brings the planes of a level
/// to the kernels in the way that was asked for, makes room for its errors, zeroes it exactly
/// where that was asked for, computes the errors and adds them to the map, all with the sizes of
/// that level.
pub proof fn law_chain_run_goes_level_by_level(
    plan: Seq<Level>,
    zero_fill: bool,
    producer: Producer,
    levels: nat,
    s: int,
)
    requires
        runnable(plan),
        levels <= plan.len(),
        0 <= s < levels,
    ensures
        ({
            let steps = chain_run(plan, zero_fill, producer, levels);
            let at = 1 + s * steps_per_level(producer, zero_fill);
            let bring: int = if producer is Host { 1 } else { 2 };
            &&& brings_level(steps, at, plan, s, producer)
            &&& adds_level(steps, at + bring, plan, s, zero_fill)
        }),
    decreases levels,
{
    let steps = chain_run(plan, zero_fill, producer, levels);
    let each = steps_per_level(producer, zero_fill);
    let bring: int = if producer is Host { 1 } else { 2 };
    let m = levels - 1;
    let before = chain_run(plan, zero_fill, producer, m as nat);
    let at = 1 + s * each;
    law_chain_run_starts_from_zero(plan, zero_fill, producer, m as nat);
    lemma_producer_steps(plan, m, producer);
    lemma_adding_steps(plan, m, zero_fill);
    if s < m {
        law_chain_run_goes_level_by_level(plan, zero_fill, producer, m as nat, s);
        assert(0 <= s * each && s * each + each <= m * each) by (nonlinear_arith)
            requires
                0 <= s,
                s + 1 <= m,
                0 <= each,
        ;
        assert(forall|k: int| 0 <= k < before.len() ==> #[trigger] steps[k] == before[k]);
    } else {
        let brought = producer_steps(plan[m], m, producer);
        let added = adding_steps(plan, m, zero_fill);
        lemma_in_part(brought, steps, at, plan, m, zero_fill, producer);
        lemma_in_part(added, steps, at + bring, plan, m, zero_fill, producer);
    }
}

/// The step that computes the moment planes of level `s` from images stands in `steps` at `at`.
pub open spec fn blurs_level(
    steps: Seq<Step>,
    at: int,
    plan: Seq<Level>,
    s: int,
    mode: FeatMode,
) -> bool {
    let (w, h) = (plan[s].width, plan[s].height);
    steps[at] matches Step::Blur {
        scale,
        mode: asked,
        pt,
        len,
        n_sums,
        n_peaks,
        grid,
        layout,
        offsets,
        body,
    } && {
        &&& scale == s && asked == mode && pt == w * h && len == 3 * (w * h)
        &&& layout.width == w && layout.height == h && layout.pad_total == w * h
        &&& layout.n_strips == strip_count(w as int, h as int)
        &&& layout.n_strips == grid.y && (grid.x - 1) * 64 < w <= grid.x * 64 && grid.z == 3
        &&& offsets.sums == 0 && offsets.peaks == 0
        &&& body.start == 0 && body.end == h
        &&& mode is Full ==> n_sums == 3 * grid.y * w * 17 && n_peaks == 3 * grid.y * w * 3
        &&& mode is BlurOnly ==> n_sums == 0 && n_peaks == 0
        &&& mode is BlurF64 ==> n_sums == 3 * grid.y * w && n_peaks == 0
    }
}

proof fn lemma_blur_step(plan: Seq<Level>, s: int, mode: FeatMode)
    requires
        runnable(plan),
        0 <= s < plan.len(),
        partials_fit(plan[s]),
    ensures
        blurs_level(seq![blur_step(plan[s], s, mode)], 0, plan, s, mode),
{
    lemma_level(plan, s);
    law_blocks_cover_items(plan[s].width as int, TX as int);
    lemma_ceil_div_parts(plan[s].width as int, TX as int);
    let columns = level_layout(plan[s]).columns();
    let w = plan[s].width as int;
    let n = level_layout(plan[s]).n_strips as int;
    assert(columns == 3 * n * w);
    assert(0 <= columns) by (nonlinear_arith)
        requires
            columns == 3 * n * w,
            0 <= n,
            0 <= w,
    ;
}

/// A run on images starts by zeroing the map, and then takes four steps for each level.
pub proof fn law_feature_run_starts_from_zero(plan: Seq<Level>, mode: FeatMode, levels: nat)
    requires
        runnable(plan),
        levels <= plan.len(),
    ensures
        ({
            let steps = feature_run(plan, mode, levels);
            let area = plan[0].width * plan[0].height;
            &&& steps.len() == 1 + levels * 4
            &&& steps[0] matches Step::ZeroMap { blocks, n } && n == area && just_enough(blocks, area)
        }),
    decreases levels,
{
    lemma_level(plan, 0);
    lemma_line_blocks(plan[0].area());
    law_blocks_cover_items(plan[0].area(), LINE_UNITS as int);
    if levels > 0 {
        let m = levels - 1;
        law_feature_run_starts_from_zero(plan, mode, m as nat);
        lemma_adding_steps(plan, m, false);
        assert(feature_run(plan, mode, levels)[0] == feature_run(plan, mode, m as nat)[0]);
    }
}

/// A run on images goes level by level from the first on. It computes the moment planes of a
/// level, all its rows counting, makes room for its errors, computes them and adds them to the
/// map, all with the sizes of that level.
pub proof fn law_feature_run_goes_level_by_level(
    plan: Seq<Level>,
    mode: FeatMode,
    levels: nat,
    s: int,
)
    requires
        runnable(plan),
        levels <= plan.len(),
        0 <= s < levels,
        partials_fit(plan[s]),
    ensures
        blurs_level(feature_run(plan, mode, levels), 1 + s * 4, plan, s, mode),
        adds_level(feature_run(plan, mode, levels), 2 + s * 4, plan, s, false),
    decreases levels,
{
    let steps = feature_run(plan, mode, levels);
    let m = levels - 1;
    let before = feature_run(plan, mode, m as nat);
    law_feature_run_starts_from_zero(plan, mode, m as nat);
    lemma_adding_steps(plan, m, false);
    if s < m {
        law_feature_run_goes_level_by_level(plan, mode, m as nat, s);
        assert(forall|k: int| 0 <= k < before.len() ==> #[trigger] steps[k] == before[k]);
    } else {
        let added = adding_steps(plan, m, false);
        lemma_blur_step(plan, m, mode);
        assert(steps[1 + m * 4] == blur_step(plan[m], m, mode));
        lemma_in_part(added, steps, 2 + m * 4, plan, m, false, Producer::Host);
    }
}

fn push_adding_steps(plan: &Vec<Level>, s: usize, zero_fill: bool, steps: &mut Vec<Step>)
    requires
        runnable(plan@),
        s < plan@.len(),
    ensures
        final(steps)@ == old(steps)@ + adding_steps(plan@, s as int, zero_fill),
{
    proof {
        lemma_level(plan@, 0);
        lemma_level(plan@, s as int);
    }
    let base: Level = plan[0];
    let level: Level = plan[s];
    let pt: usize = level.width * level.height;
    let base_n: usize = base.width * base.height;
    steps.push(Step::Scratch { n: pt });
    if zero_fill {
        steps.push(Step::ZeroScratch { blocks: cube_count(pt).x, n: pt as u32 });
    }
    steps.push(
        Step::PerScale {
            blocks: cube_count(pt).x,
            width: level.width as u32,
            height: level.height as u32,
            pad_total: pt as u32,
        },
    );
    steps.push(
        Step::UpsampleAdd {
            blocks: cube_count(base_n).x,
            src_w: level.width as u32,
            src_h: level.height as u32,
            dst_w: base.width as u32,
            dst_h: base.height as u32,
            log2_factor: s as u32,
        },
    );
    proof {
        lemma_line_blocks(pt as int);
        lemma_line_blocks(base_n as int);
        assert(steps@ =~= old(steps)@ + adding_steps(plan@, s as int, zero_fill));
    }
}

fn start_steps(plan: &Vec<Level>) -> (steps: Vec<Step>)
    requires
        runnable(plan@),
    ensures
        steps@ == seq![first_step(plan@)],
{
    proof {
        lemma_level(plan@, 0);
        lemma_line_blocks(plan@[0].area());
    }
    let base_n: usize = plan[0].width * plan[0].height;
    let mut steps: Vec<Step> = Vec::new();
    steps.push(Step::ZeroMap { blocks: cube_count(base_n).x, n: base_n as u32 });
    steps
}

/// The steps of a run on given moment planes.
pub fn chain_steps(plan: &Vec<Level>, zero_fill: bool, producer: Producer) -> (steps: Vec<Step>)
    requires
        runnable(plan@),
    ensures
        steps@ == chain_run(plan@, zero_fill, producer, plan@.len()),
{
    let mut steps: Vec<Step> = start_steps(plan);
    let mut s: usize = 0;
    while s < plan.len()
        invariant
            s <= plan@.len(),
            runnable(plan@),
            steps@ == chain_run(plan@, zero_fill, producer, s as nat),
        decreases plan@.len() - s,
    {
        let ghost before = steps@;
        proof {
            lemma_level(plan@, s as int);
            lemma_line_blocks(CHANNELS * plan@[s as int].area());
        }
        let pt: usize = plan[s].width * plan[s].height;
        let len: usize = pt * 3;
        match producer {
            Producer::Host => {
                steps.push(Step::Upload { scale: s, len });
            },
            Producer::Relay1d => {
                steps.push(Step::Stage { scale: s, len });
                steps.push(Step::Relay1d { blocks: cube_count(len).x, n: len as u32 });
            },
            Producer::Relay3d => {
                steps.push(Step::Stage { scale: s, len });
                steps.push(Step::Relay3d { grid: relay_grid(pt as u32), pad_total: pt as u32 });
            },
        }
        assert(steps@ =~= before + producer_steps(plan@[s as int], s as int, producer));
        push_adding_steps(plan, s, zero_fill, &mut steps);
        s += 1;
    }
    steps
}

/// The steps of a run on images.
pub fn feature_steps(plan: &Vec<Level>, mode: FeatMode) -> (steps: Vec<Step>)
    requires
        runnable(plan@),
        forall|s: int| 0 <= s < plan@.len() ==> partials_fit(#[trigger] plan@[s]),
    ensures
        steps@ == feature_run(plan@, mode, plan@.len()),
{
    let mut steps: Vec<Step> = start_steps(plan);
    let mut s: usize = 0;
    while s < plan.len()
        invariant
            s <= plan@.len(),
            runnable(plan@),
            forall|k: int| 0 <= k < plan@.len() ==> partials_fit(#[trigger] plan@[k]),
            steps@ == feature_run(plan@, mode, s as nat),
        decreases plan@.len() - s,
    {
        proof {
            lemma_level(plan@, s as int);
        }
        let level: Level = plan[s];
        let layout = layout_of(level);
        let pt: usize = level.width * level.height;
        proof {
            let (w, n, m) = (layout.width as int, layout.n_strips as int, mode.n_sums());
            let p = mode.n_peaks();
            assert(layout.columns() == w * n * 3 && 0 <= w * n) by (nonlinear_arith)
                requires
                    layout.columns() == CHANNELS * n * w,
                    CHANNELS == 3,
                    0 <= w,
                    0 <= n,
            ;
            assert(layout.columns() * m <= layout.columns() * 17 && layout.columns() * p
                <= layout.columns() * 17) by (nonlinear_arith)
                requires
                    0 <= layout.columns(),
                    m <= 17,
                    p <= 17,
            ;
        }
        let columns: usize = level.width * layout.n_strips as usize * 3;
        steps.push(
            Step::Blur {
                scale: s,
                mode,
                pt,
                len: pt * 3,
                n_sums: columns * mode.sums_per_column(),
                n_peaks: columns * mode.peaks_per_column(),
                grid: feature_grid(layout.width, layout.n_strips),
                layout,
                offsets: Offsets { sums: 0, peaks: 0 },
                body: Body { start: 0, end: layout.height },
            },
        );
        push_adding_steps(plan, s, false, &mut steps);
        s += 1;
    }
    steps
}

/// Whether scratch is to be zeroed, by the value of the setting: unless it is `0`.
pub fn zero_fill_enabled(value: Option<&str>) -> (r: bool)
    ensures
        r == (match value {
            Some(v) => v@ != "0"@,
            None => true,
        }),
{
    match value {
        Some(v) => {
            proof {
                reveal_strlit("0");
            }
            let is_zero: bool = v.unicode_len() == 1 && v.get_char(0) == '0';
            assert(is_zero ==> v@ =~= "0"@);
            !is_zero
        },
        None => true,
    }
}

} // verus!
