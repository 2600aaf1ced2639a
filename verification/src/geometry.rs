//! Sizes and shapes: the pyramid of an image, the strips that a plane is cut
//! into, and the grids that kernels are launched on.
use vstd::arithmetic::div_mod::{
    lemma_div_denominator, lemma_div_plus_one, lemma_fundamental_div_mod, lemma_mod_bound,
};
use vstd::arithmetic::power2::{lemma_pow2_pos, lemma_pow2_unfold, pow2};
use vstd::prelude::*;

verus! {

/// Units of one block of the blur kernels, side by side along a row.
pub const TX: u32 = 64;

/// Radius of the blur window.
pub const R: u32 = 5;

/// Diameter of the blur window: taps per row, and rows per window.
pub const DIAM: u32 = 11;

/// Columns of one row tile: those of the block and a radius on either side.
pub const TILE_COLS: u32 = TX + 2 * R;

/// Most levels that a pyramid has.
pub const N_SCALES: usize = 4;

/// Least width and height of a pyramid level.
pub const MIN_SIDE: usize = 8;

/// Units of one block of the kernels that go through an array linearly.
pub const LINE_UNITS: u32 = 256;

/// Units of one block of the relay that takes a channel per block layer.
pub const RELAY_TX: u32 = 256;

/// Colour channels, stored one plane after the other.
pub const CHANNELS: u32 = 3;

/// `a / b`, rounded up.
pub open spec fn ceil_div(a: int, b: int) -> int {
    (a + b - 1) / b
}

/// The quotient rounded up, by the quotient and the remainder.
pub proof fn lemma_ceil_div_parts(a: int, b: int)
    requires
        0 <= a,
        0 < b,
    ensures
        ceil_div(a, b) == a / b + (if a % b == 0 {
            0int
        } else {
            1
        }),
        0 <= ceil_div(a, b) <= a,
        a <= ceil_div(a, b) * b,
        a > 0 ==> (ceil_div(a, b) - 1) * b < a,
{
    let q = a / b;
    let m = a % b;
    lemma_fundamental_div_mod(a, b);
    lemma_mod_bound(a, b);
    let c: int = if m == 0 { 0 } else { 1 };
    let rest: int = if m == 0 { b - 1 } else { m - 1 };
    assert(a + b - 1 == (q + c) * b + rest) by (nonlinear_arith)
        requires
            a == b * q + m,
            m == 0 && c == 0 && rest == b - 1 || c == 1 && rest == m - 1,
    ;
    vstd::arithmetic::div_mod::lemma_fundamental_div_mod_converse(a + b - 1, b, q + c, rest);
    assert(q >= 0) by (nonlinear_arith)
        requires
            a == b * q + m,
            0 <= m < b,
            0 <= a,
            0 < b,
    ;
    assert(q + c <= a && a <= (q + c) * b) by (nonlinear_arith)
        requires
            a == b * q + m,
            0 <= m < b,
            0 <= q,
            m == 0 && c == 0 || 0 < m && c == 1,
    ;
    if a > 0 {
        assert((q + c - 1) * b < a) by (nonlinear_arith)
            requires
                a == b * q + m,
                0 <= m < b,
                m == 0 && c == 0 || 0 < m && c == 1,
        ;
    }
}

fn div_ceil_u32(a: u32, b: u32) -> (r: u32)
    requires
        b > 0,
    ensures
        r == ceil_div(a as int, b as int),
{
    proof {
        lemma_ceil_div_parts(a as int, b as int);
    }
    if a % b == 0 {
        a / b
    } else {
        a / b + 1
    }
}

// ───────────── the pyramid ─────────────

/// One level of a pyramid: the size of its planes.
#[derive(Clone, Copy, Debug, PartialEq, Eq, Structural)]
pub struct Level {
    /// Width, padded.
    pub width: usize,
    pub height: usize,
}

impl Level {
    /// Samples of one channel.
    pub open spec fn area(self) -> int {
        self.width * self.height
    }

    /// Whether a device can address the level: the counts that go to the kernels
    /// fit the 32 bits that they are passed in.
    pub open spec fn addressable(self) -> bool {
        self.area() * CHANNELS <= u32::MAX
    }
}

/// The least multiple of sixteen that is not below `w`.
pub open spec fn padded(w: int) -> int {
    ceil_div(w, 16) * 16
}

/// Width of level `s` of a pyramid whose first level is `width` wide.
pub open spec fn level_width(width: int, s: nat) -> int {
    width / pow2(s) as int
}

/// Height of level `s` of a pyramid whose first level is `height` high.
pub open spec fn level_height(height: int, s: nat) -> int {
    ceil_div(height, pow2(s) as int)
}

/// Whether level `s` is large enough to be part of the pyramid.
pub open spec fn level_fits(width: int, height: int, s: nat) -> bool {
    level_width(width, s) >= MIN_SIDE && level_height(height, s) >= MIN_SIDE
}

/// `plan` is the pyramid of a `width` by `height` image: the levels from the
/// padded image down, each half the size of the one before (the width rounded
/// down, the height up), until one is too small or [`N_SCALES`] are there.
pub open spec fn is_pyramid(plan: Seq<Level>, width: int, height: int) -> bool {
    &&& plan.len() <= N_SCALES
    &&& forall|s: int|
        0 <= s < plan.len() ==> {
            &&& (#[trigger] plan[s]).width == level_width(padded(width), s as nat)
            &&& plan[s].height == level_height(height, s as nat)
            &&& plan[s].width >= MIN_SIDE
            &&& plan[s].height >= MIN_SIDE
        }
    &&& plan.len() < N_SCALES ==> !level_fits(padded(width), height, plan.len())
}

proof fn lemma_level_step(width: int, height: int, s: nat)
    requires
        0 <= width,
        0 <= height,
    ensures
        level_width(width, s + 1) == level_width(width, s) / 2,
        level_height(height, s + 1) == ceil_div(level_height(height, s), 2),
        0 <= level_width(width, s) <= width,
        0 <= level_height(height, s) <= height,
{
    let d = pow2(s) as int;
    lemma_pow2_pos(s);
    lemma_pow2_unfold(s + 1);
    assert(pow2(s + 1) == d * 2);
    lemma_div_denominator(width, d, 2);
    lemma_div_plus_one(height + d - 1, d);
    assert(ceil_div(level_height(height, s), 2) == ((height + 2 * d - 1) / d) / 2);
    lemma_div_denominator(height + 2 * d - 1, d, 2);
    lemma_ceil_div_parts(height, d);
    assert(0 <= width / d <= width) by (nonlinear_arith)
        requires
            0 <= width,
            0 < d,
    ;
}

proof fn lemma_level_zero(width: int, height: int)
    ensures
        level_width(width, 0) == width,
        level_height(height, 0) == height,
{
    vstd::arithmetic::power2::lemma2_to64();
}

/// An image has a first level exactly where it is not empty and at least
/// [`MIN_SIDE`] rows high.
pub proof fn law_pyramid_is_not_empty(plan: Seq<Level>, width: int, height: int)
    requires
        0 <= width,
        0 <= height,
        is_pyramid(plan, width, height),
    ensures
        plan.len() > 0 <==> width > 0 && height >= MIN_SIDE,
        plan.len() > 0 ==> plan[0].width == padded(width) && plan[0].height == height,
{
    lemma_level_zero(padded(width), height);
    lemma_ceil_div_parts(width, 16);
    if plan.len() > 0 {
        assert(plan[0].width >= MIN_SIDE);
    }
}

/// An image has one pyramid.
pub proof fn law_pyramid_is_unique(a: Seq<Level>, b: Seq<Level>, width: int, height: int)
    requires
        is_pyramid(a, width, height),
        is_pyramid(b, width, height),
    ensures
        a == b,
{
    if a.len() < b.len() {
        assert(b[a.len() as int].width >= MIN_SIDE);
    }
    if b.len() < a.len() {
        assert(a[b.len() as int].width >= MIN_SIDE);
    }
    assert(a =~= b);
}

/// Each level of a pyramid is half the one before: the width rounded down, the
/// height rounded up.
pub proof fn law_levels_halve(plan: Seq<Level>, width: int, height: int, s: int)
    requires
        0 <= width,
        0 <= height,
        is_pyramid(plan, width, height),
        0 <= s < plan.len() - 1,
    ensures
        plan[s + 1].width == plan[s].width / 2,
        plan[s + 1].height == ceil_div(plan[s].height as int, 2),
{
    lemma_ceil_div_parts(width, 16);
    lemma_level_step(padded(width), height, s as nat);
}

/// The size of each level, in numbers: as many columns as the padded width holds whole squares
/// of two to the power of `s`, as many rows as it takes such squares to hold the height, and
/// eight of each at least.
pub proof fn law_level_counts_squares(plan: Seq<Level>, width: int, height: int, s: int)
    requires
        0 <= width,
        0 <= height,
        is_pyramid(plan, width, height),
        0 <= s < plan.len(),
    ensures
        plan[0].width as int % 16 == 0,
        width <= plan[0].width < width + 16,
        plan[0].height == height,
        plan[s].width * pow2(s as nat) <= plan[0].width < (plan[s].width + 1) * pow2(s as nat),
        (plan[s].height - 1) * pow2(s as nat) < height <= plan[s].height * pow2(s as nat),
        8 <= plan[s].width,
        8 <= plan[s].height,
{
    let f = pow2(s as nat) as int;
    lemma_pow2_pos(s as nat);
    law_pyramid_is_not_empty(plan, width, height);
    lemma_ceil_div_parts(width, 16);
    lemma_ceil_div_parts(height, f);
    lemma_fundamental_div_mod(padded(width), f);
    lemma_mod_bound(padded(width), f);
    let q = padded(width) / f;
    assert(q * f == f * q && (q + 1) * f == q * f + f) by (nonlinear_arith);
    assert(plan[s].width == q);
}

/// A pyramid goes on as long as the next level would be eight columns wide and eight rows high,
/// and ends after four levels.
pub proof fn law_pyramid_ends_when_small(plan: Seq<Level>, width: int, height: int)
    requires
        0 <= width,
        0 <= height,
        is_pyramid(plan, width, height),
    ensures
        plan.len() <= 4,
        0 < plan.len() < 4 ==> plan.last().width / 2 < 8 || (plan.last().height + 1) / 2 < 8,
        plan.len() == 0 ==> width == 0 || height < 8,
{
    lemma_ceil_div_parts(width, 16);
    law_pyramid_is_not_empty(plan, width, height);
    if 0 < plan.len() < 4 {
        let s = (plan.len() - 1) as nat;
        lemma_level_step(padded(width), height, s);
        assert(plan.last() == plan[s as int]);
        assert(!level_fits(padded(width), height, s + 1));
    }
}

/// `w` rounded up to a multiple of sixteen.
pub fn simd_padded_width(w: usize) -> (r: usize)
    requires
        w + 15 <= usize::MAX,
    ensures
        r == padded(w as int),
        r % 16 == 0,
        w <= r < w + 16,
{
    let x: usize = w + 15;
    assert(x & !15usize == x - x % 16usize) by (bit_vector);
    proof {
        lemma_fundamental_div_mod(x as int, 16);
    }
    (w + 15) & !15usize
}

/// The pyramid of a `width` by `height` image.
pub fn pyramid_plan(width: usize, height: usize) -> (plan: Vec<Level>)
    requires
        width + 15 <= usize::MAX,
    ensures
        is_pyramid(plan@, width as int, height as int),
{
    let mut padded_w: usize = simd_padded_width(width);
    let mut h: usize = height;
    let mut plan: Vec<Level> = Vec::new();
    proof {
        lemma_level_zero(padded(width as int), height as int);
    }
    while plan.len() < N_SCALES
        invariant
            plan@.len() <= N_SCALES,
            0 <= padded(width as int) <= usize::MAX,
            padded_w == level_width(padded(width as int), plan@.len()),
            h == level_height(height as int, plan@.len()),
            forall|s: int|
                0 <= s < plan@.len() ==> {
                    &&& (#[trigger] plan@[s]).width == level_width(
                        padded(width as int),
                        s as nat,
                    )
                    &&& plan@[s].height == level_height(height as int, s as nat)
                    &&& plan@[s].width >= MIN_SIDE
                    &&& plan@[s].height >= MIN_SIDE
                },
        decreases N_SCALES - plan.len(),
    {
        if padded_w < MIN_SIDE || h < MIN_SIDE {
            return plan;
        }
        proof {
            lemma_level_step(padded(width as int), height as int, plan@.len());
            lemma_ceil_div_parts(h as int, 2);
        }
        plan.push(Level { width: padded_w, height: h });
        padded_w = padded_w / 2;
        h = h / 2 + h % 2;
    }
    plan
}

// ───────────── strips ─────────────

/// Into how many strips of rows a plane is cut, so that enough blocks are in
/// flight without too many windows to start afresh.
pub open spec fn strip_count(padded_w: int, height: int) -> u32 {
    if height <= 64 {
        1
    } else if height >= 1024 {
        8
    } else if padded_w >= 256 {
        4
    } else {
        2
    }
}

/// Into how many strips of rows a plane is cut.
pub fn pick_n_strips(padded_w: u32, height: u32) -> (r: u32)
    ensures
        r == strip_count(padded_w as int, height as int),
{
    if height <= 64 {
        1
    } else if height >= 1024 {
        8
    } else if padded_w >= 256 {
        4
    } else {
        2
    }
}

/// The first row of strip `strip` of `n_strips`: the strips are as high as each
/// other, save that the first `height % n_strips` are one row higher.
pub open spec fn strip_start(height: int, n_strips: int, strip: int) -> int {
    strip * (height / n_strips) + (if strip < height % n_strips {
        strip
    } else {
        height % n_strips
    })
}

/// The strips lie one after the other and cover the rows of the plane: the first
/// starts at row zero, the last ends with the plane, and none ends before it starts.
pub proof fn law_strips_partition_rows(height: int, n_strips: int, strip: int)
    requires
        0 <= height,
        0 < n_strips,
        0 <= strip < n_strips,
    ensures
        strip_start(height, n_strips, 0) == 0,
        strip_start(height, n_strips, n_strips) == height,
        0 <= strip_start(height, n_strips, strip) <= strip_start(height, n_strips, strip + 1)
            <= height,
{
    let base = height / n_strips;
    let rem = height % n_strips;
    lemma_fundamental_div_mod(height, n_strips);
    lemma_mod_bound(height, n_strips);
    assert(base >= 0) by (nonlinear_arith)
        requires
            0 <= height,
            0 < n_strips,
            base == height / n_strips,
    ;
    assert(0 * base == 0 && 0 <= strip * base && (strip + 1) * base == strip * base + base
        && (strip + 1) * base <= n_strips * base) by (nonlinear_arith)
        requires
            0 <= base,
            0 <= strip < n_strips,
    ;
}

/// No strip is more than one row higher than another, and the higher ones come first: a strip
/// has the rows of an even share, and one of those that are left over where there are still any.
pub proof fn law_strips_share_rows_evenly(height: int, n_strips: int, strip: int)
    requires
        0 <= height,
        0 < n_strips,
        0 <= strip < n_strips,
    ensures
        ({
            let rows = strip_start(height, n_strips, strip + 1) - strip_start(
                height,
                n_strips,
                strip,
            );
            &&& rows * n_strips <= height + n_strips - 1
            &&& (rows + 1) * n_strips > height
            &&& rows == height / n_strips + (if strip < height % n_strips {
                1int
            } else {
                0
            })
        }),
{
    let base = height / n_strips;
    let rem = height % n_strips;
    lemma_fundamental_div_mod(height, n_strips);
    lemma_mod_bound(height, n_strips);
    assert((strip + 1) * base == strip * base + base) by (nonlinear_arith);
    assert(base * n_strips == n_strips * base && (base + 1) * n_strips == base * n_strips + n_strips
        && (base + 2) * n_strips == base * n_strips + 2 * n_strips) by (nonlinear_arith);
}

/// Into how many strips a plane is cut, by its size: low planes are left whole, high ones are
/// cut into eight, and those between into four or two, as they are wide or not.
pub proof fn law_strip_count_by_size(padded_w: int, height: int)
    ensures
        strip_count(padded_w, height) == 1 <==> height <= 64,
        strip_count(padded_w, height) == 8 <==> height >= 1024,
        strip_count(padded_w, height) == 4 <==> 64 < height < 1024 && padded_w >= 256,
        strip_count(padded_w, height) == 2 <==> 64 < height < 1024 && padded_w < 256,
{
}

/// A lower-numbered strip ends before a higher-numbered one starts.
pub proof fn law_strips_are_ordered(height: int, n_strips: int, a: int, b: int)
    requires
        0 <= height,
        0 < n_strips,
        0 <= a < b <= n_strips,
    ensures
        strip_start(height, n_strips, a + 1) <= strip_start(height, n_strips, b),
    decreases b - a,
{
    if a + 1 < b {
        law_strips_are_ordered(height, n_strips, a, b - 1);
        law_strips_partition_rows(height, n_strips, b - 1);
    }
}

/// The strip that row `y` lies in.
pub open spec fn strip_of(height: int, n_strips: int, y: int) -> int {
    choose|strip: int|
        0 <= strip < n_strips && #[trigger] strip_start(height, n_strips, strip) <= y
            < strip_start(height, n_strips, strip + 1)
}

/// Every row lies in one strip.
pub proof fn law_row_has_one_strip(height: int, n_strips: int, y: int)
    requires
        0 < n_strips,
        0 <= y < height,
    ensures
        0 <= strip_of(height, n_strips, y) < n_strips,
        strip_start(height, n_strips, strip_of(height, n_strips, y)) <= y,
        y < strip_start(height, n_strips, strip_of(height, n_strips, y) + 1),
        forall|strip: int|
            0 <= strip < n_strips && #[trigger] strip_start(height, n_strips, strip) <= y
                < strip_start(height, n_strips, strip + 1) ==> strip == strip_of(
                height,
                n_strips,
                y,
            ),
{
    law_strips_partition_rows(height, n_strips, 0);
    let w = lemma_find_strip(height, n_strips, y, n_strips);
    assert(strip_start(height, n_strips, w) <= y < strip_start(height, n_strips, w + 1));
    let chosen = strip_of(height, n_strips, y);
    assert forall|strip: int|
        0 <= strip < n_strips && #[trigger] strip_start(height, n_strips, strip) <= y
            < strip_start(height, n_strips, strip + 1) implies strip == chosen by {
        if strip < chosen {
            law_strips_are_ordered(height, n_strips, strip, chosen);
        }
        if chosen < strip {
            law_strips_are_ordered(height, n_strips, chosen, strip);
        }
    }
}

proof fn lemma_find_strip(height: int, n_strips: int, y: int, upper: int) -> (strip: int)
    requires
        0 < n_strips,
        0 <= y < height,
        0 < upper <= n_strips,
        y < strip_start(height, n_strips, upper),
    ensures
        0 <= strip < n_strips,
        strip_start(height, n_strips, strip) <= y < strip_start(height, n_strips, strip + 1),
    decreases upper,
{
    law_strips_partition_rows(height, n_strips, upper - 1);
    if strip_start(height, n_strips, upper - 1) <= y {
        upper - 1
    } else {
        lemma_find_strip(height, n_strips, y, upper - 1)
    }
}

/// The rows of strip `strip`: its first, and the one past its last.
pub fn strip_rows(height: u32, n_strips: u32, strip: u32) -> (r: (u32, u32))
    requires
        0 < n_strips,
        strip < n_strips,
    ensures
        r.0 == strip_start(height as int, n_strips as int, strip as int),
        r.1 == strip_start(height as int, n_strips as int, strip + 1),
        r.0 <= r.1 <= height,
{
    let base: u32 = height / n_strips;
    proof {
        law_strips_partition_rows(height as int, n_strips as int, strip as int);
        lemma_fundamental_div_mod(height as int, n_strips as int);
        assert(0 <= base * n_strips <= height && 0 <= strip * base <= n_strips * base && (strip + 1)
            * base == strip * base + base) by (nonlinear_arith)
            requires
                height == n_strips * base + height % n_strips,
                0 <= height % n_strips,
                strip < n_strips,
        ;
    }
    let rem: u32 = height - base * n_strips;
    let y_start: u32 = strip * base + (if strip < rem {
        strip
    } else {
        rem
    });
    let unclamped: u32 = y_start + base + (if strip < rem {
        1
    } else {
        0
    });
    let y_end: u32 = if unclamped < height {
        unclamped
    } else {
        height
    };
    (y_start, y_end)
}

// ───────────── launch grids ─────────────

/// How many blocks a kernel is launched on, along each axis.
#[derive(Clone, Copy, Debug, PartialEq, Eq, Structural)]
pub struct Grid {
    pub x: u32,
    pub y: u32,
    pub z: u32,
}

/// Blocks of `units` units that it takes for `n` items: one at least.
pub open spec fn blocks_for(n: int, units: int) -> int {
    if n == 0 {
        1
    } else {
        ceil_div(n, units)
    }
}

/// The units of the blocks are enough for the items, and no block is idle unless
/// there are no items.
pub proof fn law_blocks_cover_items(n: int, units: int)
    requires
        0 <= n,
        0 < units,
    ensures
        n <= blocks_for(n, units) * units,
        n > 0 ==> (blocks_for(n, units) - 1) * units < n,
        blocks_for(n, units) >= 1,
        n == 0 ==> blocks_for(n, units) == 1,
{
    lemma_ceil_div_parts(n, units);
    if n > 0 && ceil_div(n, units) < 1 {
        assert(ceil_div(n, units) * units <= 0) by (nonlinear_arith)
            requires
                ceil_div(n, units) < 1,
                0 < units,
        ;
    }
}

fn blocks(n: u32, units: u32) -> (r: u32)
    requires
        0 < units,
    ensures
        r == blocks_for(n as int, units as int),
{
    proof {
        law_blocks_cover_items(n as int, units as int);
        lemma_ceil_div_parts(n as int, units as int);
    }
    let q: u32 = div_ceil_u32(n, units);
    if q > 1 {
        q
    } else {
        1
    }
}

/// The grid for `n` items, one unit each, [`LINE_UNITS`] to a block. Of `n` the
/// low 32 bits count.
pub fn cube_count(n: usize) -> (r: Grid)
    ensures
        r == (Grid {
            x: blocks_for(n as int % 0x1_0000_0000, LINE_UNITS as int) as u32,
            y: 1,
            z: 1,
        }),
        r.x == blocks_for(n as int % 0x1_0000_0000, LINE_UNITS as int),
{
    let wide: u64 = n as u64;
    assert(wide as u32 == wide % 0x1_0000_0000u64) by (bit_vector);
    Grid { x: blocks(wide as u32, LINE_UNITS), y: 1, z: 1 }
}

/// The grid of the blur kernels over a plane `padded_w` wide: blocks of [`TX`]
/// columns, strips of rows, channels.
pub fn feature_grid(padded_w: u32, n_strips: u32) -> (r: Grid)
    ensures
        r.x == blocks_for(padded_w as int, TX as int),
        r.y == n_strips,
        r.z == CHANNELS,
{
    Grid { x: blocks(padded_w, TX), y: n_strips, z: CHANNELS }
}

/// The grid of the relay over planes of `pad_total` samples: blocks of
/// [`RELAY_TX`] samples, one row, channels.
pub fn relay_grid(pad_total: u32) -> (r: Grid)
    ensures
        r.x == blocks_for(pad_total as int, RELAY_TX as int),
        r.y == 1,
        r.z == CHANNELS,
{
    Grid { x: blocks(pad_total, RELAY_TX), y: 1, z: CHANNELS }
}

/// Units of `blocks` blocks of a linear kernel.
pub fn line_units(blocks: u32) -> (r: u64)
    ensures
        r == blocks * LINE_UNITS,
{
    let (b, per): (u64, u64) = (blocks as u64, LINE_UNITS as u64);
    assert(0 <= b * per <= u32::MAX * 256) by (nonlinear_arith)
        requires
            0 <= b <= u32::MAX,
            per == 256,
    ;
    b * per
}

} // verus!
