//! The kernels that produce the moment planes: a tiled, sliding-window box blur,
//! with or without feature sums beside it.
//!
//! A kernel runs on a grid of blocks: [`TX`] columns by one strip of rows by one
//! channel. No block reads what another writes, so they are run here one after the
//! other.
use vstd::arithmetic::div_mod::{
    lemma_fundamental_div_mod, lemma_fundamental_div_mod_converse, lemma_mod_bound,
};
use vstd::prelude::*;

use crate::features::{mode_features, Body, FeatMode};
use crate::geometry::{
    blocks_for, feature_grid, law_blocks_cover_items, law_row_has_one_strip, strip_of, strip_rows,
    strip_start, CHANNELS, TX,
};
use crate::scalar::{zero, Scalar, Wide};
use crate::ssim::Planes;
use crate::window::{pair_of, slidable, BlockWindow, Moments, PlanePair};

verus! {

/// One plane per channel.
pub struct Channels<F: Scalar> {
    pub a: Vec<F>,
    pub b: Vec<F>,
    pub c: Vec<F>,
}

impl<F: Scalar> Channels<F> {
    /// The plane of channel `channel`.
    pub open spec fn of(&self, channel: int) -> Seq<F> {
        if channel == 0 {
            self.a@
        } else if channel == 1 {
            self.b@
        } else {
            self.c@
        }
    }

    /// The plane of channel `channel`.
    pub fn plane(&self, channel: u32) -> (r: &[F])
        ensures
            r@ == self.of(channel as int),
    {
        if channel == 0 {
            self.a.as_slice()
        } else if channel == 1 {
            self.b.as_slice()
        } else {
            self.c.as_slice()
        }
    }

    /// Every channel holds at least `n` samples.
    pub open spec fn hold(&self, n: int) -> bool {
        n <= self.a@.len() && n <= self.b@.len() && n <= self.c@.len()
    }
}

/// The sizes that a blur kernel is launched with.
#[derive(Clone, Copy, Debug, PartialEq, Eq, Structural)]
pub struct Layout {
    pub width: u32,
    pub height: u32,
    pub n_strips: u32,
    /// Samples from the start of one channel of a moment plane to the next.
    pub pad_total: u32,
}

impl Layout {
    /// The window can slide along both sides, there is a strip, and a channel holds
    /// the plane.
    pub open spec fn valid(self) -> bool {
        &&& slidable(self.width as int)
        &&& slidable(self.height as int)
        &&& 0 < self.n_strips
        &&& self.width * self.height <= self.pad_total
    }

    /// The channel of offset `i` of a moment plane.
    pub open spec fn channel(self, i: int) -> int {
        i / self.pad_total as int
    }

    /// The row of offset `i` of a moment plane.
    pub open spec fn row(self, i: int) -> int {
        (i % self.pad_total as int) / self.width as int
    }

    /// The column of offset `i` of a moment plane.
    pub open spec fn col(self, i: int) -> int {
        (i % self.pad_total as int) % self.width as int
    }

    /// Whether offset `i` of a moment plane is a pixel of a channel (and not padding
    /// behind one).
    pub open spec fn is_pixel(self, i: int) -> bool {
        &&& 0 <= i < CHANNELS * self.pad_total
        &&& i % (self.pad_total as int) < self.width * self.height
    }

    /// The first row of the strip that row `y` lies in.
    pub open spec fn window_start(self, y: int) -> int {
        strip_start(
            self.height as int,
            self.n_strips as int,
            strip_of(self.height as int, self.n_strips as int, y),
        )
    }

    /// Columns that sums and peaks are kept of: those of every strip of every channel.
    pub open spec fn columns(self) -> int {
        CHANNELS * self.n_strips * self.width
    }

    /// The number of a column among them.
    pub open spec fn column(self, channel: int, strip: int, col: int) -> int {
        (channel * self.n_strips + strip) * self.width + col
    }

    /// The column on the plane of column number `slot`.
    pub open spec fn column_col(self, slot: int) -> int {
        slot % self.width as int
    }

    /// The strip of column number `slot`.
    pub open spec fn column_strip(self, slot: int) -> int {
        (slot / self.width as int) % self.n_strips as int
    }

    /// The channel of column number `slot`.
    pub open spec fn column_channel(self, slot: int) -> int {
        (slot / self.width as int) / self.n_strips as int
    }
}

/// The source and the distorted plane of channel `channel`.
pub open spec fn channel_pair<F: Scalar>(
    src: &Channels<F>,
    dst: &Channels<F>,
    layout: Layout,
    channel: int,
) -> PlanePair<F> {
    pair_of(src.of(channel), dst.of(channel), layout.width, layout.height)
}

/// The blurred moments at offset `i` of the planes, as the kernels compute them.
pub open spec fn blurred_at<F: Scalar>(
    src: &Channels<F>,
    dst: &Channels<F>,
    layout: Layout,
    i: int,
) -> Moments<F> {
    channel_pair(src, dst, layout, layout.channel(i)).window_moments(
        layout.window_start(layout.row(i)),
        layout.row(i),
        layout.col(i),
    )
}

/// The planes after a blur kernel has written every pixel of `before`.
pub open spec fn blurred<F: Scalar>(
    before: Seq<Moments<F>>,
    src: &Channels<F>,
    dst: &Channels<F>,
    layout: Layout,
) -> Seq<Moments<F>> {
    Seq::new(
        before.len(),
        |i: int|
            if layout.is_pixel(i) {
                blurred_at(src, dst, layout, i)
            } else {
                before[i]
            },
    )
}

/// Offsets of pixels and positions determine each other.
pub proof fn lemma_pixel_position(layout: Layout, channel: int, row: int, col: int)
    requires
        layout.valid(),
        0 <= channel < CHANNELS,
        0 <= row < layout.height,
        0 <= col < layout.width,
    ensures
        layout.is_pixel(channel * layout.pad_total + row * layout.width + col),
        layout.channel(channel * layout.pad_total + row * layout.width + col) == channel,
        layout.row(channel * layout.pad_total + row * layout.width + col) == row,
        layout.col(channel * layout.pad_total + row * layout.width + col) == col,
{
    let (w, h, pt) = (layout.width as int, layout.height as int, layout.pad_total as int);
    let local = row * w + col;
    let i = channel * pt + local;
    assert(0 <= local < w * h) by (nonlinear_arith)
        requires
            0 <= row < h,
            0 <= col < w,
            local == row * w + col,
    ;
    lemma_fundamental_div_mod_converse(i, pt, channel, local);
    lemma_fundamental_div_mod_converse(local, w, row, col);
    assert(0 <= i < CHANNELS * pt) by (nonlinear_arith)
        requires
            0 <= channel < CHANNELS,
            0 <= local < pt,
            i == channel * pt + local,
    ;
}

/// A pixel's offset is made up of its position.
pub proof fn lemma_pixel_offset(layout: Layout, i: int)
    requires
        layout.valid(),
        layout.is_pixel(i),
    ensures
        0 <= layout.channel(i) < CHANNELS,
        0 <= layout.row(i) < layout.height,
        0 <= layout.col(i) < layout.width,
        i == layout.channel(i) * layout.pad_total + layout.row(i) * layout.width + layout.col(i),
{
    let (w, h, pt) = (layout.width as int, layout.height as int, layout.pad_total as int);
    assert(pt > 0) by (nonlinear_arith)
        requires
            w >= 4,
            h >= 4,
            w * h <= pt,
    ;
    lemma_fundamental_div_mod(i, pt);
    lemma_mod_bound(i, pt);
    let local = i % pt;
    lemma_fundamental_div_mod(local, w);
    lemma_mod_bound(local, w);
    let (c, r) = (i / pt, local / w);
    assert(0 <= c < CHANNELS) by (nonlinear_arith)
        requires
            i == pt * c + local,
            0 <= local < pt,
            0 <= i < CHANNELS * pt,
    ;
    assert(0 <= r < h) by (nonlinear_arith)
        requires
            local == w * r + local % w,
            0 <= local % w < w,
            0 <= local < w * h,
    ;
    assert(pt * c == c * pt && w * r == r * w) by (nonlinear_arith);
}

/// Column numbers and positions determine each other.
pub proof fn lemma_column_position(layout: Layout, channel: int, strip: int, col: int)
    requires
        layout.valid(),
        0 <= channel < CHANNELS,
        0 <= strip < layout.n_strips,
        0 <= col < layout.width,
    ensures
        0 <= layout.column(channel, strip, col) < layout.columns(),
        layout.column_channel(layout.column(channel, strip, col)) == channel,
        layout.column_strip(layout.column(channel, strip, col)) == strip,
        layout.column_col(layout.column(channel, strip, col)) == col,
{
    let (w, n) = (layout.width as int, layout.n_strips as int);
    let line = channel * n + strip;
    let slot = layout.column(channel, strip, col);
    lemma_fundamental_div_mod_converse(slot, w, line, col);
    lemma_fundamental_div_mod_converse(line, n, channel, strip);
    assert(0 <= line < CHANNELS * n) by (nonlinear_arith)
        requires
            0 <= channel < CHANNELS,
            0 <= strip < n,
            line == channel * n + strip,
    ;
    assert(0 <= slot < CHANNELS * n * w) by (nonlinear_arith)
        requires
            0 <= line < CHANNELS * n,
            0 <= col < w,
            slot == line * w + col,
    ;
}

/// A column's number is made up of its position.
pub proof fn lemma_column_number(layout: Layout, slot: int)
    requires
        layout.valid(),
        0 <= slot < layout.columns(),
    ensures
        0 <= layout.column_channel(slot) < CHANNELS,
        0 <= layout.column_strip(slot) < layout.n_strips,
        0 <= layout.column_col(slot) < layout.width,
        slot == layout.column(
            layout.column_channel(slot),
            layout.column_strip(slot),
            layout.column_col(slot),
        ),
{
    let (w, n) = (layout.width as int, layout.n_strips as int);
    lemma_fundamental_div_mod(slot, w);
    lemma_mod_bound(slot, w);
    let line = slot / w;
    lemma_fundamental_div_mod(line, n);
    lemma_mod_bound(line, n);
    let c = line / n;
    assert(0 <= line < CHANNELS * n) by (nonlinear_arith)
        requires
            slot == w * line + slot % w,
            0 <= slot % w < w,
            0 <= slot < CHANNELS * n * w,
    ;
    assert(0 <= c < CHANNELS) by (nonlinear_arith)
        requires
            line == n * c + line % n,
            0 <= line % n < n,
            0 <= line < CHANNELS * n,
    ;
    assert(n * c == c * n && w * line == line * w) by (nonlinear_arith);
}

/// Sum `t` of column number `slot`.
pub open spec fn sum_value<F: Scalar, A: Wide<F>>(
    mode: FeatMode,
    body: Body,
    src: &Channels<F>,
    dst: &Channels<F>,
    layout: Layout,
    slot: int,
    t: int,
) -> A {
    let (h, n, strip) = (layout.height as int, layout.n_strips as int, layout.column_strip(slot));
    channel_pair(src, dst, layout, layout.column_channel(slot)).column_sum::<A>(
        mode,
        body,
        strip_start(h, n, strip),
        strip_start(h, n, strip + 1),
        layout.column_col(slot),
        t,
    )
}

/// Peak `t` of column number `slot`.
pub open spec fn peak_value<F: Scalar>(
    mode: FeatMode,
    body: Body,
    src: &Channels<F>,
    dst: &Channels<F>,
    layout: Layout,
    slot: int,
    t: int,
) -> F {
    let (h, n, strip) = (layout.height as int, layout.n_strips as int, layout.column_strip(slot));
    channel_pair(src, dst, layout, layout.column_channel(slot)).column_peak(
        mode,
        body,
        strip_start(h, n, strip),
        strip_start(h, n, strip + 1),
        layout.column_col(slot),
        t,
    )
}

/// The sums after a kernel has written those of every column, from offset `off` of
/// `before` on, column by column.
pub open spec fn summed<F: Scalar, A: Wide<F>>(
    before: Seq<A>,
    mode: FeatMode,
    body: Body,
    src: &Channels<F>,
    dst: &Channels<F>,
    layout: Layout,
    off: int,
) -> Seq<A> {
    Seq::new(
        before.len(),
        |j: int|
            if off <= j < off + layout.columns() * mode.n_sums() {
                sum_value::<F, A>(
                    mode,
                    body,
                    src,
                    dst,
                    layout,
                    (j - off) / mode.n_sums(),
                    (j - off) % mode.n_sums(),
                )
            } else {
                before[j]
            },
    )
}

/// The peaks after a kernel has written those of every column, from offset `off` of
/// `before` on, column by column.
pub open spec fn peaked<F: Scalar>(
    before: Seq<F>,
    mode: FeatMode,
    body: Body,
    src: &Channels<F>,
    dst: &Channels<F>,
    layout: Layout,
    off: int,
) -> Seq<F> {
    Seq::new(
        before.len(),
        |j: int|
            if off <= j < off + layout.columns() * mode.n_peaks() {
                peak_value(
                    mode,
                    body,
                    src,
                    dst,
                    layout,
                    (j - off) / mode.n_peaks(),
                    (j - off) % mode.n_peaks(),
                )
            } else {
                before[j]
            },
    )
}

/// The position of a block in the grid of a kernel.
#[derive(Clone, Copy)]
struct BlockPos {
    col_block: u32,
    strip: u32,
    channel: u32,
}

impl BlockPos {
    spec fn valid(self, layout: Layout) -> bool {
        &&& self.col_block < blocks_for(layout.width as int, TX as int)
        &&& self.strip < layout.n_strips
        &&& self.channel < CHANNELS
    }

    spec fn col_base(self) -> int {
        self.col_block * TX
    }

    spec fn y_start(self, layout: Layout) -> int {
        strip_start(layout.height as int, layout.n_strips as int, self.strip as int)
    }

    spec fn y_end(self, layout: Layout) -> int {
        strip_start(layout.height as int, layout.n_strips as int, self.strip + 1)
    }

    /// Whether the block writes offset `i` of the planes in a row before `y`.
    spec fn writes_pixel(self, layout: Layout, i: int, y: int) -> bool {
        &&& layout.is_pixel(i)
        &&& layout.channel(i) == self.channel
        &&& self.y_start(layout) <= layout.row(i) < y
        &&& self.col_base() <= layout.col(i) < self.col_base() + TX
    }

    /// Whether the block writes the sums and peaks of column number `slot`.
    spec fn writes_column(self, layout: Layout, slot: int) -> bool {
        &&& 0 <= slot < layout.columns()
        &&& layout.column_channel(slot) == self.channel
        &&& layout.column_strip(slot) == self.strip
        &&& self.col_base() <= layout.column_col(slot) < self.col_base() + TX
    }
}

/// The running sums of the units of a block, before row `y`.
spec fn sums_stand_at<F: Scalar, A: Wide<F>>(
    acc: Seq<Vec<A>>,
    pair: PlanePair<F>,
    mode: FeatMode,
    body: Body,
    col_base: int,
    y_start: int,
    y: int,
) -> bool {
    &&& acc.len() == TX
    &&& forall|tx: int| 0 <= tx < TX ==> (#[trigger] acc[tx])@.len() == mode.n_sums()
    &&& forall|tx: int, t: int|
        0 <= tx < TX && col_base + tx < pair.width && 0 <= t < mode.n_sums()
            ==> #[trigger] acc[tx]@[t] == pair.column_sum::<A>(
            mode,
            body,
            y_start,
            y,
            col_base + tx,
            t,
        )
}

/// The running peaks of the units of a block, before row `y`.
spec fn peaks_stand_at<F: Scalar>(
    acc: Seq<Vec<F>>,
    pair: PlanePair<F>,
    mode: FeatMode,
    body: Body,
    col_base: int,
    y_start: int,
    y: int,
) -> bool {
    &&& acc.len() == TX
    &&& forall|tx: int| 0 <= tx < TX ==> (#[trigger] acc[tx])@.len() == mode.n_peaks()
    &&& forall|tx: int, t: int|
        0 <= tx < TX && col_base + tx < pair.width && 0 <= t < mode.n_peaks()
            ==> #[trigger] acc[tx]@[t] == pair.column_peak(
            mode,
            body,
            y_start,
            y,
            col_base + tx,
            t,
        )
}

fn zeros<F: Scalar>(n: usize) -> (r: Vec<F>)
    ensures
        r@.len() == n,
        forall|t: int| 0 <= t < n ==> #[trigger] r@[t] == zero::<F>(),
{
    let mut r: Vec<F> = Vec::new();
    while r.len() < n
        invariant
            r@.len() <= n,
            forall|t: int| 0 <= t < r@.len() ==> #[trigger] r@[t] == zero::<F>(),
        decreases n - r.len(),
    {
        r.push(F::ratio(0, 1));
    }
    r
}

/// The sums with one term more each.
fn with_terms<F: Scalar, A: Wide<F>>(acc: &Vec<A>, terms: &Vec<F>) -> (r: Vec<A>)
    requires
        acc@.len() == terms@.len(),
    ensures
        r@.len() == acc@.len(),
        forall|t: int|
            0 <= t < r@.len() ==> #[trigger] r@[t] == acc@[t].spec_plus(A::spec_widen(terms@[t])),
{
    let mut r: Vec<A> = Vec::new();
    while r.len() < acc.len()
        invariant
            acc@.len() == terms@.len(),
            r@.len() <= acc@.len(),
            forall|t: int|
                0 <= t < r@.len() ==> #[trigger] r@[t] == acc@[t].spec_plus(
                    A::spec_widen(terms@[t]),
                ),
        decreases acc.len() - r.len(),
    {
        let t: usize = r.len();
        r.push(acc[t].plus(A::widen(terms[t])));
    }
    r
}

/// The peaks with one term more each.
fn with_peaks<F: Scalar>(acc: &Vec<F>, terms: &Vec<F>) -> (r: Vec<F>)
    requires
        acc@.len() == terms@.len(),
    ensures
        r@.len() == acc@.len(),
        forall|t: int|
            0 <= t < r@.len() ==> #[trigger] r@[t] == terms@[t].spec_if_above(
                acc@[t],
                terms@[t],
                acc@[t],
            ),
{
    let mut r: Vec<F> = Vec::new();
    while r.len() < acc.len()
        invariant
            acc@.len() == terms@.len(),
            r@.len() <= acc@.len(),
            forall|t: int|
                0 <= t < r@.len() ==> #[trigger] r@[t] == terms@[t].spec_if_above(
                    acc@[t],
                    terms@[t],
                    acc@[t],
                ),
        decreases acc.len() - r.len(),
    {
        let t: usize = r.len();
        r.push(terms[t].if_above(acc[t], terms[t], acc[t]));
    }
    r
}

/// What the units of a block do at row `y`: each writes the blurred moments of its
/// column and takes its terms in. Units past the right border write nothing.
#[verifier::spinoff_prover]
fn emit_row<F: Scalar, A: Wide<F>>(
    mode: FeatMode,
    window: &BlockWindow<F>,
    src: &[F],
    dst: &[F],
    planes: &mut Planes<F>,
    sums: &mut Vec<Vec<A>>,
    peaks: &mut Vec<Vec<F>>,
    layout: Layout,
    body: Body,
    pos: BlockPos,
    Ghost(y_start): Ghost<int>,
    y: u32,
)
    requires
        layout.valid(),
        pos.valid(layout),
        pair_of(src@, dst@, layout.width, layout.height).valid(),
        0 <= y_start <= y < layout.height,
        window.stands_at(
            pair_of(src@, dst@, layout.width, layout.height),
            pos.col_base(),
            y_start,
            y as int,
        ),
        old(planes).wf(),
        CHANNELS * layout.pad_total <= old(planes)@.len(),
        sums_stand_at(
            old(sums)@,
            pair_of(src@, dst@, layout.width, layout.height),
            mode,
            body,
            pos.col_base(),
            y_start,
            y as int,
        ),
        peaks_stand_at(
            old(peaks)@,
            pair_of(src@, dst@, layout.width, layout.height),
            mode,
            body,
            pos.col_base(),
            y_start,
            y as int,
        ),
    ensures
        final(planes).wf(),
        final(planes)@.len() == old(planes)@.len(),
        forall|i: int|
            0 <= i < old(planes)@.len() ==> #[trigger] final(planes)@[i] == (if layout.is_pixel(i)
                && layout.channel(i) == pos.channel && layout.row(i) == y && pos.col_base()
                <= layout.col(i) < pos.col_base() + TX {
                pair_of(src@, dst@, layout.width, layout.height).window_moments(
                    y_start,
                    y as int,
                    layout.col(i),
                )
            } else {
                old(planes)@[i]
            }),
        sums_stand_at(
            final(sums)@,
            pair_of(src@, dst@, layout.width, layout.height),
            mode,
            body,
            pos.col_base(),
            y_start,
            y + 1,
        ),
        peaks_stand_at(
            final(peaks)@,
            pair_of(src@, dst@, layout.width, layout.height),
            mode,
            body,
            pos.col_base(),
            y_start,
            y + 1,
        ),
{
    let ghost pair = pair_of(src@, dst@, layout.width, layout.height);
    let w: usize = layout.width as usize;
    proof {
        law_blocks_cover_items(layout.width as int, TX as int);
        assert(pos.col_block * TX < layout.width) by (nonlinear_arith)
            requires
                pos.col_block <= blocks_for(layout.width as int, TX as int) - 1,
                (blocks_for(layout.width as int, TX as int) - 1) * TX < layout.width,
        ;
    }
    let col_base: u32 = pos.col_block * TX;
    let is_body: bool = y >= body.start && y < body.end;
    let mut tx: u32 = 0;
    while tx < TX
        invariant
            tx <= TX,
            w == layout.width,
            col_base == pos.col_base(),
            col_base < layout.width,
            is_body == body.has(y as int),
            layout.valid(),
            pos.valid(layout),
            pair == pair_of(src@, dst@, layout.width, layout.height),
            pair.valid(),
            0 <= y_start <= y < layout.height,
            window.stands_at(pair, pos.col_base(), y_start, y as int),
            planes.wf(),
            planes@.len() == old(planes)@.len(),
            CHANNELS * layout.pad_total <= planes@.len(),
            forall|i: int|
                0 <= i < planes@.len() ==> #[trigger] planes@[i] == (if layout.is_pixel(i)
                    && layout.channel(i) == pos.channel && layout.row(i) == y && pos.col_base()
                    <= layout.col(i) < pos.col_base() + tx {
                    pair.window_moments(y_start, y as int, layout.col(i))
                } else {
                    old(planes)@[i]
                }),
            sums@.len() == TX,
            forall|t: int| 0 <= t < TX ==> (#[trigger] sums@[t])@.len() == mode.n_sums(),
            forall|u: int, t: int|
                0 <= u < TX && col_base + u < pair.width && 0 <= t < mode.n_sums()
                    ==> #[trigger] sums@[u]@[t] == pair.column_sum::<A>(
                    mode,
                    body,
                    y_start,
                    if u < tx {
                        y + 1
                    } else {
                        y as int
                    },
                    col_base + u,
                    t,
                ),
            peaks@.len() == TX,
            forall|t: int| 0 <= t < TX ==> (#[trigger] peaks@[t])@.len() == mode.n_peaks(),
            forall|u: int, t: int|
                0 <= u < TX && col_base + u < pair.width && 0 <= t < mode.n_peaks()
                    ==> #[trigger] peaks@[u]@[t] == pair.column_peak(
                    mode,
                    body,
                    y_start,
                    if u < tx {
                        y + 1
                    } else {
                        y as int
                    },
                    col_base + u,
                    t,
                ),
        decreases TX - tx,
    {
        let col: u32 = col_base + tx;
        if col < layout.width {
            let m = window.moments(
                Ghost(pair),
                Ghost(pos.col_base()),
                Ghost(y_start),
                Ghost(y as int),
                tx,
            );
            let ghost i = pos.channel * layout.pad_total + y * layout.width + col;
            proof {
                lemma_pixel_position(layout, pos.channel as int, y as int, col as int);
                assert(planes.mu1.len() == planes@.len());
                assert(src.len() == src@.len());
                assert(0 <= pos.channel * layout.pad_total && 0 <= y * layout.width && y
                    * layout.width + col < layout.width * layout.height) by (nonlinear_arith)
                    requires
                        y < layout.height,
                        col < layout.width,
                ;
            }
            let off: usize = (y as usize) * w + (col as usize);
            let ghost before = planes@;
            planes.put((pos.channel as usize) * (layout.pad_total as usize) + off, m);
            assert forall|k: int| 0 <= k < planes@.len() implies #[trigger] planes@[k] == (
            if layout.is_pixel(k) && layout.channel(k) == pos.channel && layout.row(k) == y
                && pos.col_base() <= layout.col(k) < pos.col_base() + tx + 1 {
                pair.window_moments(y_start, y as int, layout.col(k))
            } else {
                old(planes)@[k]
            }) by {
                if layout.is_pixel(k) {
                    lemma_pixel_offset(layout, k);
                }
                if k == i {
                    assert(planes@[k] == m);
                } else {
                    assert(planes@[k] == before[k]);
                }
            }
            let terms = mode_features(mode, m, src[off], dst[off], is_body);
            assert(terms.0@ == pair.sum_terms_at(mode, body, y_start, y as int, col as int));
            assert(terms.1@ == pair.peak_terms_at(mode, body, y_start, y as int, col as int));
            let new_sums = with_terms(&sums[tx as usize], &terms.0);
            sums.set(tx as usize, new_sums);
            let new_peaks = with_peaks(&peaks[tx as usize], &terms.1);
            peaks.set(tx as usize, new_peaks);
        } else {
            assert forall|k: int| 0 <= k < planes@.len() && layout.is_pixel(k) implies
                !(#[trigger] layout.col(k) == pos.col_base() + tx) by {
                lemma_pixel_offset(layout, k);
            }
        }
        tx += 1;
    }
}

/// The place of value `t` of column number `slot`, `n` values a column, determines
/// both.
proof fn lemma_value_place(columns: int, n: int, slot: int, t: int)
    requires
        0 <= slot < columns,
        0 <= t < n,
    ensures
        0 <= slot * n + t < columns * n,
        (slot * n + t) / n == slot,
        (slot * n + t) % n == t,
{
    lemma_fundamental_div_mod_converse(slot * n + t, n, slot, t);
    assert(0 <= slot * n + t < columns * n) by (nonlinear_arith)
        requires
            0 <= slot < columns,
            0 <= t < n,
    ;
}

/// Every place belongs to a column.
proof fn lemma_place_value(columns: int, n: int, k: int)
    requires
        0 <= k < columns * n,
        0 <= n,
    ensures
        0 < n,
        0 <= k / n < columns,
        0 <= k % n < n,
        k == (k / n) * n + k % n,
{
    assert(n != 0) by (nonlinear_arith)
        requires
            0 <= k < columns * n,
    ;
    lemma_fundamental_div_mod(k, n);
    lemma_mod_bound(k, n);
    let q = k / n;
    assert(0 <= q < columns && n * q == q * n) by (nonlinear_arith)
        requires
            k == n * q + k % n,
            0 <= k % n < n,
            0 <= k < columns * n,
    ;
}

/// The units of a block store their values, `n` each, at the places of their
/// columns. Units past the right border store nothing.
#[verifier::spinoff_prover]
fn store_columns<T: Copy>(
    values: &Vec<Vec<T>>,
    n: usize,
    out: &mut Vec<T>,
    off: usize,
    layout: Layout,
    pos: BlockPos,
)
    requires
        layout.valid(),
        pos.valid(layout),
        values@.len() == TX,
        forall|tx: int| 0 <= tx < TX ==> (#[trigger] values@[tx])@.len() == n,
        off + layout.columns() * n <= old(out)@.len(),
    ensures
        final(out)@.len() == old(out)@.len(),
        forall|j: int|
            0 <= j < old(out)@.len() ==> #[trigger] final(out)@[j] == (if off <= j < off
                + layout.columns() * n && pos.writes_column(layout, (j - off) / n as int) {
                values@[layout.column_col((j - off) / n as int) - pos.col_base()]@[(j - off)
                    % n as int]
            } else {
                old(out)@[j]
            }),
{
    proof {
        law_blocks_cover_items(layout.width as int, TX as int);
        assert(pos.col_block * TX < layout.width) by (nonlinear_arith)
            requires
                pos.col_block <= blocks_for(layout.width as int, TX as int) - 1,
                (blocks_for(layout.width as int, TX as int) - 1) * TX < layout.width,
        ;
    }
    let col_base: u32 = pos.col_block * TX;
    let ghost columns = layout.columns();
    let mut tx: u32 = 0;
    while tx < TX && col_base + tx < layout.width
        invariant
            tx <= TX,
            col_base == pos.col_base(),
            col_base < layout.width,
            columns == layout.columns(),
            layout.valid(),
            pos.valid(layout),
            values@.len() == TX,
            forall|u: int| 0 <= u < TX ==> (#[trigger] values@[u])@.len() == n,
            out@.len() == old(out)@.len(),
            off + columns * n <= out@.len(),
            forall|j: int|
                0 <= j < out@.len() ==> #[trigger] out@[j] == (if off <= j < off + columns * n
                    && pos.writes_column(layout, (j - off) / n as int) && layout.column_col(
                    (j - off) / n as int,
                ) < col_base + tx {
                    values@[layout.column_col((j - off) / n as int) - pos.col_base()]@[(j - off)
                        % n as int]
                } else {
                    old(out)@[j]
                }),
        decreases TX - tx,
    {
        let ghost slot = layout.column(pos.channel as int, pos.strip as int, col_base + tx);
        let ghost before = out@;
        proof {
            lemma_column_position(layout, pos.channel as int, pos.strip as int, col_base + tx);
        }
        let mut t: usize = 0;
        while t < n
            invariant
                t <= n,
                tx < TX,
                col_base == pos.col_base(),
                col_base + tx < layout.width,
                columns == layout.columns(),
                layout.valid(),
                pos.valid(layout),
                slot == layout.column(pos.channel as int, pos.strip as int, col_base + tx),
                0 <= slot < columns,
                values@.len() == TX,
                forall|u: int| 0 <= u < TX ==> (#[trigger] values@[u])@.len() == n,
                out@.len() == before.len(),
                off + columns * n <= out@.len(),
                forall|j: int|
                    0 <= j < out@.len() ==> #[trigger] out@[j] == (if off + slot * n <= j < off
                        + slot * n + t {
                        values@[tx as int]@[j - off - slot * n]
                    } else {
                        before[j]
                    }),
            decreases n - t,
        {
            proof {
                let (c, s, k) = (pos.channel as int, pos.strip as int, layout.n_strips as int);
                let w = layout.width as int;
                lemma_value_place(columns, n as int, slot, t as int);
                assert(out.len() == out@.len());
                assert(c * k * w + s * w + (col_base + tx) == slot) by (nonlinear_arith)
                    requires
                        slot == (c * k + s) * w + (col_base + tx),
                ;
                assert(0 <= c * k && 0 <= c * k * w && 0 <= s * w) by (nonlinear_arith)
                    requires
                        0 <= c,
                        0 <= k,
                        0 <= s,
                        0 <= w,
                ;
                assert(c * k <= c * k * w) by (nonlinear_arith)
                    requires
                        0 <= c * k,
                        4 <= w,
                ;
                assert(slot <= slot * n) by (nonlinear_arith)
                    requires
                        0 <= slot,
                        1 <= n,
                ;
            }
            let slot_idx: usize = (pos.channel as usize) * (layout.n_strips as usize) * (
            layout.width as usize) + (pos.strip as usize) * (layout.width as usize) + ((col_base
                + tx) as usize);
            out.set(off + slot_idx * n + t, values[tx as usize][t]);
            t += 1;
        }
        assert forall|j: int| 0 <= j < out@.len() implies #[trigger] out@[j] == (if off <= j < off
            + columns * n && pos.writes_column(layout, (j - off) / n as int) && layout.column_col(
            (j - off) / n as int,
        ) < col_base + tx + 1 {
            values@[layout.column_col((j - off) / n as int) - pos.col_base()]@[(j - off) % n as int]
        } else {
            old(out)@[j]
        }) by {
            let k = j - off;
            if off + slot * n <= j < off + slot * n + n {
                lemma_value_place(columns, n as int, slot, k - slot * n);
            } else if 0 <= k < columns * n {
                lemma_place_value(columns, n as int, k);
                lemma_column_number(layout, k / n as int);
                assert(k / n as int != slot);
            }
        }
        tx += 1;
    }
    assert forall|j: int| 0 <= j < out@.len() implies #[trigger] out@[j] == (if off <= j < off
        + layout.columns() * n && pos.writes_column(layout, (j - off) / n as int) {
        values@[layout.column_col((j - off) / n as int) - pos.col_base()]@[(j - off) % n as int]
    } else {
        old(out)@[j]
    }) by {
        let k = j - off;
        if 0 <= k < columns * n {
            lemma_place_value(columns, n as int, k);
            lemma_column_number(layout, k / n as int);
        }
    }
}

/// Columns of running values, all zero.
fn zero_columns<F: Scalar>(n: usize) -> (r: Vec<Vec<F>>)
    ensures
        r@.len() == TX,
        forall|tx: int| 0 <= tx < TX ==> (#[trigger] r@[tx])@.len() == n,
        forall|tx: int, t: int| 0 <= tx < TX && 0 <= t < n ==> #[trigger] r@[tx]@[t] == zero::<F>(),
{
    let mut r: Vec<Vec<F>> = Vec::new();
    while r.len() < TX as usize
        invariant
            r@.len() <= TX,
            forall|tx: int| 0 <= tx < r@.len() ==> (#[trigger] r@[tx])@.len() == n,
            forall|tx: int, t: int|
                0 <= tx < r@.len() && 0 <= t < n ==> #[trigger] r@[tx]@[t] == zero::<F>(),
        decreases TX - r.len(),
    {
        let column: Vec<F> = zeros(n);
        r.push(column);
    }
    r
}

/// Where a kernel writes its sums and peaks.
#[derive(Clone, Copy, Debug, PartialEq, Eq, Structural)]
pub struct Offsets {
    pub sums: u32,
    pub peaks: u32,
}

/// What a blur kernel needs of its arguments: the sizes are valid, the inputs hold
/// the planes, and the outputs have room.
pub open spec fn launchable<F: Scalar>(
    mode: FeatMode,
    src: &Channels<F>,
    dst: &Channels<F>,
    planes: int,
    sums: int,
    peaks: int,
    layout: Layout,
    offsets: Offsets,
) -> bool {
    &&& layout.valid()
    &&& src.hold(layout.width * layout.height)
    &&& dst.hold(layout.width * layout.height)
    &&& CHANNELS * layout.pad_total <= planes
    &&& offsets.sums + layout.columns() * mode.n_sums() <= sums
    &&& offsets.peaks + layout.columns() * mode.n_peaks() <= peaks
}

/// What one block does: slides its window down its strip, writing a row of moments
/// at a time, and stores what its columns added up to.
#[verifier::spinoff_prover]
fn run_block<F: Scalar, A: Wide<F>>(
    mode: FeatMode,
    src: &Channels<F>,
    dst: &Channels<F>,
    planes: &mut Planes<F>,
    sums: &mut Vec<A>,
    peaks: &mut Vec<F>,
    layout: Layout,
    offsets: Offsets,
    body: Body,
    pos: BlockPos,
)
    requires
        launchable(
            mode,
            src,
            dst,
            old(planes)@.len() as int,
            old(sums)@.len() as int,
            old(peaks)@.len() as int,
            layout,
            offsets,
        ),
        old(planes).wf(),
        pos.valid(layout),
    ensures
        final(planes).wf(),
        final(planes)@.len() == old(planes)@.len(),
        forall|i: int|
            0 <= i < old(planes)@.len() ==> #[trigger] final(planes)@[i] == (
            if pos.writes_pixel(layout, i, pos.y_end(layout)) {
                blurred_at(src, dst, layout, i)
            } else {
                old(planes)@[i]
            }),
        final(sums)@.len() == old(sums)@.len(),
        forall|j: int|
            0 <= j < old(sums)@.len() ==> #[trigger] final(sums)@[j] == (if offsets.sums <= j
                < offsets.sums + layout.columns() * mode.n_sums() && pos.writes_column(
                layout,
                (j - offsets.sums) / mode.n_sums(),
            ) {
                sum_value::<F, A>(
                    mode,
                    body,
                    src,
                    dst,
                    layout,
                    (j - offsets.sums) / mode.n_sums(),
                    (j - offsets.sums) % mode.n_sums(),
                )
            } else {
                old(sums)@[j]
            }),
        final(peaks)@.len() == old(peaks)@.len(),
        forall|j: int|
            0 <= j < old(peaks)@.len() ==> #[trigger] final(peaks)@[j] == (if offsets.peaks <= j
                < offsets.peaks + layout.columns() * mode.n_peaks() && pos.writes_column(
                layout,
                (j - offsets.peaks) / mode.n_peaks(),
            ) {
                peak_value(
                    mode,
                    body,
                    src,
                    dst,
                    layout,
                    (j - offsets.peaks) / mode.n_peaks(),
                    (j - offsets.peaks) % mode.n_peaks(),
                )
            } else {
                old(peaks)@[j]
            }),
{
    let s = src.plane(pos.channel);
    let d = dst.plane(pos.channel);
    let ghost pair = channel_pair(src, dst, layout, pos.channel as int);
    let (y_start, y_end): (u32, u32) = strip_rows(layout.height, layout.n_strips, pos.strip);
    proof {
        law_blocks_cover_items(layout.width as int, TX as int);
        assert(pos.col_block * TX < layout.width) by (nonlinear_arith)
            requires
                pos.col_block <= blocks_for(layout.width as int, TX as int) - 1,
                (blocks_for(layout.width as int, TX as int) - 1) * TX < layout.width,
        ;
    }
    let col_base: u32 = pos.col_block * TX;
    let n_sums: usize = mode.sums_per_column();
    let n_peaks: usize = mode.peaks_per_column();
    let mut window: BlockWindow<F> = BlockWindow::new();
    window.start(s, d, layout.width, layout.height, col_base, y_start);
    let mut column_sums: Vec<Vec<A>> = zero_columns(n_sums);
    let mut column_peaks: Vec<Vec<F>> = zero_columns(n_peaks);
    let mut y: u32 = y_start;
    while y < y_end
        invariant
            y_start <= y <= y_end <= layout.height,
            y_start == pos.y_start(layout),
            layout.valid(),
            pos.valid(layout),
            col_base == pos.col_base(),
            col_base < layout.width,
            s@ == src.of(pos.channel as int),
            d@ == dst.of(pos.channel as int),
            pair == pair_of(s@, d@, layout.width, layout.height),
            pair.valid(),
            window.stands_at(pair, col_base as int, y_start as int, y as int),
            sums_stand_at(
                column_sums@,
                pair,
                mode,
                body,
                col_base as int,
                y_start as int,
                y as int,
            ),
            peaks_stand_at(
                column_peaks@,
                pair,
                mode,
                body,
                col_base as int,
                y_start as int,
                y as int,
            ),
            planes.wf(),
            planes@.len() == old(planes)@.len(),
            CHANNELS * layout.pad_total <= planes@.len(),
            forall|i: int|
                0 <= i < planes@.len() ==> #[trigger] planes@[i] == (if pos.writes_pixel(
                    layout,
                    i,
                    y as int,
                ) {
                    pair.window_moments(y_start as int, layout.row(i), layout.col(i))
                } else {
                    old(planes)@[i]
                }),
        decreases y_end - y,
    {
        emit_row(
            mode,
            &window,
            s,
            d,
            planes,
            &mut column_sums,
            &mut column_peaks,
            layout,
            body,
            pos,
            Ghost(y_start as int),
            y,
        );
        window.advance(
            s,
            d,
            layout.width,
            layout.height,
            col_base,
            Ghost(y_start as int),
            y,
        );
        y += 1;
    }
    store_columns(&column_sums, n_sums, sums, offsets.sums as usize, layout, pos);
    store_columns(&column_peaks, n_peaks, peaks, offsets.peaks as usize, layout, pos);
    proof {
        let (h, n) = (layout.height as int, layout.n_strips as int);
        assert forall|i: int| 0 <= i < planes@.len() implies #[trigger] planes@[i] == (
        if pos.writes_pixel(layout, i, pos.y_end(layout)) {
            blurred_at(src, dst, layout, i)
        } else {
            old(planes)@[i]
        }) by {
            if pos.writes_pixel(layout, i, y_end as int) {
                lemma_pixel_offset(layout, i);
                law_row_has_one_strip(h, n, layout.row(i));
                assert(strip_start(h, n, pos.strip as int) <= layout.row(i));
                assert(layout.window_start(layout.row(i)) == y_start);
            }
        }
        assert forall|j: int|
            offsets.sums <= j < offsets.sums + layout.columns() * mode.n_sums()
                && pos.writes_column(layout, (j - offsets.sums) / mode.n_sums()) implies
            #[trigger] sums@[j] == sum_value::<F, A>(
            mode,
            body,
            src,
            dst,
            layout,
            (j - offsets.sums) / mode.n_sums(),
            (j - offsets.sums) % mode.n_sums(),
        ) by {
            let k = j - offsets.sums;
            lemma_place_value(layout.columns(), mode.n_sums(), k);
            let slot = k / mode.n_sums();
            lemma_column_number(layout, slot);
            let tx = layout.column_col(slot) - col_base;
            assert(column_sums@[tx]@[k % mode.n_sums()] == pair.column_sum::<A>(
                mode,
                body,
                y_start as int,
                y_end as int,
                col_base + tx,
                k % mode.n_sums(),
            ));
        }
        assert forall|j: int|
            offsets.peaks <= j < offsets.peaks + layout.columns() * mode.n_peaks()
                && pos.writes_column(layout, (j - offsets.peaks) / mode.n_peaks()) implies
            #[trigger] peaks@[j] == peak_value(
            mode,
            body,
            src,
            dst,
            layout,
            (j - offsets.peaks) / mode.n_peaks(),
            (j - offsets.peaks) % mode.n_peaks(),
        ) by {
            let k = j - offsets.peaks;
            lemma_place_value(layout.columns(), mode.n_peaks(), k);
            let slot = k / mode.n_peaks();
            lemma_column_number(layout, slot);
            let tx = layout.column_col(slot) - col_base;
            assert(column_peaks@[tx]@[k % mode.n_peaks()] == pair.column_peak(
                mode,
                body,
                y_start as int,
                y_end as int,
                col_base + tx,
                k % mode.n_peaks(),
            ));
        }
    }
}

/// The number of a block in a grid of `gx` blocks by `n` strips.
spec fn block_no(gx: int, n: int, channel: int, strip: int, col_block: int) -> int {
    (channel * n + strip) * gx + col_block
}

/// The number of the block that writes offset `i` of the planes.
spec fn pixel_block(layout: Layout, gx: int, i: int) -> int {
    block_no(
        gx,
        layout.n_strips as int,
        layout.channel(i),
        strip_of(layout.height as int, layout.n_strips as int, layout.row(i)),
        layout.col(i) / TX as int,
    )
}

/// The number of the block that writes column number `slot`.
spec fn column_block(layout: Layout, gx: int, slot: int) -> int {
    block_no(
        gx,
        layout.n_strips as int,
        layout.column_channel(slot),
        layout.column_strip(slot),
        layout.column_col(slot) / TX as int,
    )
}

/// Blocks with one number are one block.
proof fn lemma_block_no(gx: int, n: int, channel: int, strip: int, col_block: int)
    requires
        0 <= strip < n,
        0 <= col_block < gx,
    ensures
        block_no(gx, n, channel, strip, col_block) % gx == col_block,
        (block_no(gx, n, channel, strip, col_block) / gx) % n == strip,
        (block_no(gx, n, channel, strip, col_block) / gx) / n == channel,
        0 <= channel < CHANNELS ==> 0 <= block_no(gx, n, channel, strip, col_block) < CHANNELS * n
            * gx,
{
    let line = channel * n + strip;
    lemma_fundamental_div_mod_converse(line * gx + col_block, gx, line, col_block);
    lemma_fundamental_div_mod_converse(line, n, channel, strip);
    if 0 <= channel < CHANNELS {
        assert(0 <= line < CHANNELS * n) by (nonlinear_arith)
            requires
                0 <= channel < CHANNELS,
                0 <= strip < n,
                line == channel * n + strip,
        ;
        assert(0 <= line * gx + col_block < CHANNELS * n * gx) by (nonlinear_arith)
            requires
                0 <= line < CHANNELS * n,
                0 <= col_block < gx,
        ;
    }
}

/// A column of the plane lies in one block of columns.
proof fn lemma_column_in_block(width: int, col: int)
    requires
        0 <= col < width,
    ensures
        0 <= col / TX as int,
        col / (TX as int) < blocks_for(width, TX as int),
        (col / TX as int) * TX <= col < (col / TX as int) * TX + TX,
        forall|b: int| b * TX <= col < #[trigger] (b * TX) + TX ==> b == col / TX as int,
{
    law_blocks_cover_items(width, TX as int);
}

/// Exactly the pixels with a block's number are those that the block writes.
proof fn lemma_block_writes_pixel(layout: Layout, gx: int, pos: BlockPos, i: int)
    requires
        layout.valid(),
        pos.valid(layout),
        gx == blocks_for(layout.width as int, TX as int),
        layout.is_pixel(i),
    ensures
        pos.writes_pixel(layout, i, pos.y_end(layout)) <==> pixel_block(layout, gx, i) == block_no(
            gx,
            layout.n_strips as int,
            pos.channel as int,
            pos.strip as int,
            pos.col_block as int,
        ),
        0 <= pixel_block(layout, gx, i) < CHANNELS * layout.n_strips * gx,
{
    let (h, n) = (layout.height as int, layout.n_strips as int);
    lemma_pixel_offset(layout, i);
    law_row_has_one_strip(h, n, layout.row(i));
    lemma_column_in_block(layout.width as int, layout.col(i));
    lemma_block_no(
        gx,
        n,
        layout.channel(i),
        strip_of(h, n, layout.row(i)),
        layout.col(i) / TX as int,
    );
    lemma_block_no(gx, n, pos.channel as int, pos.strip as int, pos.col_block as int);
    if pos.writes_pixel(layout, i, pos.y_end(layout)) {
        assert(strip_start(h, n, pos.strip as int) <= layout.row(i));
        assert(pos.col_block * TX <= layout.col(i) < (pos.col_block * TX) + TX);
    }
}

/// Exactly the columns with a block's number are those that the block writes.
proof fn lemma_block_writes_column(layout: Layout, gx: int, pos: BlockPos, slot: int)
    requires
        layout.valid(),
        pos.valid(layout),
        gx == blocks_for(layout.width as int, TX as int),
        0 <= slot < layout.columns(),
    ensures
        pos.writes_column(layout, slot) <==> column_block(layout, gx, slot) == block_no(
            gx,
            layout.n_strips as int,
            pos.channel as int,
            pos.strip as int,
            pos.col_block as int,
        ),
        0 <= column_block(layout, gx, slot) < CHANNELS * layout.n_strips * gx,
{
    let n = layout.n_strips as int;
    lemma_column_number(layout, slot);
    lemma_column_in_block(layout.width as int, layout.column_col(slot));
    lemma_block_no(
        gx,
        n,
        layout.column_channel(slot),
        layout.column_strip(slot),
        layout.column_col(slot) / TX as int,
    );
    lemma_block_no(gx, n, pos.channel as int, pos.strip as int, pos.col_block as int);
    if pos.writes_column(layout, slot) {
        assert(pos.col_block * TX <= layout.column_col(slot) < (pos.col_block * TX) + TX);
    }
}

/// Runs every block of a blur kernel of the given mode.
#[verifier::spinoff_prover]
fn run_blocks<F: Scalar, A: Wide<F>>(
    mode: FeatMode,
    src: &Channels<F>,
    dst: &Channels<F>,
    planes: &mut Planes<F>,
    sums: &mut Vec<A>,
    peaks: &mut Vec<F>,
    layout: Layout,
    offsets: Offsets,
    body: Body,
)
    requires
        launchable(
            mode,
            src,
            dst,
            old(planes)@.len() as int,
            old(sums)@.len() as int,
            old(peaks)@.len() as int,
            layout,
            offsets,
        ),
        old(planes).wf(),
    ensures
        final(planes).wf(),
        final(planes)@ == blurred(old(planes)@, src, dst, layout),
        final(sums)@ == summed(old(sums)@, mode, body, src, dst, layout, offsets.sums as int),
        final(peaks)@ == peaked(old(peaks)@, mode, body, src, dst, layout, offsets.peaks as int),
{
    let grid = feature_grid(layout.width, layout.n_strips);
    let ghost gx = grid.x as int;
    let ghost n = layout.n_strips as int;
    let ghost total = CHANNELS * n * gx;
    let ghost mut b: int = 0;
    let mut pos: BlockPos = BlockPos { col_block: 0, strip: 0, channel: 0 };
    proof {
        law_blocks_cover_items(layout.width as int, TX as int);
        assert(block_no(gx, n, 0, 0, 0) == 0) by (nonlinear_arith);
        assert forall|i: int| layout.is_pixel(i) implies #[trigger] pixel_block(layout, gx, i)
            >= 0 by {
            lemma_block_writes_pixel(layout, gx, pos, i);
        }
        assert forall|k: int| 0 <= k < layout.columns() implies #[trigger] column_block(
            layout,
            gx,
            k,
        ) >= 0 by {
            lemma_block_writes_column(layout, gx, pos, k);
        }
        assert forall|j: int| 0 <= j < layout.columns() * mode.n_sums() implies 0 <= #[trigger] (j
            / mode.n_sums()) < layout.columns() by {
            lemma_place_value(layout.columns(), mode.n_sums(), j);
        }
        assert forall|j: int| 0 <= j < layout.columns() * mode.n_peaks() implies 0 <= #[trigger] (j
            / mode.n_peaks()) < layout.columns() by {
            lemma_place_value(layout.columns(), mode.n_peaks(), j);
        }
    }
    while pos.channel < grid.z
        invariant
            grid.x == gx == blocks_for(layout.width as int, TX as int),
            grid.y == n == layout.n_strips,
            grid.z == CHANNELS,
            total == CHANNELS * n * gx,
            launchable(
                mode,
                src,
                dst,
                planes@.len() as int,
                sums@.len() as int,
                peaks@.len() as int,
                layout,
                offsets,
            ),
            pos.channel <= CHANNELS,
            pos.channel < CHANNELS ==> pos.valid(layout),
            pos.channel == CHANNELS ==> pos.strip == 0 && pos.col_block == 0,
            b == block_no(gx, n, pos.channel as int, pos.strip as int, pos.col_block as int),
            planes.wf(),
            planes@.len() == old(planes)@.len(),
            sums@.len() == old(sums)@.len(),
            peaks@.len() == old(peaks)@.len(),
            forall|i: int|
                0 <= i < planes@.len() ==> #[trigger] planes@[i] == (if layout.is_pixel(i)
                    && pixel_block(layout, gx, i) < b {
                    blurred_at(src, dst, layout, i)
                } else {
                    old(planes)@[i]
                }),
            forall|j: int|
                0 <= j < sums@.len() ==> #[trigger] sums@[j] == (if offsets.sums <= j < offsets.sums
                    + layout.columns() * mode.n_sums() && column_block(
                    layout,
                    gx,
                    (j - offsets.sums) / mode.n_sums(),
                ) < b {
                    sum_value::<F, A>(
                        mode,
                        body,
                        src,
                        dst,
                        layout,
                        (j - offsets.sums) / mode.n_sums(),
                        (j - offsets.sums) % mode.n_sums(),
                    )
                } else {
                    old(sums)@[j]
                }),
            forall|j: int|
                0 <= j < peaks@.len() ==> #[trigger] peaks@[j] == (if offsets.peaks <= j
                    < offsets.peaks + layout.columns() * mode.n_peaks() && column_block(
                    layout,
                    gx,
                    (j - offsets.peaks) / mode.n_peaks(),
                ) < b {
                    peak_value(
                        mode,
                        body,
                        src,
                        dst,
                        layout,
                        (j - offsets.peaks) / mode.n_peaks(),
                        (j - offsets.peaks) % mode.n_peaks(),
                    )
                } else {
                    old(peaks)@[j]
                }),
        decreases total - b,
    {
        let ghost before = (planes@, sums@, peaks@);
        run_block(mode, src, dst, planes, sums, peaks, layout, offsets, body, pos);
        proof {
            lemma_block_no(gx, n, pos.channel as int, pos.strip as int, pos.col_block as int);
            assert forall|i: int| 0 <= i < planes@.len() implies #[trigger] planes@[i] == (
            if layout.is_pixel(i) && pixel_block(layout, gx, i) < b + 1 {
                blurred_at(src, dst, layout, i)
            } else {
                old(planes)@[i]
            }) by {
                assert(before.0[i] == before.0[i]);
                if layout.is_pixel(i) {
                    lemma_block_writes_pixel(layout, gx, pos, i);
                }
            }
            assert forall|j: int| 0 <= j < sums@.len() implies #[trigger] sums@[j] == (
            if offsets.sums <= j < offsets.sums + layout.columns() * mode.n_sums() && column_block(
                layout,
                gx,
                (j - offsets.sums) / mode.n_sums(),
            ) < b + 1 {
                sum_value::<F, A>(
                    mode,
                    body,
                    src,
                    dst,
                    layout,
                    (j - offsets.sums) / mode.n_sums(),
                    (j - offsets.sums) % mode.n_sums(),
                )
            } else {
                old(sums)@[j]
            }) by {
                assert(before.1[j] == before.1[j]);
                let k = j - offsets.sums;
                if 0 <= k < layout.columns() * mode.n_sums() {
                    lemma_place_value(layout.columns(), mode.n_sums(), k);
                    lemma_block_writes_column(layout, gx, pos, k / mode.n_sums());
                }
            }
            assert forall|j: int| 0 <= j < peaks@.len() implies #[trigger] peaks@[j] == (
            if offsets.peaks <= j < offsets.peaks + layout.columns() * mode.n_peaks()
                && column_block(layout, gx, (j - offsets.peaks) / mode.n_peaks()) < b + 1 {
                peak_value(
                    mode,
                    body,
                    src,
                    dst,
                    layout,
                    (j - offsets.peaks) / mode.n_peaks(),
                    (j - offsets.peaks) % mode.n_peaks(),
                )
            } else {
                old(peaks)@[j]
            }) by {
                assert(before.2[j] == before.2[j]);
                let k = j - offsets.peaks;
                if 0 <= k < layout.columns() * mode.n_peaks() {
                    lemma_place_value(layout.columns(), mode.n_peaks(), k);
                    lemma_block_writes_column(layout, gx, pos, k / mode.n_peaks());
                }
            }
            let (c, s, x) = (pos.channel as int, pos.strip as int, pos.col_block as int);
            assert((c * n + s) * gx + gx == (c * n + s + 1) * gx && c * n + n == (c + 1) * n)
                by (nonlinear_arith);
            b = b + 1;
        }
        if pos.col_block + 1 < grid.x {
            pos = BlockPos { col_block: pos.col_block + 1, strip: pos.strip, channel: pos.channel };
        } else if pos.strip + 1 < grid.y {
            pos = BlockPos { col_block: 0, strip: pos.strip + 1, channel: pos.channel };
        } else {
            pos = BlockPos { col_block: 0, strip: 0, channel: pos.channel + 1 };
        }
    }
    proof {
        let last = BlockPos { col_block: 0, strip: 0, channel: 0 };
        assert(b == total) by (nonlinear_arith)
            requires
                b == (CHANNELS * n + 0) * gx + 0,
                total == CHANNELS * n * gx,
        ;
        assert forall|i: int| 0 <= i < planes@.len() implies #[trigger] planes@[i] == blurred(
            old(planes)@,
            src,
            dst,
            layout,
        )[i] by {
            if layout.is_pixel(i) {
                lemma_block_writes_pixel(layout, gx, last, i);
            }
        }
        assert forall|j: int| 0 <= j < sums@.len() implies #[trigger] sums@[j] == summed(
            old(sums)@,
            mode,
            body,
            src,
            dst,
            layout,
            offsets.sums as int,
        )[j] by {
            let k = j - offsets.sums;
            if 0 <= k < layout.columns() * mode.n_sums() {
                lemma_place_value(layout.columns(), mode.n_sums(), k);
                lemma_block_writes_column(layout, gx, last, k / mode.n_sums());
            }
        }
        assert forall|j: int| 0 <= j < peaks@.len() implies #[trigger] peaks@[j] == peaked(
            old(peaks)@,
            mode,
            body,
            src,
            dst,
            layout,
            offsets.peaks as int,
        )[j] by {
            let k = j - offsets.peaks;
            if 0 <= k < layout.columns() * mode.n_peaks() {
                lemma_place_value(layout.columns(), mode.n_peaks(), k);
                lemma_block_writes_column(layout, gx, last, k / mode.n_peaks());
            }
        }
        assert(planes@ =~= blurred(old(planes)@, src, dst, layout));
    }
}

/// No rows.
pub open spec fn no_body() -> Body {
    Body { start: 0, end: 0 }
}

/// The kernel that computes the moment planes and nothing else.
pub fn blur_planes_kernel<F: Scalar>(
    src: &Channels<F>,
    dst: &Channels<F>,
    planes: &mut Planes<F>,
    layout: Layout,
)
    requires
        layout.valid(),
        src.hold(layout.width * layout.height),
        dst.hold(layout.width * layout.height),
        old(planes).wf(),
        CHANNELS * layout.pad_total <= old(planes)@.len(),
    ensures
        final(planes).wf(),
        final(planes)@ == blurred(old(planes)@, src, dst, layout),
{
    let mut sums: Vec<F> = Vec::new();
    let mut peaks: Vec<F> = Vec::new();
    run_blocks::<F, F>(
        FeatMode::BlurOnly,
        src,
        dst,
        planes,
        &mut sums,
        &mut peaks,
        layout,
        Offsets { sums: 0, peaks: 0 },
        Body { start: 0, end: 0 },
    );
}

/// The kernel that computes the moment planes and, per column and strip, the sum of
/// the blurred source in a wider type.
pub fn blur_f64_kernel<F: Scalar, A: Wide<F>>(
    src: &Channels<F>,
    dst: &Channels<F>,
    partials: &mut Vec<A>,
    planes: &mut Planes<F>,
    layout: Layout,
)
    requires
        layout.valid(),
        src.hold(layout.width * layout.height),
        dst.hold(layout.width * layout.height),
        old(planes).wf(),
        CHANNELS * layout.pad_total <= old(planes)@.len(),
        layout.columns() <= old(partials)@.len(),
    ensures
        final(planes).wf(),
        final(planes)@ == blurred(old(planes)@, src, dst, layout),
        final(partials)@ == summed(
            old(partials)@,
            FeatMode::BlurF64,
            no_body(),
            src,
            dst,
            layout,
            0,
        ),
{
    let mut peaks: Vec<F> = Vec::new();
    run_blocks(
        FeatMode::BlurF64,
        src,
        dst,
        planes,
        partials,
        &mut peaks,
        layout,
        Offsets { sums: 0, peaks: 0 },
        Body { start: 0, end: 0 },
    );
}

/// The kernel that computes the moment planes and, per column and strip, the feature
/// sums in a wider type and the feature peaks.
pub fn fused_features_kernel_persist<F: Scalar, A: Wide<F>>(
    src: &Channels<F>,
    dst: &Channels<F>,
    partials: &mut Vec<A>,
    peaks: &mut Vec<F>,
    planes: &mut Planes<F>,
    layout: Layout,
    offsets: Offsets,
    body: Body,
)
    requires
        launchable(
            FeatMode::Full,
            src,
            dst,
            old(planes)@.len() as int,
            old(partials)@.len() as int,
            old(peaks)@.len() as int,
            layout,
            offsets,
        ),
        old(planes).wf(),
    ensures
        final(planes).wf(),
        final(planes)@ == blurred(old(planes)@, src, dst, layout),
        final(partials)@ == summed(
            old(partials)@,
            FeatMode::Full,
            body,
            src,
            dst,
            layout,
            offsets.sums as int,
        ),
        final(peaks)@ == peaked(
            old(peaks)@,
            FeatMode::Full,
            body,
            src,
            dst,
            layout,
            offsets.peaks as int,
        ),
{
    run_blocks(FeatMode::Full, src, dst, planes, partials, peaks, layout, offsets, body);
}

/// The seventeen sums of each column of each strip of each channel lie together, the columns of
/// a strip one after the other, then the strips, then the channels; nothing else is written.
pub proof fn law_sums_lie_by_column<F: Scalar, A: Wide<F>>(
    before: Seq<A>,
    body: Body,
    src: &Channels<F>,
    dst: &Channels<F>,
    layout: Layout,
    off: int,
    channel: int,
    strip: int,
    col: int,
    t: int,
)
    requires
        layout.valid(),
        0 <= off,
        off + 3 * layout.n_strips * layout.width * 17 <= before.len(),
        0 <= channel < 3,
        0 <= strip < layout.n_strips,
        0 <= col < layout.width,
        0 <= t < 17,
    ensures
        ({
            let (w, h, n) = (layout.width as int, layout.height as int, layout.n_strips as int);
            summed(before, FeatMode::Full, body, src, dst, layout, off)[off + ((channel * n + strip)
                * w + col) * 17 + t] == channel_pair(src, dst, layout, channel).column_sum::<A>(
                FeatMode::Full,
                body,
                strip_start(h, n, strip),
                strip_start(h, n, strip + 1),
                col,
                t,
            )
        }),
        forall|j: int|
            0 <= j < before.len() && !(off <= j < off + 3 * layout.n_strips * layout.width * 17)
                ==> #[trigger] summed(before, FeatMode::Full, body, src, dst, layout, off)[j]
                == before[j],
{
    lemma_column_position(layout, channel, strip, col);
    lemma_value_place(layout.columns(), 17, layout.column(channel, strip, col), t);
}

/// The three peaks of each column lie as its sums do.
pub proof fn law_peaks_lie_by_column<F: Scalar>(
    before: Seq<F>,
    body: Body,
    src: &Channels<F>,
    dst: &Channels<F>,
    layout: Layout,
    off: int,
    channel: int,
    strip: int,
    col: int,
    t: int,
)
    requires
        layout.valid(),
        0 <= off,
        off + 3 * layout.n_strips * layout.width * 3 <= before.len(),
        0 <= channel < 3,
        0 <= strip < layout.n_strips,
        0 <= col < layout.width,
        0 <= t < 3,
    ensures
        ({
            let (w, h, n) = (layout.width as int, layout.height as int, layout.n_strips as int);
            peaked(before, FeatMode::Full, body, src, dst, layout, off)[off + ((channel * n + strip)
                * w + col) * 3 + t] == channel_pair(src, dst, layout, channel).column_peak(
                FeatMode::Full,
                body,
                strip_start(h, n, strip),
                strip_start(h, n, strip + 1),
                col,
                t,
            )
        }),
        forall|j: int|
            0 <= j < before.len() && !(off <= j < off + 3 * layout.n_strips * layout.width * 3)
                ==> #[trigger] peaked(before, FeatMode::Full, body, src, dst, layout, off)[j]
                == before[j],
{
    lemma_column_position(layout, channel, strip, col);
    lemma_value_place(layout.columns(), 3, layout.column(channel, strip, col), t);
}

/// The kernel that sums the blurred source alone keeps one sum of each column, in the same order.
pub proof fn law_blur_sums_lie_by_column<F: Scalar, A: Wide<F>>(
    before: Seq<A>,
    body: Body,
    src: &Channels<F>,
    dst: &Channels<F>,
    layout: Layout,
    channel: int,
    strip: int,
    col: int,
)
    requires
        layout.valid(),
        3 * layout.n_strips * layout.width <= before.len(),
        0 <= channel < 3,
        0 <= strip < layout.n_strips,
        0 <= col < layout.width,
    ensures
        ({
            let (w, h, n) = (layout.width as int, layout.height as int, layout.n_strips as int);
            summed(before, FeatMode::BlurF64, body, src, dst, layout, 0)[(channel * n + strip) * w
                + col] == channel_pair(src, dst, layout, channel).column_sum::<A>(
                FeatMode::BlurF64,
                body,
                strip_start(h, n, strip),
                strip_start(h, n, strip + 1),
                col,
                0,
            )
        }),
        forall|j: int|
            3 * layout.n_strips * layout.width <= j < before.len() ==> #[trigger] summed(
                before,
                FeatMode::BlurF64,
                body,
                src,
                dst,
                layout,
                0,
            )[j] == before[j],
{
    lemma_column_position(layout, channel, strip, col);
    lemma_value_place(layout.columns(), 1, layout.column(channel, strip, col), 0);
}

/// Bit for bit, a blur kernel starts a window at the first row of each strip and slides it down
/// to the last: each pixel has the moments of the window of its own strip.
pub proof fn law_windows_start_with_strips<F: Scalar>(
    before: Seq<Moments<F>>,
    src: &Channels<F>,
    dst: &Channels<F>,
    layout: Layout,
    channel: int,
    strip: int,
    row: int,
    col: int,
)
    requires
        layout.valid(),
        before.len() == 3 * layout.pad_total,
        0 <= channel < 3,
        0 <= strip < layout.n_strips,
        strip_start(layout.height as int, layout.n_strips as int, strip) <= row,
        row < strip_start(layout.height as int, layout.n_strips as int, strip + 1),
        0 <= row < layout.height,
        0 <= col < layout.width,
    ensures
        blurred(before, src, dst, layout)[channel * layout.pad_total + row * layout.width + col]
            == channel_pair(src, dst, layout, channel).window_moments(
            strip_start(layout.height as int, layout.n_strips as int, strip),
            row,
            col,
        ),
{
    let (h, n) = (layout.height as int, layout.n_strips as int);
    lemma_pixel_position(layout, channel, row, col);
    assert(strip_of(h, n, row) == strip) by {
        law_row_has_one_strip(h, n, row);
    }
}

} // verus!
