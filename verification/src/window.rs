//! The sliding blur window of one block.
//!
//! A block blurs a strip of rows, [`TX`] columns wide. It keeps, for each column,
//! the moments of the last [`DIAM`] rows in a ring and their sum, so that one row
//! down costs one row of taps: the row that comes in is added, the row that leaves
//! is taken off.
use vstd::arithmetic::div_mod::{lemma_mod_bound, lemma_small_mod};
use vstd::prelude::*;

use crate::geometry::{DIAM, R, TILE_COLS, TX};
use crate::mirror::{law_reflect_in_range, mirror_ahead, mirror_behind, reflect};
use crate::scalar::{zero, Scalar};

verus! {

/// The four moments that are blurred: of the source, of the distorted image, of
/// the sum of their squares, and of their product.
#[derive(Clone, Copy)]
pub struct Moments<F: Scalar> {
    pub mu1: F,
    pub mu2: F,
    pub ssq: F,
    pub s12: F,
}

impl<F: Scalar> Moments<F> {
    /// All four zero.
    pub open spec fn spec_zero() -> Self {
        Moments { mu1: zero(), mu2: zero(), ssq: zero(), s12: zero() }
    }

    /// Each moment plus its counterpart.
    pub open spec fn spec_plus(self, rhs: Self) -> Self {
        Moments {
            mu1: self.mu1.spec_plus(rhs.mu1),
            mu2: self.mu2.spec_plus(rhs.mu2),
            ssq: self.ssq.spec_plus(rhs.ssq),
            s12: self.s12.spec_plus(rhs.s12),
        }
    }

    /// Each moment minus its counterpart.
    pub open spec fn spec_minus(self, rhs: Self) -> Self {
        Moments {
            mu1: self.mu1.spec_minus(rhs.mu1),
            mu2: self.mu2.spec_minus(rhs.mu2),
            ssq: self.ssq.spec_minus(rhs.ssq),
            s12: self.s12.spec_minus(rhs.s12),
        }
    }

    /// Each moment times `factor`.
    pub open spec fn spec_scaled(self, factor: F) -> Self {
        Moments {
            mu1: self.mu1.spec_times(factor),
            mu2: self.mu2.spec_times(factor),
            ssq: self.ssq.spec_times(factor),
            s12: self.s12.spec_times(factor),
        }
    }

    /// One pair of samples more: `s` of the source, `d` of the distorted image.
    pub open spec fn spec_tapped(self, s: F, d: F) -> Self {
        Moments {
            mu1: self.mu1.spec_plus(s),
            mu2: self.mu2.spec_plus(d),
            ssq: s.spec_fma(s, d.spec_fma(d, self.ssq)),
            s12: s.spec_fma(d, self.s12),
        }
    }

    fn zeroed() -> (r: Self)
        ensures
            r == Self::spec_zero(),
    {
        let z = F::ratio(0, 1);
        Moments { mu1: z, mu2: z, ssq: z, s12: z }
    }

    fn plus(self, rhs: Self) -> (r: Self)
        ensures
            r == self.spec_plus(rhs),
    {
        Moments {
            mu1: self.mu1.plus(rhs.mu1),
            mu2: self.mu2.plus(rhs.mu2),
            ssq: self.ssq.plus(rhs.ssq),
            s12: self.s12.plus(rhs.s12),
        }
    }

    fn minus(self, rhs: Self) -> (r: Self)
        ensures
            r == self.spec_minus(rhs),
    {
        Moments {
            mu1: self.mu1.minus(rhs.mu1),
            mu2: self.mu2.minus(rhs.mu2),
            ssq: self.ssq.minus(rhs.ssq),
            s12: self.s12.minus(rhs.s12),
        }
    }

    fn scaled(self, factor: F) -> (r: Self)
        ensures
            r == self.spec_scaled(factor),
    {
        Moments {
            mu1: self.mu1.times(factor),
            mu2: self.mu2.times(factor),
            ssq: self.ssq.times(factor),
            s12: self.s12.times(factor),
        }
    }

    fn tapped(self, s: F, d: F) -> (r: Self)
        ensures
            r == self.spec_tapped(s, d),
    {
        Moments {
            mu1: self.mu1.plus(s),
            mu2: self.mu2.plus(d),
            ssq: s.fma(s, d.fma(d, self.ssq)),
            s12: s.fma(d, self.s12),
        }
    }
}

/// The source and the distorted plane of one channel, row by row.
pub struct PlanePair<F> {
    pub src: Seq<F>,
    pub dst: Seq<F>,
    pub width: int,
    pub height: int,
}

/// A side that the window can slide along: the window reaches no further than one
/// reflection, and positions stay within 32 bits.
pub open spec fn slidable(side: int) -> bool {
    4 <= side && 3 * side + 2 * TILE_COLS <= u32::MAX
}

impl<F: Scalar> PlanePair<F> {
    /// Both planes hold every sample of a size that the window can slide along.
    pub open spec fn valid(self) -> bool {
        &&& slidable(self.width)
        &&& slidable(self.height)
        &&& self.width * self.height <= self.src.len()
        &&& self.width * self.height <= self.dst.len()
    }

    /// The offset of the sample that column `x` of row `row` shows, `x` being
    /// reflected at the left and right border.
    pub open spec fn offset(self, row: int, x: int) -> int {
        row * self.width + reflect(x, self.width)
    }

    /// The first `taps` taps of the window of column `col`, in row `row`.
    pub open spec fn row_taps(self, row: int, col: int, taps: nat) -> Moments<F>
        decreases taps,
    {
        if taps == 0 {
            Moments::spec_zero()
        } else {
            let at = self.offset(row, col + taps - 1 - R);
            self.row_taps(row, col, (taps - 1) as nat).spec_tapped(self.src[at], self.dst[at])
        }
    }

    /// The blur of row `row` at column `col`. The rows go on above and below the
    /// plane by reflection.
    pub open spec fn row_moments(self, row: int, col: int) -> Moments<F> {
        self.row_taps(reflect(row, self.height), col, DIAM as nat).spec_scaled(inv_diam())
    }

    /// The sum of the first `rows` rows of the window whose middle row is `y`.
    pub open spec fn first_rows(self, y: int, col: int, rows: nat) -> Moments<F>
        decreases rows,
    {
        if rows == 0 {
            Moments::spec_zero()
        } else {
            self.first_rows(y, col, (rows - 1) as nat).spec_plus(
                self.row_moments(y + rows - 1 - R, col),
            )
        }
    }

    /// The sum that a window started at row `y_start` holds when its middle row is `y`.
    pub open spec fn window_sum(self, y_start: int, y: int, col: int) -> Moments<F>
        decreases y - y_start,
    {
        if y <= y_start {
            self.first_rows(y_start, col, DIAM as nat)
        } else {
            self.window_sum(y_start, y - 1, col).spec_plus(
                self.row_moments(y + R, col),
            ).spec_minus(self.row_moments(y - 1 - R, col))
        }
    }

    /// The blurred moments at row `y`, column `col`, as a window started at row
    /// `y_start` gives them.
    pub open spec fn window_moments(self, y_start: int, y: int, col: int) -> Moments<F> {
        self.window_sum(y_start, y, col).spec_scaled(inv_diam())
    }
}

/// One over the diameter.
pub open spec fn inv_diam<F: Scalar>() -> F {
    F::spec_ratio(1, DIAM)
}

/// The offset of a sample is one of the plane.
pub proof fn lemma_offset_in_plane<F: Scalar>(pair: PlanePair<F>, row: int, x: int)
    requires
        pair.width >= 2,
        0 <= row < pair.height,
    ensures
        0 <= reflect(x, pair.width) < pair.width,
        0 <= row * pair.width <= pair.offset(row, x) < pair.width * pair.height,
{
    law_reflect_in_range(x, pair.width);
    let g = reflect(x, pair.width);
    let (w, h) = (pair.width, pair.height);
    assert(0 <= row * w && row * w + g < w * h) by (nonlinear_arith)
        requires
            0 <= row < h,
            0 <= g < w,
    ;
}

/// What one block keeps while it slides down its strip.
pub(crate) struct BlockWindow<F: Scalar> {
    /// The row tile that the units of the block load together.
    src_row: Vec<F>,
    dst_row: Vec<F>,
    /// The moments of the rows in the window: [`DIAM`] slots of [`TX`] columns.
    ring: Vec<Moments<F>>,
    /// The sum of the window, per column.
    sums: Vec<Moments<F>>,
    /// The slot of the oldest row.
    slot: u32,
}

impl<F: Scalar> BlockWindow<F> {
    /// The sizes of the buffers.
    pub(crate) closed spec fn sized(&self) -> bool {
        &&& self.src_row@.len() == TILE_COLS
        &&& self.dst_row@.len() == TILE_COLS
        &&& self.ring@.len() == DIAM * TX
        &&& self.sums@.len() == TX
        &&& self.slot < DIAM
    }

    /// The tile holds row `row` from a radius left of column `col_base` on.
    closed spec fn tile_is(&self, pair: PlanePair<F>, row: int, col_base: int) -> bool {
        forall|j: int|
            0 <= j < TILE_COLS ==> {
                &&& (#[trigger] self.src_row@[j]) == pair.src[pair.offset(row, col_base + j - R)]
                &&& self.dst_row@[j] == pair.dst[pair.offset(row, col_base + j - R)]
            }
    }

    /// The window stands at row `y`, having been started at row `y_start`: the sums
    /// are those of the window, and the ring holds its rows, oldest first from
    /// `slot` on.
    pub(crate) closed spec fn stands_at(
        &self,
        pair: PlanePair<F>,
        col_base: int,
        y_start: int,
        y: int,
    ) -> bool {
        &&& self.sized()
        &&& self.slot == (y - y_start) % (DIAM as int)
        &&& forall|tx: int|
            0 <= tx < TX ==> #[trigger] self.sums@[tx] == pair.window_sum(
                y_start,
                y,
                col_base + tx,
            )
        &&& forall|q: int, tx: int|
            0 <= q < DIAM && 0 <= tx < TX ==> #[trigger] self.ring@[ring_at(y - y_start + q, tx)]
                == pair.row_moments(y - R + q, col_base + tx)
    }

    /// Empty buffers.
    pub(crate) fn new() -> (r: Self)
        ensures
            r.sized(),
    {
        let z = F::ratio(0, 1);
        let mut src_row: Vec<F> = Vec::new();
        let mut dst_row: Vec<F> = Vec::new();
        let mut ring: Vec<Moments<F>> = Vec::new();
        let mut sums: Vec<Moments<F>> = Vec::new();
        while src_row.len() < TILE_COLS as usize
            invariant
                src_row@.len() == dst_row@.len() <= TILE_COLS,
            decreases TILE_COLS - src_row.len(),
        {
            src_row.push(z);
            dst_row.push(z);
        }
        while ring.len() < (DIAM * TX) as usize
            invariant
                ring@.len() <= DIAM * TX,
            decreases DIAM * TX - ring.len(),
        {
            ring.push(Moments::zeroed());
        }
        while sums.len() < TX as usize
            invariant
                sums@.len() <= TX,
            decreases TX - sums.len(),
        {
            sums.push(Moments::zeroed());
        }
        BlockWindow { src_row, dst_row, ring, sums, slot: 0 }
    }

    /// The units of the block load the tile of row `row` together: unit `tx` takes
    /// the columns `tx`, `tx + TX`, .. of the tile.
    fn load_tile(
        &mut self,
        src: &[F],
        dst: &[F],
        width: u32,
        height: u32,
        row: u32,
        col_base: u32,
    )
        requires
            old(self).sized(),
            pair_of(src@, dst@, width, height).valid(),
            row < height,
            col_base < width,
        ensures
            final(self).sized(),
            final(self).tile_is(pair_of(src@, dst@, width, height), row as int, col_base as int),
            final(self).ring == old(self).ring,
            final(self).sums == old(self).sums,
            final(self).slot == old(self).slot,
    {
        let ghost pair = pair_of(src@, dst@, width, height);
        let w: usize = width as usize;
        let mut tx: u32 = 0;
        while tx < TX
            invariant
                tx <= TX,
                w == width,
                pair == pair_of(src@, dst@, width, height),
                pair.valid(),
                row < height,
                col_base < width,
                self.sized(),
                self.ring == old(self).ring,
                self.sums == old(self).sums,
                self.slot == old(self).slot,
                forall|j: int|
                    0 <= j < TILE_COLS && j % (TX as int) < tx ==> {
                        &&& (#[trigger] self.src_row@[j]) == pair.src[pair.offset(
                            row as int,
                            col_base + j - R,
                        )]
                        &&& self.dst_row@[j] == pair.dst[pair.offset(row as int, col_base + j - R)]
                    },
            decreases TX - tx,
        {
            let mut i: u32 = 0;
            while i * TX + tx < TILE_COLS
                invariant
                    tx < TX,
                    i <= 2,
                    w == width,
                    pair == pair_of(src@, dst@, width, height),
                    pair.valid(),
                    row < height,
                    col_base < width,
                    self.sized(),
                    self.ring == old(self).ring,
                    self.sums == old(self).sums,
                    self.slot == old(self).slot,
                    forall|j: int|
                        0 <= j < TILE_COLS && (j % (TX as int) < tx || j % (TX as int) == tx && j
                            < i * TX + tx) ==> {
                            &&& (#[trigger] self.src_row@[j]) == pair.src[pair.offset(
                                row as int,
                                col_base + j - R,
                            )]
                            &&& self.dst_row@[j] == pair.dst[pair.offset(
                                row as int,
                                col_base + j - R,
                            )]
                        },
                decreases 2 - i,
            {
                let load_x: u32 = i * TX + tx;
                let gx: u32 = mirror_behind(col_base + load_x, width);
                proof {
                    lemma_offset_in_plane(pair, row as int, col_base + load_x - R);
                    assert(src@.len() == src.len());
                }
                let off: usize = (row as usize) * w + (gx as usize);
                assert(off == pair.offset(row as int, col_base + load_x - R));
                let ghost before = (self.src_row@, self.dst_row@);
                self.src_row.set(load_x as usize, src[off]);
                self.dst_row.set(load_x as usize, dst[off]);
                assert forall|j: int|
                    0 <= j < TILE_COLS && (j % (TX as int) < tx || j % (TX as int) == tx && j < (i
                        + 1) * TX + tx) implies (#[trigger] self.src_row@[j])
                    == pair.src[pair.offset(row as int, col_base + j - R)] && self.dst_row@[j]
                    == pair.dst[pair.offset(row as int, col_base + j - R)] by {
                    if j % 64 == tx && i * 64 + tx <= j {
                        assert(j == load_x);
                        assert(self.src_row@[j] == src@[off as int]);
                        assert(self.dst_row@[j] == dst@[off as int]);
                    } else {
                        assert(j != load_x);
                        assert(self.src_row@[j] == before.0[j]);
                        assert(self.dst_row@[j] == before.1[j]);
                    }
                }
                i += 1;
            }
            assert forall|j: int|
                0 <= j < TILE_COLS && j % (TX as int) < tx + 1 implies (#[trigger] self.src_row@[j])
                == pair.src[pair.offset(row as int, col_base + j - R)] && self.dst_row@[j]
                == pair.dst[pair.offset(row as int, col_base + j - R)] by {
                assert(j < i * TX + tx);
                assert(j % (TX as int) < tx || j % (TX as int) == tx);
            }
            tx += 1;
        }
    }

    /// What unit `tx` makes of the tile: the blur of the tile's row at its column.
    fn blur_tile(
        &self,
        Ghost(pair): Ghost<PlanePair<F>>,
        Ghost(row): Ghost<int>,
        Ghost(col_base): Ghost<int>,
        tx: u32,
    ) -> (r: Moments<F>)
        requires
            self.sized(),
            self.tile_is(pair, row, col_base),
            tx < TX,
        ensures
            r == pair.row_taps(row, col_base + tx, DIAM as nat).spec_scaled(inv_diam()),
    {
        let mut m: Moments<F> = Moments::zeroed();
        let mut j: u32 = 0;
        while j < DIAM
            invariant
                self.sized(),
                self.tile_is(pair, row, col_base),
                tx < TX,
                j <= DIAM,
                m == pair.row_taps(row, col_base + tx, j as nat),
            decreases DIAM - j,
        {
            let s = self.src_row[(tx + j) as usize];
            let d = self.dst_row[(tx + j) as usize];
            assert(self.src_row@[tx + j] == pair.src[pair.offset(row, col_base + (tx + j) - R)]);
            m = m.tapped(s, d);
            j += 1;
        }
        m.scaled(F::ratio(1, DIAM))
    }

    /// Fills the ring with the rows of the window whose middle row is `y_start`, and
    /// sums them.
    pub(crate) fn start(
        &mut self,
        src: &[F],
        dst: &[F],
        width: u32,
        height: u32,
        col_base: u32,
        y_start: u32,
    )
        requires
            old(self).sized(),
            pair_of(src@, dst@, width, height).valid(),
            col_base < width,
            y_start <= height,
        ensures
            final(self).stands_at(
                pair_of(src@, dst@, width, height),
                col_base as int,
                y_start as int,
                y_start as int,
            ),
    {
        let ghost pair = pair_of(src@, dst@, width, height);
        let mut tx: u32 = 0;
        while tx < TX
            invariant
                tx <= TX,
                self.sized(),
                forall|t: int| 0 <= t < tx ==> #[trigger] self.sums@[t] == Moments::<F>::spec_zero(),
            decreases TX - tx,
        {
            self.sums.set(tx as usize, Moments::zeroed());
            tx += 1;
        }
        let mut k: u32 = 0;
        while k < DIAM
            invariant
                k <= DIAM,
                pair == pair_of(src@, dst@, width, height),
                pair.valid(),
                col_base < width,
                y_start <= height,
                self.sized(),
                forall|t: int|
                    0 <= t < TX ==> #[trigger] self.sums@[t] == pair.first_rows(
                        y_start as int,
                        col_base + t,
                        k as nat,
                    ),
                forall|q: int, t: int|
                    0 <= q < k && 0 <= t < TX ==> #[trigger] self.ring@[q * TX + t]
                        == pair.row_moments(y_start - R + q, col_base + t),
            decreases DIAM - k,
        {
            let y_in: u32 = mirror_behind(y_start + k, height);
            self.load_tile(src, dst, width, height, y_in, col_base);
            let mut tx: u32 = 0;
            while tx < TX
                invariant
                    tx <= TX,
                    k < DIAM,
                    pair == pair_of(src@, dst@, width, height),
                    y_in == reflect(y_start + k - R, pair.height),
                    self.sized(),
                    self.tile_is(pair, y_in as int, col_base as int),
                    forall|t: int|
                        0 <= t < tx ==> #[trigger] self.sums@[t] == pair.first_rows(
                            y_start as int,
                            col_base + t,
                            (k + 1) as nat,
                        ),
                    forall|t: int|
                        tx <= t < TX ==> #[trigger] self.sums@[t] == pair.first_rows(
                            y_start as int,
                            col_base + t,
                            k as nat,
                        ),
                    forall|q: int, t: int|
                        0 <= q < k && 0 <= t < TX || q == k && 0 <= t < tx
                            ==> #[trigger] self.ring@[q * TX + t] == pair.row_moments(
                            y_start - R + q,
                            col_base + t,
                        ),
                decreases TX - tx,
            {
                let m = self.blur_tile(Ghost(pair), Ghost(y_in as int), Ghost(col_base as int), tx);
                assert(m == pair.row_moments(y_start - R + k, col_base + tx));
                self.ring.set((k * TX + tx) as usize, m);
                let sum = self.sums[tx as usize].plus(m);
                self.sums.set(tx as usize, sum);
                tx += 1;
            }
            k += 1;
        }
        self.slot = 0;
        assert forall|q: int, t: int| 0 <= q < DIAM && 0 <= t < TX implies #[trigger] self.ring@[ring_at(
            q,
            t,
        )] == pair.row_moments(y_start - R + q, col_base + t) by {
            lemma_small_mod(q as nat, DIAM as nat);
            assert(ring_at(q, t) == q * TX + t);
        }
    }

    /// The blurred moments at the column of unit `tx`.
    pub(crate) fn moments(
        &self,
        Ghost(pair): Ghost<PlanePair<F>>,
        Ghost(col_base): Ghost<int>,
        Ghost(y_start): Ghost<int>,
        Ghost(y): Ghost<int>,
        tx: u32,
    ) -> (r: Moments<F>)
        requires
            self.stands_at(pair, col_base, y_start, y),
            tx < TX,
        ensures
            r == pair.window_moments(y_start, y, col_base + tx),
    {
        self.sums[tx as usize].scaled(F::ratio(1, DIAM))
    }

    /// Moves the window one row down, from row `y`.
    pub(crate) fn advance(
        &mut self,
        src: &[F],
        dst: &[F],
        width: u32,
        height: u32,
        col_base: u32,
        Ghost(y_start): Ghost<int>,
        y: u32,
    )
        requires
            old(self).stands_at(
                pair_of(src@, dst@, width, height),
                col_base as int,
                y_start,
                y as int,
            ),
            pair_of(src@, dst@, width, height).valid(),
            col_base < width,
            0 <= y_start <= y < height,
        ensures
            final(self).stands_at(
                pair_of(src@, dst@, width, height),
                col_base as int,
                y_start,
                y + 1,
            ),
    {
        let ghost pair = pair_of(src@, dst@, width, height);
        let ghost before = self.ring@;
        let ghost t0 = y - y_start;
        let y_in: u32 = mirror_ahead(y, height);
        self.load_tile(src, dst, width, height, y_in, col_base);
        let slot: u32 = self.slot;
        let mut tx: u32 = 0;
        while tx < TX
            invariant
                tx <= TX,
                slot < DIAM,
                slot == self.slot,
                t0 == y - y_start,
                slot == t0 % (DIAM as int),
                0 <= y_start <= y,
                pair == pair_of(src@, dst@, width, height),
                y_in == reflect(y + R + 1, pair.height),
                self.sized(),
                self.tile_is(pair, y_in as int, col_base as int),
                before.len() == self.ring@.len(),
                forall|q: int, t: int|
                    0 <= q < DIAM && 0 <= t < TX ==> #[trigger] before[ring_at(t0 + q, t)]
                        == pair.row_moments(y - R + q, col_base + t),
                forall|t: int|
                    0 <= t < tx ==> #[trigger] self.sums@[t] == pair.window_sum(
                        y_start,
                        y + 1,
                        col_base + t,
                    ),
                forall|t: int|
                    tx <= t < TX ==> #[trigger] self.sums@[t] == pair.window_sum(
                        y_start,
                        y as int,
                        col_base + t,
                    ),
                forall|i: int|
                    0 <= i < self.ring@.len() ==> #[trigger] self.ring@[i] == (if slot * TX <= i
                        < slot * TX + tx {
                        pair.row_moments(y + R + 1, col_base + i - slot * TX)
                    } else {
                        before[i]
                    }),
            decreases TX - tx,
        {
            let at: usize = (slot * TX + tx) as usize;
            let old_m = self.ring[at];
            assert(old_m == pair.row_moments(y - R, col_base + tx)) by {
                assert(before[ring_at(t0 + 0, tx as int)] == pair.row_moments(
                    y - R + 0,
                    col_base + tx,
                ));
            }
            let new_m = self.blur_tile(Ghost(pair), Ghost(y_in as int), Ghost(col_base as int), tx);
            assert(new_m == pair.row_moments(y + R + 1, col_base + tx));
            let sum = self.sums[tx as usize].plus(new_m).minus(old_m);
            self.sums.set(tx as usize, sum);
            self.ring.set(at, new_m);
            tx += 1;
        }
        self.slot = (slot + 1) % DIAM;
        proof {
            let d = DIAM as int;
            assert((t0 + 1) % d == (slot + 1) % d);
            assert forall|q: int, t: int|
                0 <= q < DIAM && 0 <= t < TX implies #[trigger] self.ring@[ring_at(
                y + 1 - y_start + q,
                t,
            )] == pair.row_moments(y + 1 - R + q, col_base + t) by {
                let i = ring_at(t0 + 1 + q, t);
                lemma_mod_bound(t0 + 1 + q, d);
                if q == DIAM - 1 {
                    assert((t0 + 1 + q) % d == slot);
                    assert(i == slot * TX + t);
                } else {
                    assert((t0 + 1 + q) % d != slot);
                    assert(i < slot * TX || slot * TX + TX <= i);
                    assert(before[ring_at(t0 + (q + 1), t)] == pair.row_moments(
                        y - R + (q + 1),
                        col_base + t,
                    ));
                }
            }
        }
    }
}

/// The planes of one channel, as a kernel takes them.
pub open spec fn pair_of<F>(src: Seq<F>, dst: Seq<F>, width: u32, height: u32) -> PlanePair<F> {
    PlanePair { src, dst, width: width as int, height: height as int }
}

/// The place in the ring of the row that came in as number `row`, for unit `tx`.
pub open spec fn ring_at(row: int, tx: int) -> int {
    (row % (DIAM as int)) * TX + tx
}

} // verus!
