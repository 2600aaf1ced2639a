//! The kernels that go through their arrays linearly, one unit to a sample: filling
//! with zeros, and relaying staged planes on the device.
use vstd::arithmetic::div_mod::{lemma_fundamental_div_mod_converse, lemma_mod_bound};
use vstd::prelude::*;

use crate::geometry::{blocks_for, law_blocks_cover_items, line_units, CHANNELS, LINE_UNITS, RELAY_TX};
use crate::scalar::{zero, Scalar};
use crate::ssim::Planes;

verus! {

/// `before` with `after` in the place of every sample that is one of the first `n`
/// and that one of `units` units takes.
pub open spec fn line_written<T>(before: Seq<T>, after: Seq<T>, n: int, units: int) -> Seq<T> {
    Seq::new(
        before.len(),
        |i: int|
            if i < n && i < units {
                after[i]
            } else {
                before[i]
            },
    )
}

/// `before` with `after` in the place of the first `units` samples of each of the
/// first `channels` channels.
pub open spec fn channels_written<T>(
    before: Seq<T>,
    after: Seq<T>,
    pad_total: int,
    channels: int,
    units: int,
) -> Seq<T> {
    Seq::new(
        before.len(),
        |i: int|
            if i < channels * pad_total && i % pad_total < units {
                after[i]
            } else {
                before[i]
            },
    )
}

/// The kernel that fills the first `n` samples with zeros, on `blocks` blocks of
/// [`LINE_UNITS`] units.
pub fn diffmap_zero_kernel<F: Scalar>(blocks: u32, dest: &mut Vec<F>, n: u32)
    requires
        n <= old(dest)@.len(),
    ensures
        final(dest)@ == line_written(
            old(dest)@,
            Seq::new(n as nat, |i: int| zero::<F>()),
            n as int,
            blocks * LINE_UNITS,
        ),
{
    let units: u64 = line_units(blocks);
    let mut pos: u64 = 0;
    while pos < units
        invariant
            pos <= units,
            units == blocks * LINE_UNITS,
            n <= dest@.len(),
            dest@ == line_written(
                old(dest)@,
                Seq::new(n as nat, |i: int| zero::<F>()),
                n as int,
                pos as int,
            ),
        decreases units - pos,
    {
        if pos < n as u64 {
            dest.set(pos as usize, F::ratio(0, 1));
        }
        pos += 1;
    }
}

/// The kernel that copies the first `n` moments of staged planes, channels and all,
/// on `blocks` blocks of [`LINE_UNITS`] units.
pub fn relay_planes_1d_kernel<F: Scalar>(
    blocks: u32,
    staged: &Planes<F>,
    planes: &mut Planes<F>,
    n: u32,
)
    requires
        staged.wf(),
        old(planes).wf(),
        n <= staged@.len(),
        n <= old(planes)@.len(),
    ensures
        final(planes).wf(),
        final(planes)@ == line_written(old(planes)@, staged@, n as int, blocks * LINE_UNITS),
{
    let units: u64 = line_units(blocks);
    let mut pos: u64 = 0;
    while pos < units
        invariant
            pos <= units,
            units == blocks * LINE_UNITS,
            staged.wf(),
            planes.wf(),
            n <= staged@.len(),
            n <= planes@.len(),
            planes@ == line_written(old(planes)@, staged@, n as int, pos as int),
        decreases units - pos,
    {
        if pos < n as u64 {
            let idx: usize = pos as usize;
            let m = staged.get(idx);
            planes.put(idx, m);
        }
        pos += 1;
    }
}

/// The kernel that copies staged planes of `pad_total` samples a channel, each channel
/// by a layer of `blocks` blocks of [`RELAY_TX`] units.
pub fn relay_planes_3d_kernel<F: Scalar>(
    blocks: u32,
    channels: u32,
    staged: &Planes<F>,
    planes: &mut Planes<F>,
    pad_total: u32,
)
    requires
        staged.wf(),
        old(planes).wf(),
        blocks * RELAY_TX <= u32::MAX,
        channels * pad_total <= staged@.len(),
        channels * pad_total <= old(planes)@.len(),
    ensures
        final(planes).wf(),
        final(planes)@ == channels_written(
            old(planes)@,
            staged@,
            pad_total as int,
            channels as int,
            blocks * RELAY_TX,
        ),
{
    let ghost pt = pad_total as int;
    let units: u32 = blocks * RELAY_TX;
    let mut channel: u32 = 0;
    assert(planes@ =~= channels_written(old(planes)@, staged@, pt, 0, units as int));
    while channel < channels
        invariant
            channel <= channels,
            pt == pad_total,
            units == blocks * RELAY_TX,
            staged.wf(),
            planes.wf(),
            channels * pad_total <= staged@.len(),
            channels * pad_total <= planes@.len(),
            planes@.len() == old(planes)@.len(),
            planes@ == channels_written(
                old(planes)@,
                staged@,
                pt,
                channel as int,
                units as int,
            ),
        decreases channels - channel,
    {
        let ghost before = planes@;
        let mut pixel: u32 = 0;
        while pixel < units && pixel < pad_total
            invariant
                channel < channels,
                pixel <= units,
                pixel <= pad_total,
                pt == pad_total,
                staged.wf(),
                planes.wf(),
                channels * pad_total <= staged@.len(),
                channels * pad_total <= planes@.len(),
                planes@.len() == before.len(),
                forall|i: int|
                    0 <= i < planes@.len() ==> #[trigger] planes@[i] == (if channel * pt <= i
                        < channel * pt + pixel {
                        staged@[i]
                    } else {
                        before[i]
                    }),
            decreases pad_total - pixel,
        {
            proof {
                assert(0 <= channel * pt && channel * pt + pixel < channels * pad_total)
                    by (nonlinear_arith)
                    requires
                        0 <= channel,
                        channel + 1 <= channels,
                        pixel < pt,
                        pt == pad_total,
                ;
                assert(planes.mu1.len() == planes@.len());
            }
            let off: usize = (channel as usize) * (pad_total as usize) + pixel as usize;
            let m = staged.get(off);
            planes.put(off, m);
            pixel += 1;
        }
        proof {
            let c = channel as int;
            assert(c * pt + pt == (c + 1) * pt) by (nonlinear_arith);
            assert forall|i: int| 0 <= i < planes@.len() implies #[trigger] planes@[i]
                == channels_written(old(planes)@, staged@, pt, c + 1, units as int)[i] by {
                assert(before[i] == before[i]);
                if c * pt <= i < c * pt + pt {
                    lemma_fundamental_div_mod_converse(i, pt, c, i - c * pt);
                }
            }
            assert(planes@ =~= channels_written(old(planes)@, staged@, pt, c + 1, units as int));
        }
        channel += 1;
    }
}

/// On a grid that is made for it, either relay hands on the staged planes, whatever
/// the planes held before.
pub proof fn law_relays_hand_on_staged_planes<T>(before: Seq<T>, staged: Seq<T>, pad_total: int)
    requires
        0 < pad_total,
        before.len() == CHANNELS * pad_total,
        staged.len() == CHANNELS * pad_total,
    ensures
        line_written(
            before,
            staged,
            CHANNELS * pad_total,
            blocks_for(CHANNELS * pad_total, LINE_UNITS as int) * LINE_UNITS,
        ) == staged,
        channels_written(
            before,
            staged,
            pad_total,
            CHANNELS as int,
            blocks_for(pad_total, RELAY_TX as int) * RELAY_TX,
        ) == staged,
{
    law_blocks_cover_items(CHANNELS * pad_total, LINE_UNITS as int);
    law_blocks_cover_items(pad_total, RELAY_TX as int);
    assert(line_written(
        before,
        staged,
        CHANNELS * pad_total,
        blocks_for(CHANNELS * pad_total, LINE_UNITS as int) * LINE_UNITS,
    ) =~= staged);
    let units = blocks_for(pad_total, RELAY_TX as int) * RELAY_TX;
    assert forall|i: int| 0 <= i < staged.len() implies #[trigger] channels_written(
        before,
        staged,
        pad_total,
        CHANNELS as int,
        units,
    )[i] == staged[i] by {
        lemma_mod_bound(i, pad_total);
    }
    assert(channels_written(
        before,
        staged,
        pad_total,
        CHANNELS as int,
        blocks_for(pad_total, RELAY_TX as int) * RELAY_TX,
    ) =~= staged);
}

/// A linear kernel writes the first `n` samples that it has units for, each in its own place,
/// and leaves the rest alone.
pub proof fn law_line_writes_first_samples<T>(
    before: Seq<T>,
    after: Seq<T>,
    n: int,
    units: int,
    i: int,
)
    requires
        0 <= i < before.len(),
    ensures
        line_written(before, after, n, units).len() == before.len(),
        i < n && i < units ==> line_written(before, after, n, units)[i] == after[i],
        i >= n || i >= units ==> line_written(before, after, n, units)[i] == before[i],
{
}

/// A kernel with a layer of blocks per channel writes the samples of the first `channels`
/// channels that a layer has units for, each in its own place, and leaves the rest alone.
pub proof fn law_layers_write_channels<T>(
    before: Seq<T>,
    after: Seq<T>,
    pad_total: int,
    channels: int,
    units: int,
    channel: int,
    i: int,
)
    requires
        0 <= channel,
        0 <= i < pad_total,
        channel * pad_total + i < before.len(),
    ensures
        channels_written(before, after, pad_total, channels, units).len() == before.len(),
        channel < channels && i < units ==> channels_written(
            before,
            after,
            pad_total,
            channels,
            units,
        )[channel * pad_total + i] == after[channel * pad_total + i],
        channel >= channels || i >= units ==> channels_written(
            before,
            after,
            pad_total,
            channels,
            units,
        )[channel * pad_total + i] == before[channel * pad_total + i],
{
    let at = channel * pad_total + i;
    lemma_fundamental_div_mod_converse(at, pad_total, channel, i);
    assert(0 <= at && (at < channels * pad_total <==> channel < channels)) by (nonlinear_arith)
        requires
            0 <= channel,
            0 <= i < pad_total,
            at == channel * pad_total + i,
    ;
}

} // verus!
