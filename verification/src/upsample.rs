//! Adding a coarse map to a fine one: each coarse sample stands for a square of
//! fine pixels, a power of two wide.
use vstd::arithmetic::div_mod::{
    lemma_div_pos_is_pos, lemma_fundamental_div_mod, lemma_fundamental_div_mod_converse,
    lemma_mod_bound, lemma_multiply_divide_lt,
};
use vstd::arithmetic::power2::{lemma_pow2_pos, pow2};
use vstd::bits::lemma_usize_shr_is_div;
use vstd::prelude::*;

use crate::geometry::{ceil_div, lemma_ceil_div_parts, line_units, LINE_UNITS};
use crate::scalar::Scalar;

verus! {

/// The lesser of two numbers.
pub open spec fn lesser(a: int, b: int) -> int {
    if a < b {
        a
    } else {
        b
    }
}

/// The last of `n` columns or rows, the first where there is none.
pub open spec fn last_of(n: int) -> int {
    if n == 0 {
        0
    } else {
        n - 1
    }
}

/// The coarse offset that fine pixel `idx` takes its value from, both column and row held
/// to the coarse size.
pub open spec fn coarse_source(
    idx: int,
    src_w: int,
    src_h: int,
    dst_w: int,
    log2_factor: nat,
) -> int {
    let f = pow2(log2_factor) as int;
    lesser((idx / dst_w) / f, last_of(src_h)) * src_w + lesser((idx % dst_w) / f, last_of(src_w))
}

/// The rows of a map of `len` samples, `width` wide.
pub open spec fn rows_of(len: int, width: int) -> int {
    if width == 0 {
        0
    } else {
        ceil_div(len, width)
    }
}

/// Every fine pixel takes its value from one of `len` coarse samples.
pub open spec fn sources_lie_in(
    len: int,
    src_w: int,
    dst_w: int,
    dst_h: int,
    log2_factor: nat,
) -> bool {
    forall|idx: int|
        0 <= idx < dst_w * dst_h ==> 0 <= #[trigger] coarse_source(
            idx,
            src_w,
            rows_of(len, src_w),
            dst_w,
            log2_factor,
        ) < len
}

/// The fine map `dst` with the coarse map `src` added to its first `n` pixels, as the
/// reference adds it.
pub open spec fn reference_upsampled<F: Scalar>(
    src: Seq<F>,
    src_w: int,
    dst: Seq<F>,
    dst_w: int,
    dst_h: int,
    log2_factor: nat,
    blend: F,
) -> Seq<F> {
    Seq::new(
        dst.len(),
        |idx: int|
            if idx < dst_w * dst_h {
                dst[idx].spec_plus(
                    blend.spec_times(
                        src[coarse_source(
                            idx,
                            src_w,
                            rows_of(src.len() as int, src_w),
                            dst_w,
                            log2_factor,
                        )],
                    ),
                )
            } else {
                dst[idx]
            },
    )
}

/// The fine map `dst` with the coarse map `src` added to its pixels by `units` units.
pub open spec fn device_upsampled<F: Scalar>(
    src: Seq<F>,
    src_w: int,
    src_h: int,
    dst: Seq<F>,
    dst_w: int,
    dst_h: int,
    log2_factor: nat,
    blend: F,
    units: int,
) -> Seq<F> {
    Seq::new(
        dst.len(),
        |idx: int|
            if idx < dst_w * dst_h && idx < units {
                dst[idx].spec_plus(
                    blend.spec_times(src[coarse_source(idx, src_w, src_h, dst_w, log2_factor)]),
                )
            } else {
                dst[idx]
            },
    )
}

/// Adds `blend` times the coarse map `src` to the fine map `dst`, on the host. Where the
/// fine map is wider or higher than the coarse one stands for, the last column or row does.
pub fn cpu_upsample_add<F: Scalar>(
    src: &[F],
    src_w: usize,
    dst: &mut Vec<F>,
    dst_w: usize,
    dst_h: usize,
    log2_factor: u32,
    blend: F,
)
    requires
        log2_factor < usize::BITS,
        dst_w * dst_h <= old(dst)@.len(),
        (0 < src_w && 0 < src@.len() && src@.len() as int % src_w as int == 0) || sources_lie_in(
            src@.len() as int,
            src_w as int,
            dst_w as int,
            dst_h as int,
            log2_factor as nat,
        ),
    ensures
        final(dst)@ == reference_upsampled(
            src@,
            src_w as int,
            old(dst)@,
            dst_w as int,
            dst_h as int,
            log2_factor as nat,
            blend,
        ),
{
    assert(dst.len() == dst@.len());
    assert(src.len() == src@.len());
    let ghost rows = rows_of(src@.len() as int, src_w as int);
    proof {
        if 0 < src_w && 0 < src@.len() && src@.len() as int % src_w as int == 0 {
            law_whole_map_holds_sources(
                src@.len() as int,
                src_w as int,
                dst_w as int,
                dst_h as int,
                log2_factor as nat,
            );
        }
        if 0 < src_w {
            let (n, w) = (src@.len() as int, src_w as int);
            lemma_ceil_div_parts(n, w);
            lemma_fundamental_div_mod(n, w);
            lemma_div_pos_is_pos(n, w);
            assert(0 < n && n % w == 0 ==> n / w != 0) by (nonlinear_arith)
                requires
                    n == w * (n / w) + n % w,
            ;
        }
    }
    let last_col: usize = if src_w > 0 {
        src_w - 1
    } else {
        0
    };
    let last_row: usize = if src_w > 0 && src.len() > 0 {
        src.len() / src_w - (if src.len() % src_w == 0 {
            1
        } else {
            0
        })
    } else {
        0
    };
    let total: usize = dst_w * dst_h;
    let shift: usize = log2_factor as usize;
    let mut idx: usize = 0;
    while idx < total
        invariant
            idx <= total,
            total == dst_w * dst_h,
            shift == log2_factor,
            shift < usize::BITS,
            total <= dst@.len(),
            rows == rows_of(src@.len() as int, src_w as int),
            last_col == last_of(src_w as int),
            last_row == last_of(rows),
            sources_lie_in(
                src@.len() as int,
                src_w as int,
                dst_w as int,
                dst_h as int,
                log2_factor as nat,
            ),
            dst@.len() == old(dst)@.len(),
            forall|k: int|
                0 <= k < dst@.len() ==> #[trigger] dst@[k] == (if k < idx {
                    old(dst)@[k].spec_plus(
                        blend.spec_times(
                            src@[coarse_source(
                                k,
                                src_w as int,
                                rows,
                                dst_w as int,
                                log2_factor as nat,
                            )],
                        ),
                    )
                } else {
                    old(dst)@[k]
                }),
        decreases total - idx,
    {
        assert(dst_w > 0) by (nonlinear_arith)
            requires
                0 < dst_w * dst_h,
        ;
        let dx: usize = idx % dst_w;
        let dy: usize = idx / dst_w;
        let sx: usize = dx >> shift;
        let sy: usize = dy >> shift;
        let sx: usize = if sx < last_col {
            sx
        } else {
            last_col
        };
        let sy: usize = if sy < last_row {
            sy
        } else {
            last_row
        };
        proof {
            lemma_usize_shr_is_div(dx, shift);
            lemma_usize_shr_is_div(dy, shift);
            let at = coarse_source(
                idx as int,
                src_w as int,
                rows,
                dst_w as int,
                log2_factor as nat,
            );
            assert(at == sy * src_w + sx);
            assert(0 <= at < src@.len());
            assert(0 <= sy * src_w) by (nonlinear_arith)
                requires
                    0 <= sy,
                    0 <= src_w,
            ;
            assert(src.len() == src@.len());
        }
        let v = src[sy * src_w + sx];
        let sum = dst[idx].plus(blend.times(v));
        dst.set(idx, sum);
        idx += 1;
    }
}

/// The kernel that adds `blend_weight` times the coarse map `src` to the fine map
/// `dst`, on `blocks` blocks of [`LINE_UNITS`] units.
pub fn pow2x_upsample_add_kernel<F: Scalar>(
    blocks: u32,
    src: &[F],
    dst: &mut Vec<F>,
    src_w: u32,
    src_h: u32,
    dst_w: u32,
    dst_h: u32,
    log2_factor: u32,
    blend_weight: F,
)
    requires
        log2_factor < usize::BITS,
        1 <= src_w,
        1 <= src_h,
        src_w * src_h <= src@.len(),
        dst_w * dst_h <= u32::MAX,
        dst_w * dst_h <= old(dst)@.len(),
    ensures
        final(dst)@ == device_upsampled(
            src@,
            src_w as int,
            src_h as int,
            old(dst)@,
            dst_w as int,
            dst_h as int,
            log2_factor as nat,
            blend_weight,
            blocks * LINE_UNITS,
        ),
{
    let units: u64 = line_units(blocks);
    let total: u64 = (dst_w * dst_h) as u64;
    let shift: usize = log2_factor as usize;
    let dw: usize = dst_w as usize;
    let sw: usize = src_w as usize;
    let last_sx: usize = src_w as usize - 1;
    let last_sy: usize = src_h as usize - 1;
    let mut pos: u64 = 0;
    while pos < units
        invariant
            pos <= units,
            units == blocks * LINE_UNITS,
            total == dst_w * dst_h,
            shift == log2_factor,
            shift < usize::BITS,
            dw == dst_w,
            sw == src_w,
            1 <= src_w,
            1 <= src_h,
            last_sx == src_w - 1,
            last_sy == src_h - 1,
            src_w * src_h <= src@.len(),
            total <= u32::MAX,
            total <= dst@.len(),
            dst@.len() == old(dst)@.len(),
            forall|k: int|
                0 <= k < dst@.len() ==> #[trigger] dst@[k] == (if k < total && k < pos {
                    old(dst)@[k].spec_plus(
                        blend_weight.spec_times(
                            src@[coarse_source(
                                k,
                                src_w as int,
                                src_h as int,
                                dst_w as int,
                                log2_factor as nat,
                            )],
                        ),
                    )
                } else {
                    old(dst)@[k]
                }),
        decreases units - pos,
    {
        if pos < total {
            assert(dst_w > 0) by (nonlinear_arith)
                requires
                    0 < dst_w * dst_h,
            ;
            let idx: usize = pos as usize;
            let dx: usize = idx % dw;
            let dy: usize = idx / dw;
            let sx: usize = dx >> shift;
            let sy: usize = dy >> shift;
            let sx_c: usize = if sx < last_sx {
                sx
            } else {
                last_sx
            };
            let sy_c: usize = if sy < last_sy {
                sy
            } else {
                last_sy
            };
            proof {
                lemma_usize_shr_is_div(dx, shift);
                lemma_usize_shr_is_div(dy, shift);
                assert(0 <= sy_c * src_w && sy_c * src_w + sx_c < src_w * src_h)
                    by (nonlinear_arith)
                    requires
                        0 <= sy_c < src_h,
                        0 <= sx_c < src_w,
                ;
                assert(src.len() == src@.len());
            }
            let v = src[sy_c * sw + sx_c];
            let sum = dst[idx].plus(blend_weight.times(v));
            dst.set(idx, sum);
        }
        pos += 1;
    }
}

/// The rows of a whole map.
pub proof fn lemma_rows_of_whole(width: int, height: int)
    requires
        0 < width,
        0 <= height,
    ensures
        rows_of(width * height, width) == height,
{
    let len = width * height;
    assert(0 <= len) by (nonlinear_arith)
        requires
            0 < width,
            0 <= height,
            len == width * height,
    ;
    assert(width * height == height * width) by (nonlinear_arith);
    lemma_ceil_div_parts(len, width);
    lemma_fundamental_div_mod_converse(len, width, height, 0);
}

/// Every fine pixel takes its value from the coarse map, whatever the sizes of the two.
pub proof fn law_source_lies_in_map(
    idx: int,
    src_w: int,
    src_h: int,
    dst_w: int,
    log2_factor: nat,
)
    requires
        0 < src_w,
        0 < src_h,
        0 < dst_w,
        0 <= idx,
    ensures
        0 <= coarse_source(idx, src_w, src_h, dst_w, log2_factor) < src_w * src_h,
{
    let f = pow2(log2_factor) as int;
    lemma_pow2_pos(log2_factor);
    lemma_mod_bound(idx, dst_w);
    lemma_div_pos_is_pos(idx, dst_w);
    lemma_div_pos_is_pos(idx / dst_w, f);
    lemma_div_pos_is_pos(idx % dst_w, f);
    let (r, c) = (lesser((idx / dst_w) / f, src_h - 1), lesser((idx % dst_w) / f, src_w - 1));
    assert(0 <= r * src_w + c < src_w * src_h) by (nonlinear_arith)
        requires
            0 <= r < src_h,
            0 <= c < src_w,
    ;
}

/// A coarse map of whole rows holds the sources of every fine pixel.
pub proof fn law_whole_map_holds_sources(
    len: int,
    src_w: int,
    dst_w: int,
    dst_h: int,
    log2_factor: nat,
)
    requires
        0 < src_w,
        0 < len,
        len % src_w == 0,
        0 <= dst_w,
        0 <= dst_h,
    ensures
        sources_lie_in(len, src_w, dst_w, dst_h, log2_factor),
{
    let h = len / src_w;
    lemma_fundamental_div_mod(len, src_w);
    assert(0 < h) by (nonlinear_arith)
        requires
            len == src_w * h,
            0 < len,
            0 < src_w,
    ;
    lemma_rows_of_whole(src_w, h);
    assert forall|idx: int| 0 <= idx < dst_w * dst_h implies 0 <= #[trigger] coarse_source(
        idx,
        src_w,
        rows_of(len, src_w),
        dst_w,
        log2_factor,
    ) < len by {
        assert(0 < dst_w) by (nonlinear_arith)
            requires
                0 <= dst_w,
                0 < dst_w * dst_h,
        ;
        law_source_lies_in_map(idx, src_w, h, dst_w, log2_factor);
    }
}

/// Where the coarse map has a row for every fine row that it stands for, as each level of a
/// pyramid has for the first, no fine pixel needs its row held to the coarse height.
pub proof fn law_level_has_every_row(
    idx: int,
    src_h: int,
    dst_w: int,
    dst_h: int,
    log2_factor: nat,
)
    requires
        0 < dst_w,
        0 <= idx < dst_w * dst_h,
        src_h == ceil_div(dst_h, pow2(log2_factor) as int),
    ensures
        0 <= (idx / dst_w) / (pow2(log2_factor) as int) < src_h,
{
    let f = pow2(log2_factor) as int;
    lemma_pow2_pos(log2_factor);
    let (dx, dy) = (idx % dst_w, idx / dst_w);
    lemma_fundamental_div_mod(idx, dst_w);
    lemma_mod_bound(idx, dst_w);
    assert(0 <= dy < dst_h) by (nonlinear_arith)
        requires
            idx == dst_w * dy + dx,
            0 <= dx < dst_w,
            0 <= idx < dst_w * dst_h,
    ;
    lemma_div_pos_is_pos(dy, f);
    // dy < dst_h <= src_h * f.
    lemma_ceil_div_parts(dst_h, f);
    assert(src_h * f == f * src_h) by (nonlinear_arith);
    lemma_multiply_divide_lt(dy, f, src_h);
}

/// A device that is told the size of a whole coarse map adds it as the reference does.
pub proof fn law_device_adds_as_reference<F: Scalar>(
    src: Seq<F>,
    src_w: int,
    src_h: int,
    dst: Seq<F>,
    dst_w: int,
    dst_h: int,
    log2_factor: nat,
    blend: F,
    units: int,
)
    requires
        0 < src_w,
        0 <= src_h,
        src.len() == src_w * src_h,
        dst_w * dst_h <= units,
    ensures
        device_upsampled(src, src_w, src_h, dst, dst_w, dst_h, log2_factor, blend, units)
            == reference_upsampled(src, src_w, dst, dst_w, dst_h, log2_factor, blend),
{
    lemma_rows_of_whole(src_w, src_h);
    assert(device_upsampled(src, src_w, src_h, dst, dst_w, dst_h, log2_factor, blend, units)
        =~= reference_upsampled(src, src_w, dst, dst_w, dst_h, log2_factor, blend));
}

/// A fine coordinate lies in the stretch of the coarse one that it is divided down to.
proof fn lemma_stretch(d: int, s: int, log2_factor: nat)
    requires
        0 <= d,
    ensures
        s * pow2(log2_factor) <= d < (s + 1) * pow2(log2_factor) <==> d / (pow2(log2_factor) as int)
            == s,
{
    let f = pow2(log2_factor) as int;
    lemma_pow2_pos(log2_factor);
    lemma_fundamental_div_mod(d, f);
    lemma_mod_bound(d, f);
    let (q, r) = (d / f, d % f);
    assert(q * f == f * q) by (nonlinear_arith);
    assert((q + 1) * f == q * f + f) by (nonlinear_arith);
    if s * f <= d < (s + 1) * f {
        assert((s + 1) * f == s * f + f) by (nonlinear_arith);
        lemma_fundamental_div_mod_converse(d, f, s, d - s * f);
    }
}

/// Each coarse sample stands for exactly its square of fine pixels, as wide and as high as two
/// to the power of `log2_factor`: the fine pixels of that square, and no others within the
/// squares of the coarse map, take their value from it.
pub proof fn law_coarse_sample_stands_for_its_square(
    dx: int,
    dy: int,
    src_w: int,
    src_h: int,
    dst_w: int,
    log2_factor: nat,
)
    requires
        0 <= dx < dst_w,
        0 <= dy,
        dx < src_w * pow2(log2_factor),
        dy < src_h * pow2(log2_factor),
    ensures
        forall|sx: int, sy: int|
            0 <= sx < src_w && 0 <= sy < src_h ==> (coarse_source(
                dy * dst_w + dx,
                src_w,
                src_h,
                dst_w,
                log2_factor,
            ) == #[trigger] (sy * src_w + sx) <==> sx * pow2(log2_factor) <= dx < (sx + 1) * pow2(
                log2_factor,
            ) && sy * pow2(log2_factor) <= dy < (sy + 1) * pow2(log2_factor)),
        ({
            let at = coarse_source(dy * dst_w + dx, src_w, src_h, dst_w, log2_factor);
            let (sx, sy) = (at % src_w, at / src_w);
            &&& 0 <= sx < src_w && 0 <= sy < src_h
            &&& sx * pow2(log2_factor) <= dx < (sx + 1) * pow2(log2_factor)
            &&& sy * pow2(log2_factor) <= dy < (sy + 1) * pow2(log2_factor)
        }),
{
    let f = pow2(log2_factor) as int;
    let idx = dy * dst_w + dx;
    lemma_pow2_pos(log2_factor);
    lemma_fundamental_div_mod_converse(idx, dst_w, dy, dx);
    let (qx, qy) = (dx / f, dy / f);
    lemma_stretch(dx, qx, log2_factor);
    lemma_stretch(dy, qy, log2_factor);
    lemma_div_pos_is_pos(dx, f);
    lemma_div_pos_is_pos(dy, f);
    assert(qx < src_w) by (nonlinear_arith)
        requires
            qx * f <= dx,
            dx < src_w * f,
            0 < f,
    ;
    assert(qy < src_h) by (nonlinear_arith)
        requires
            qy * f <= dy,
            dy < src_h * f,
            0 < f,
    ;
    let at = coarse_source(idx, src_w, src_h, dst_w, log2_factor);
    assert(at == qy * src_w + qx);
    lemma_fundamental_div_mod_converse(at, src_w, qy, qx);
    assert forall|sx: int, sy: int| 0 <= sx < src_w && 0 <= sy < src_h implies (at
        == #[trigger] (sy * src_w + sx) <==> sx * f <= dx < (sx + 1) * f && sy * f <= dy < (sy + 1)
        * f) by {
        lemma_stretch(dx, sx, log2_factor);
        lemma_stretch(dy, sy, log2_factor);
        if at == sy * src_w + sx {
            lemma_fundamental_div_mod_converse(at, src_w, sy, sx);
        }
    }
}

/// A fine pixel to the right of the squares of the coarse map takes its value from the last
/// column, and one below them from the last row; the other coordinate is as ever.
pub proof fn law_pixel_past_squares_takes_last(
    dx: int,
    dy: int,
    src_w: int,
    src_h: int,
    dst_w: int,
    log2_factor: nat,
)
    requires
        0 <= dx < dst_w,
        0 <= dy,
        0 < src_w,
        0 < src_h,
    ensures
        ({
            let at = coarse_source(dy * dst_w + dx, src_w, src_h, dst_w, log2_factor);
            let (sx, sy) = (at % src_w, at / src_w);
            &&& 0 <= sx < src_w && 0 <= sy < src_h
            &&& dx >= src_w * pow2(log2_factor) ==> sx == src_w - 1
            &&& dy >= src_h * pow2(log2_factor) ==> sy == src_h - 1
            &&& dx < src_w * pow2(log2_factor) ==> sx * pow2(log2_factor) <= dx < (sx + 1) * pow2(
                log2_factor,
            )
            &&& dy < src_h * pow2(log2_factor) ==> sy * pow2(log2_factor) <= dy < (sy + 1) * pow2(
                log2_factor,
            )
        }),
{
    let f = pow2(log2_factor) as int;
    let idx = dy * dst_w + dx;
    lemma_pow2_pos(log2_factor);
    lemma_fundamental_div_mod_converse(idx, dst_w, dy, dx);
    let (qx, qy) = (dx / f, dy / f);
    lemma_stretch(dx, qx, log2_factor);
    lemma_stretch(dy, qy, log2_factor);
    lemma_div_pos_is_pos(dx, f);
    lemma_div_pos_is_pos(dy, f);
    assert(dx < src_w * f <==> qx < src_w) by (nonlinear_arith)
        requires
            qx * f <= dx < (qx + 1) * f,
            0 < f,
    ;
    assert(dy < src_h * f <==> qy < src_h) by (nonlinear_arith)
        requires
            qy * f <= dy < (qy + 1) * f,
            0 < f,
    ;
    let at = coarse_source(idx, src_w, src_h, dst_w, log2_factor);
    let (sx, sy) = (lesser(qx, src_w - 1), lesser(qy, src_h - 1));
    assert(at == sy * src_w + sx);
    lemma_fundamental_div_mod_converse(at, src_w, sy, sx);
}

/// A fine pixel of the square of a coarse sample gains that sample times the blend, on the host
/// and, where there are units for all the pixels, on the device.
pub proof fn law_square_gains_its_sample<F: Scalar>(
    src: Seq<F>,
    src_w: int,
    src_h: int,
    dst: Seq<F>,
    dst_w: int,
    dst_h: int,
    log2_factor: nat,
    blend: F,
    units: int,
    dx: int,
    dy: int,
    sx: int,
    sy: int,
)
    requires
        src.len() == src_w * src_h,
        0 <= dst_w * dst_h <= dst.len(),
        dst_w * dst_h <= units,
        0 <= dx < dst_w,
        0 <= dy < dst_h,
        0 <= sx < src_w,
        0 <= sy < src_h,
        sx * pow2(log2_factor) <= dx < (sx + 1) * pow2(log2_factor),
        sy * pow2(log2_factor) <= dy < (sy + 1) * pow2(log2_factor),
    ensures
        reference_upsampled(src, src_w, dst, dst_w, dst_h, log2_factor, blend)[dy * dst_w + dx]
            == dst[dy * dst_w + dx].spec_plus(blend.spec_times(src[sy * src_w + sx])),
        device_upsampled(
            src,
            src_w,
            src_h,
            dst,
            dst_w,
            dst_h,
            log2_factor,
            blend,
            units,
        )[dy * dst_w + dx] == dst[dy * dst_w + dx].spec_plus(
            blend.spec_times(src[sy * src_w + sx]),
        ),
{
    let f = pow2(log2_factor) as int;
    lemma_pow2_pos(log2_factor);
    assert((sx + 1) * f <= src_w * f) by (nonlinear_arith)
        requires
            sx + 1 <= src_w,
            0 < f,
    ;
    assert((sy + 1) * f <= src_h * f) by (nonlinear_arith)
        requires
            sy + 1 <= src_h,
            0 < f,
    ;
    law_coarse_sample_stands_for_its_square(dx, dy, src_w, src_h, dst_w, log2_factor);
    lemma_rows_of_whole(src_w, src_h);
    assert(0 <= dy * dst_w + dx < dst_w * dst_h) by (nonlinear_arith)
        requires
            0 <= dx < dst_w,
            0 <= dy < dst_h,
    ;
    let at = sy * src_w + sx;
    assert(coarse_source(dy * dst_w + dx, src_w, src_h, dst_w, log2_factor) == at);
}

/// Adding a coarse map leaves alone what lies behind the pixels of the fine one.
pub proof fn law_nothing_behind_pixels_gains<F: Scalar>(
    src: Seq<F>,
    src_w: int,
    src_h: int,
    dst: Seq<F>,
    dst_w: int,
    dst_h: int,
    log2_factor: nat,
    blend: F,
    units: int,
    i: int,
)
    requires
        dst_w * dst_h <= i < dst.len(),
        0 <= i,
    ensures
        reference_upsampled(src, src_w, dst, dst_w, dst_h, log2_factor, blend).len() == dst.len(),
        reference_upsampled(src, src_w, dst, dst_w, dst_h, log2_factor, blend)[i] == dst[i],
        device_upsampled(
            src,
            src_w,
            src_h,
            dst,
            dst_w,
            dst_h,
            log2_factor,
            blend,
            units,
        ).len() == dst.len(),
        device_upsampled(
            src,
            src_w,
            src_h,
            dst,
            dst_w,
            dst_h,
            log2_factor,
            blend,
            units,
        )[i] == dst[i],
{
}

/// The rows of a map are just enough to hold its samples, the last of them maybe in part.
pub proof fn law_rows_hold_every_sample(len: int, width: int)
    requires
        0 < len,
        0 < width,
    ensures
        (rows_of(len, width) - 1) * width < len <= rows_of(len, width) * width,
{
    lemma_ceil_div_parts(len, width);
}

/// A pixel that the device has no unit for gains nothing, and one that it has a unit for gains
/// what it would with units for all.
pub proof fn law_units_add_to_their_pixels<F: Scalar>(
    src: Seq<F>,
    src_w: int,
    src_h: int,
    dst: Seq<F>,
    dst_w: int,
    dst_h: int,
    log2_factor: nat,
    blend: F,
    units: int,
    i: int,
)
    requires
        0 <= i < dst.len(),
    ensures
        ({
            let some = device_upsampled(
                src,
                src_w,
                src_h,
                dst,
                dst_w,
                dst_h,
                log2_factor,
                blend,
                units,
            );
            let all = device_upsampled(
                src,
                src_w,
                src_h,
                dst,
                dst_w,
                dst_h,
                log2_factor,
                blend,
                dst_w * dst_h,
            );
            &&& i < units ==> some[i] == all[i]
            &&& i >= units ==> some[i] == dst[i]
        }),
{
}

} // verus!
