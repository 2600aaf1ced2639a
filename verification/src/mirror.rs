//! Reflection at the borders of a plane, without repeating the border sample
//! (`.. 2 1 0 1 2 .. n-2 n-1 n-2 ..`): the pattern has period `2 * (dim - 1)`.
use vstd::arithmetic::div_mod::{
    lemma_fundamental_div_mod, lemma_fundamental_div_mod_converse, lemma_mod_add_multiples_vanish,
    lemma_mod_bound, lemma_small_mod,
};
use vstd::prelude::*;

use crate::geometry::R;

verus! {

/// The length of one period of the reflected pattern.
pub open spec fn period(dim: int) -> int {
    2 * (dim - 1)
}

/// The sample that position `i` of the infinite reflected pattern shows.
pub open spec fn reflect(i: int, dim: int) -> int {
    let r = i % period(dim);
    if r < dim {
        r
    } else {
        period(dim) - r
    }
}

/// Every position of the pattern shows a sample of the plane.
pub proof fn law_reflect_in_range(i: int, dim: int)
    requires
        dim >= 2,
    ensures
        0 <= reflect(i, dim) < dim,
{
    lemma_mod_bound(i, period(dim));
}

/// A position inside the plane shows itself.
pub proof fn law_reflect_inside(i: int, dim: int)
    requires
        dim >= 2,
        0 <= i < dim,
    ensures
        reflect(i, dim) == i,
{
    if i < period(dim) {
        lemma_small_mod(i as nat, period(dim) as nat);
    }
}

/// The pattern repeats after [`period`] positions.
pub proof fn law_reflect_periodic(i: int, dim: int)
    requires
        dim >= 2,
    ensures
        reflect(i + period(dim), dim) == reflect(i, dim),
{
    lemma_mod_add_multiples_vanish(i, period(dim));
}

/// The pattern is symmetric about the first sample.
pub proof fn law_reflect_about_first(i: int, dim: int)
    requires
        dim >= 2,
    ensures
        reflect(-i, dim) == reflect(i, dim),
{
    lemma_mod_of_negated(i, period(dim));
    lemma_mod_bound(i, period(dim));
}

/// The pattern is symmetric about the last sample.
pub proof fn law_reflect_about_last(i: int, dim: int)
    requires
        dim >= 2,
    ensures
        reflect(dim - 1 + i, dim) == reflect(dim - 1 - i, dim),
{
    let p = period(dim);
    law_reflect_about_first(dim - 1 - i, dim);
    law_reflect_periodic(-(dim - 1 - i), dim);
    assert(-(dim - 1 - i) + p == dim - 1 + i);
}

/// The remainder of a negated number.
proof fn lemma_mod_of_negated(i: int, p: int)
    requires
        p > 0,
    ensures
        (-i) % p == (if i % p == 0 {
            0
        } else {
            p - i % p
        }),
{
    let q = i / p;
    let m = i % p;
    lemma_fundamental_div_mod(i, p);
    lemma_mod_bound(i, p);
    if m == 0 {
        assert(-i == (-q) * p + 0) by (nonlinear_arith)
            requires
                i == p * q + m,
                m == 0,
        ;
        lemma_fundamental_div_mod_converse(-i, p, -q, 0);
    } else {
        assert(-i == (-q - 1) * p + (p - m)) by (nonlinear_arith)
            requires
                i == p * q + m,
        ;
        lemma_fundamental_div_mod_converse(-i, p, -q - 1, p - m);
    }
}

/// The sample index that position `idx` of the reflected pattern shows.
pub fn mirror_idx(idx: i64, dim: i64) -> (r: usize)
    requires
        2 <= dim <= usize::MAX,
        2 * (dim - 1) <= i64::MAX,
    ensures
        r == reflect(idx as int, dim as int),
        r < dim,
        -dim < idx < 0 ==> r == -idx,
        0 <= idx < dim ==> r == idx,
        dim <= idx <= 2 * (dim - 1) ==> r == 2 * (dim - 1) - idx,
{
    let period: i64 = 2 * (dim - 1);
    let mut r: i64 = idx % period;
    proof {
        law_reflect_about_first(idx as int, dim as int);
        law_reflect_about_last(idx - (dim - 1), dim as int);
        if -dim < idx < 0 {
            law_reflect_inside(-idx, dim as int);
        } else if 0 <= idx < dim {
            law_reflect_inside(idx as int, dim as int);
        } else if dim <= idx <= 2 * (dim - 1) {
            law_reflect_inside(2 * (dim - 1) - idx, dim as int);
        }
        lemma_mod_of_negated(-(idx as int), period as int);
        lemma_mod_bound(-(idx as int), period as int);
    }
    if r < 0 {
        r += period;
    }
    (if r < dim {
        r
    } else {
        period - r
    }) as usize
}

/// The sample index that the pattern shows `R` positions before `pos`, in the
/// unsigned arithmetic of a device.
pub fn mirror_behind(pos: u32, dim: u32) -> (r: u32)
    requires
        2 <= dim,
        pos + 2 * (dim - 1) <= u32::MAX,
        pos + 2 * (dim - 1) >= R,
    ensures
        r == reflect(pos - R, dim as int),
        r < dim,
{
    let period: u32 = 2 * (dim - 1);
    let raw: u32 = (pos + period - R) % period;
    proof {
        lemma_mod_add_multiples_vanish(pos - R, period as int);
        law_reflect_in_range(pos - R, dim as int);
    }
    if raw < dim {
        raw
    } else {
        period - raw
    }
}

/// The sample index that the pattern shows `R + 1` positions after `pos`, in the
/// unsigned arithmetic of a device.
pub fn mirror_ahead(pos: u32, dim: u32) -> (r: u32)
    requires
        2 <= dim,
        pos + R + 1 + 2 * (dim - 1) <= u32::MAX,
    ensures
        r == reflect(pos + R + 1, dim as int),
        r < dim,
{
    let period: u32 = 2 * (dim - 1);
    let raw: u32 = (pos + R + 1 + period) % period;
    proof {
        lemma_mod_add_multiples_vanish(pos + R + 1, period as int);
        law_reflect_in_range(pos + R + 1, dim as int);
    }
    if raw < dim {
        raw
    } else {
        period - raw
    }
}

} // verus!
