use diffmap::blur::{
    blur_f64_kernel, blur_planes_kernel, fused_features_kernel_persist, Channels, Layout, Offsets,
};
use diffmap::compare::{compare, error_key};
use diffmap::df64::df64_probe_kernel;
use diffmap::diffmap::{
    blend_weight, channel_weights, cpu_diffmap, cpu_feature_diffmap, device_diffmap,
    device_feature_diffmap, device_feature_planes, layout_of, Producer,
};
use diffmap::features::{mode_features, pixel_features, Body, FeatMode};
use diffmap::geometry::{cube_count, pyramid_plan, relay_grid, strip_rows, Grid, Level};
use diffmap::line::{diffmap_zero_kernel, relay_planes_1d_kernel, relay_planes_3d_kernel};
use diffmap::reference::cpu_feature_planes;
use diffmap::scalar::{Scalar, Wide};
use diffmap::ssim::{
    cpu_per_scale, per_pixel_ssim_error, per_scale_weighted_ssim_kernel, Planes,
};
use diffmap::steps::{chain_steps, feature_steps, Step};
use diffmap::synth::{image_plane, moment_plane, synth, synth_xyb};
use diffmap::upsample::{cpu_upsample_add, pow2x_upsample_add_kernel};
use diffmap::window::Moments;

#[derive(Clone, Copy, Debug, PartialEq)]
struct F32(f32);

#[derive(Clone, Copy, Debug, PartialEq)]
struct F64(f64);

impl Scalar for F32 {
    fn spec_ratio(num: u32, den: u32) -> Self {
        Self::ratio(num, den)
    }

    fn spec_plus(self, rhs: Self) -> Self {
        self.plus(rhs)
    }

    fn spec_minus(self, rhs: Self) -> Self {
        self.minus(rhs)
    }

    fn spec_times(self, rhs: Self) -> Self {
        self.times(rhs)
    }

    fn spec_over(self, rhs: Self) -> Self {
        self.over(rhs)
    }

    fn spec_fma(self, factor: Self, addend: Self) -> Self {
        self.fma(factor, addend)
    }

    fn spec_negated(self) -> Self {
        self.negated()
    }

    fn spec_magnitude(self) -> Self {
        self.magnitude()
    }

    fn spec_if_above(self, limit: Self, above: Self, otherwise: Self) -> Self {
        self.if_above(limit, above, otherwise)
    }

    fn ratio(num: u32, den: u32) -> Self {
        F32(num as f32 / den as f32)
    }

    fn plus(self, rhs: Self) -> Self {
        F32(self.0 + rhs.0)
    }

    fn minus(self, rhs: Self) -> Self {
        F32(self.0 - rhs.0)
    }

    fn times(self, rhs: Self) -> Self {
        F32(self.0 * rhs.0)
    }

    fn over(self, rhs: Self) -> Self {
        F32(self.0 / rhs.0)
    }

    fn fma(self, factor: Self, addend: Self) -> Self {
        F32(self.0.mul_add(factor.0, addend.0))
    }

    fn negated(self) -> Self {
        F32(-self.0)
    }

    fn magnitude(self) -> Self {
        F32(self.0.abs())
    }

    fn if_above(self, limit: Self, above: Self, otherwise: Self) -> Self {
        if self.0 > limit.0 {
            above
        } else {
            otherwise
        }
    }
}

impl Scalar for F64 {
    fn spec_ratio(num: u32, den: u32) -> Self {
        Self::ratio(num, den)
    }

    fn spec_plus(self, rhs: Self) -> Self {
        self.plus(rhs)
    }

    fn spec_minus(self, rhs: Self) -> Self {
        self.minus(rhs)
    }

    fn spec_times(self, rhs: Self) -> Self {
        self.times(rhs)
    }

    fn spec_over(self, rhs: Self) -> Self {
        self.over(rhs)
    }

    fn spec_fma(self, factor: Self, addend: Self) -> Self {
        self.fma(factor, addend)
    }

    fn spec_negated(self) -> Self {
        self.negated()
    }

    fn spec_magnitude(self) -> Self {
        self.magnitude()
    }

    fn spec_if_above(self, limit: Self, above: Self, otherwise: Self) -> Self {
        self.if_above(limit, above, otherwise)
    }

    fn ratio(num: u32, den: u32) -> Self {
        F64(num as f64 / den as f64)
    }

    fn plus(self, rhs: Self) -> Self {
        F64(self.0 + rhs.0)
    }

    fn minus(self, rhs: Self) -> Self {
        F64(self.0 - rhs.0)
    }

    fn times(self, rhs: Self) -> Self {
        F64(self.0 * rhs.0)
    }

    fn over(self, rhs: Self) -> Self {
        F64(self.0 / rhs.0)
    }

    fn fma(self, factor: Self, addend: Self) -> Self {
        F64(self.0.mul_add(factor.0, addend.0))
    }

    fn negated(self) -> Self {
        F64(-self.0)
    }

    fn magnitude(self) -> Self {
        F64(self.0.abs())
    }

    fn if_above(self, limit: Self, above: Self, otherwise: Self) -> Self {
        if self.0 > limit.0 {
            above
        } else {
            otherwise
        }
    }
}

impl Wide<F32> for F64 {
    fn spec_widen(x: F32) -> Self {
        Self::widen(x)
    }

    fn spec_narrow(self) -> F32 {
        self.narrow()
    }

    fn widen(x: F32) -> Self {
        F64(x.0 as f64)
    }

    fn narrow(self) -> F32 {
        F32(self.0 as f32)
    }
}

fn f32s(values: &[f32]) -> Vec<F32> {
    values.iter().map(|v| F32(*v)).collect()
}

fn planes_of(mu1: &[f32], mu2: &[f32], ssq: &[f32], s12: &[f32]) -> Planes<F32> {
    Planes { mu1: f32s(mu1), mu2: f32s(mu2), ssq: f32s(ssq), s12: f32s(s12) }
}

/// Planes whose moments at offset `i` are four times `i`, and one, two and three more.
fn counted(n: usize) -> Planes<F32> {
    let plane = |k: usize| (0..n).map(|i| F32((4 * i + k) as f32)).collect();
    Planes { mu1: plane(0), mu2: plane(1), ssq: plane(2), s12: plane(3) }
}

fn filled(n: usize, x: f32) -> Planes<F32> {
    let plane = || vec![F32(x); n];
    Planes { mu1: plane(), mu2: plane(), ssq: plane(), s12: plane() }
}

fn moments(planes: &Planes<F32>, i: usize) -> [f32; 4] {
    [planes.mu1[i].0, planes.mu2[i].0, planes.ssq[i].0, planes.s12[i].0]
}

fn bits(planes: &Planes<F32>) -> Vec<[u32; 4]> {
    (0..planes.mu1.len()).map(|i| moments(planes, i).map(|x| x.to_bits())).collect()
}

fn sin(angle: F32) -> F32 {
    F32(angle.0.sin())
}

fn cos(angle: F32) -> F32 {
    F32(angle.0.cos())
}

fn image(scale: usize, side: usize, level: Level) -> Channels<F32> {
    let plane =
        |channel: usize| image_plane(scale, channel, side, level.width, level.height, sin, cos);
    Channels { a: plane(0), b: plane(1), c: plane(2) }
}

fn moment_planes(scale: usize, level: Level) -> Planes<F32> {
    let plane = |k: usize| moment_plane(scale, k, level.width * level.height, sin);
    Planes { mu1: plane(0), mu2: plane(1), ssq: plane(2), s12: plane(3) }
}

fn largest_error(a: &[F32], b: &[F32]) -> f32 {
    assert_eq!(a.len(), b.len());
    let errors: Vec<u32> = a.iter().zip(b).map(|(x, y)| error_key((x.0 - y.0).to_bits())).collect();
    f32::from_bits(compare(&errors).max_err)
}

// ───────────── errors ─────────────

#[test]
fn equal_moments_have_no_error() {
    let e = per_pixel_ssim_error(F32(0.5), F32(0.5), F32(0.625), F32(0.3125));
    assert_eq!(e, F32(0.0));
}

#[test]
fn means_that_are_one_apart_have_error_one() {
    let e = per_pixel_ssim_error(F32(1.0), F32(0.0), F32(2.0), F32(0.0));
    assert_eq!(e, F32(1.0));
}

#[test]
fn an_error_below_zero_is_zero() {
    let e = per_pixel_ssim_error(F32(0.5), F32(0.5), F32(0.625), F32(0.5));
    assert_eq!(e, F32(0.0));
}

#[test]
fn an_error_that_is_not_a_number_is_zero() {
    let e = per_pixel_ssim_error(F32(f32::NAN), F32(0.5), F32(0.625), F32(0.5));
    assert_eq!(e, F32(0.0));
}

#[test]
fn the_error_is_rounded_step_by_step() {
    let (mu1, mu2, ssq, s12) = (0.41f32, 0.37f32, 0.52f32, 0.19f32);
    let c2 = 0.0009f32;
    let d = mu1 - mu2;
    let num_m = d.mul_add(-d, 1.0);
    let num_s = 2.0f32.mul_add((-mu1).mul_add(mu2, s12), c2);
    let denom_s = (-mu2).mul_add(mu2, (-mu1).mul_add(mu1, ssq)) + c2;
    let wanted = 1.0 - (num_m * num_s) / denom_s;
    assert!(wanted > 0.5 && wanted < 0.7);
    let e = per_pixel_ssim_error(F32(mu1), F32(mu2), F32(ssq), F32(s12));
    assert_eq!(e.0.to_bits(), wanted.to_bits());
}

#[test]
fn the_error_is_the_same_whichever_image_is_the_source() {
    let there = per_pixel_ssim_error(F64(0.75), F64(0.25), F64(0.75), F64(0.25));
    let back = per_pixel_ssim_error(F64(0.25), F64(0.75), F64(0.75), F64(0.25));
    assert!((there.0 - back.0).abs() < 1e-12);
    assert!(there.0 > 0.0);
}

#[test]
fn errors_are_weighted_over_the_channels() {
    // The three channels have the errors one, zero and one.
    let planes = planes_of(
        &[1.0, 0.5, 1.0],
        &[0.0, 0.5, 0.0],
        &[2.0, 0.625, 2.0],
        &[0.0, 0.3125, 0.0],
    );
    let w = [F32(0.5), F32(8.0), F32(0.25)];
    assert_eq!(cpu_per_scale(&planes, 1, 1, w), f32s(&[0.75]));
    let mut out = f32s(&[9.0, 9.0]);
    per_scale_weighted_ssim_kernel(1, &planes, &mut out, 1, 1, 1, w);
    assert_eq!(out, f32s(&[0.75, 9.0]));
}

#[test]
fn channels_lie_a_padded_plane_apart() {
    let n = 4;
    let pad = 6;
    let mut planes = filled(3 * pad, 0.5);
    for i in 0..3 * pad {
        planes.ssq[i] = F32(0.625);
        planes.s12[i] = F32(0.3125);
    }
    // An error of one at pixel two of the last channel.
    let at = 2 * pad + 2;
    planes.mu1[at] = F32(1.0);
    planes.mu2[at] = F32(0.0);
    planes.ssq[at] = F32(2.0);
    planes.s12[at] = F32(0.0);
    let w = [F32(1.0), F32(1.0), F32(0.125)];
    assert_eq!(cpu_per_scale(&planes, pad, n, w), f32s(&[0.0, 0.0, 0.125, 0.0]));
    let mut out = f32s(&[7.0; 4]);
    per_scale_weighted_ssim_kernel(1, &planes, &mut out, 2, 2, 6, w);
    assert_eq!(out, f32s(&[0.0, 0.0, 0.125, 0.0]));
}

#[test]
fn pixels_without_a_unit_are_left_alone() {
    let n = 300;
    let planes = filled(3 * n, 0.0);
    let mut out = f32s(&vec![7.0; n]);
    per_scale_weighted_ssim_kernel(1, &planes, &mut out, 30, 10, 300, [F32(1.0); 3]);
    assert!(out[..256].iter().all(|x| *x == F32(0.0)));
    assert!(out[256..].iter().all(|x| *x == F32(7.0)));
}

#[test]
fn no_pixels_have_no_errors() {
    assert_eq!(cpu_per_scale(&filled(0, 0.0), 5, 0, [F32(1.0); 3]), vec![]);
}

// ───────────── upsampling ─────────────

#[test]
fn a_coarse_sample_is_added_to_its_square() {
    let src = f32s(&[1.0, 2.0, 3.0, 4.0]);
    let wanted = f32s(&[
        10.5, 10.5, 11.0, 11.0, //
        10.5, 10.5, 11.0, 11.0, //
        11.5, 11.5, 12.0, 12.0, //
        11.5, 11.5, 12.0, 12.0,
    ]);
    let mut host = f32s(&[10.0; 16]);
    cpu_upsample_add(&src, 2, &mut host, 4, 4, 1, F32(0.5));
    assert_eq!(host, wanted);
    let mut device = f32s(&[10.0; 16]);
    pow2x_upsample_add_kernel(1, &src, &mut device, 2, 2, 4, 4, 1, F32(0.5));
    assert_eq!(device, wanted);
}

#[test]
fn columns_past_the_coarse_width_take_the_last_column() {
    let src = f32s(&[1.0, 2.0]);
    let wanted = f32s(&[1.0, 1.0, 2.0, 2.0, 2.0]);
    let mut host = f32s(&[0.0; 5]);
    cpu_upsample_add(&src, 2, &mut host, 5, 1, 1, F32(1.0));
    assert_eq!(host, wanted);
    let mut device = f32s(&[0.0; 5]);
    pow2x_upsample_add_kernel(1, &src, &mut device, 2, 1, 5, 1, 1, F32(1.0));
    assert_eq!(device, wanted);
}

#[test]
fn rows_past_the_coarse_height_take_the_last_row_on_the_device() {
    let src = f32s(&[1.0, 2.0]);
    let mut device = f32s(&[0.0; 5]);
    pow2x_upsample_add_kernel(1, &src, &mut device, 1, 2, 1, 5, 1, F32(1.0));
    assert_eq!(device, f32s(&[1.0, 1.0, 2.0, 2.0, 2.0]));
}

#[test]
fn rows_past_the_coarse_height_take_the_last_row_on_the_host() {
    let mut map = f32s(&[0.0, 0.0]);
    cpu_upsample_add(&f32s(&[5.0]), 1, &mut map, 1, 2, 0, F32(1.0));
    assert_eq!(map, f32s(&[5.0, 5.0]));
    let mut tall = f32s(&[0.0; 5]);
    cpu_upsample_add(&f32s(&[1.0, 2.0]), 1, &mut tall, 1, 5, 1, F32(1.0));
    assert_eq!(tall, f32s(&[1.0, 1.0, 2.0, 2.0, 2.0]));
}

#[test]
fn a_coarse_row_may_be_cut_short_where_no_pixel_needs_the_rest() {
    let mut map = f32s(&[0.0; 2]);
    cpu_upsample_add(&f32s(&[1.0, 2.0, 3.0]), 2, &mut map, 1, 2, 0, F32(1.0));
    assert_eq!(map, f32s(&[1.0, 3.0]));
    let mut flat = f32s(&[0.0; 2]);
    cpu_upsample_add(&f32s(&[4.0]), 0, &mut flat, 2, 1, 0, F32(1.0));
    assert_eq!(flat, f32s(&[4.0, 4.0]));
}

#[test]
fn the_first_level_is_added_pixel_by_pixel() {
    let src = f32s(&[1.0, 2.0, 3.0, 4.0, 5.0, 6.0]);
    let mut map = f32s(&[1.0; 7]);
    cpu_upsample_add(&src, 3, &mut map, 3, 2, 0, F32(2.0));
    assert_eq!(map, f32s(&[3.0, 5.0, 7.0, 9.0, 11.0, 13.0, 1.0]));
}

#[test]
fn an_empty_map_is_left_alone() {
    let mut map = f32s(&[1.0]);
    cpu_upsample_add(&f32s(&[]), 0, &mut map, 0, 5, 3, F32(2.0));
    assert_eq!(map, f32s(&[1.0]));
}

// ───────────── linear kernels ─────────────

#[test]
fn zeroing_stops_at_its_count() {
    let mut dest = f32s(&vec![3.0; 400]);
    diffmap_zero_kernel(2, &mut dest, 300);
    assert!(dest[..300].iter().all(|x| *x == F32(0.0)));
    assert!(dest[300..].iter().all(|x| *x == F32(3.0)));
    let mut short = f32s(&vec![3.0; 400]);
    diffmap_zero_kernel(1, &mut short, 300);
    assert!(short[..256].iter().all(|x| *x == F32(0.0)));
    assert!(short[256..].iter().all(|x| *x == F32(3.0)));
}

#[test]
fn a_linear_relay_copies_all_four_planes() {
    let staged = counted(600);
    let mut planes = filled(600, -1.0);
    relay_planes_1d_kernel(cube_count(600).x, &staged, &mut planes, 600);
    assert_eq!(bits(&planes), bits(&staged));
    let mut part = filled(600, -1.0);
    relay_planes_1d_kernel(1, &staged, &mut part, 600);
    assert_eq!(moments(&part, 255), [1020.0, 1021.0, 1022.0, 1023.0]);
    assert_eq!(moments(&part, 256), [-1.0; 4]);
}

#[test]
fn a_relay_by_channels_copies_all_four_planes() {
    let staged = counted(3 * 300);
    let mut planes = filled(3 * 300, -1.0);
    let grid = relay_grid(300);
    relay_planes_3d_kernel(grid.x, grid.z, &staged, &mut planes, 300);
    assert_eq!(bits(&planes), bits(&staged));
    let mut part = filled(3 * 300, -1.0);
    relay_planes_3d_kernel(1, 2, &staged, &mut part, 300);
    assert_eq!(moments(&part, 0), [0.0, 1.0, 2.0, 3.0]);
    assert_eq!(moments(&part, 300 + 255), [2220.0, 2221.0, 2222.0, 2223.0]);
    assert_eq!(moments(&part, 256), [-1.0; 4]);
    assert_eq!(moments(&part, 600), [-1.0; 4]);
}

// ───────────── blur ─────────────

fn ramp(level: Level, step: f32) -> Channels<F32> {
    let n = level.width * level.height;
    let plane = |k: f32| (0..n).map(|i| F32(k + step * (i % level.width) as f32)).collect();
    Channels { a: plane(0.0), b: plane(1.0), c: plane(2.0) }
}

#[test]
fn a_constant_image_is_its_own_blur() {
    let level = Level { width: 16, height: 12 };
    let n = 16 * 12;
    let src = Channels { a: f32s(&vec![0.5; n]), b: f32s(&vec![0.25; n]), c: f32s(&vec![1.0; n]) };
    let dst = Channels { a: f32s(&vec![0.25; n]), b: f32s(&vec![0.5; n]), c: f32s(&vec![2.0; n]) };
    let planes = cpu_feature_planes::<F32, F64>(&src, &dst, 16, 12);
    for i in [0, 17, n - 1] {
        assert_eq!(moments(&planes, i), [0.5, 0.25, 0.3125, 0.125]);
        assert_eq!(moments(&planes, n + i), [0.25, 0.5, 0.3125, 0.125]);
        assert_eq!(moments(&planes, 2 * n + i), [1.0, 2.0, 5.0, 2.0]);
    }
    let device = device_feature_planes::<F32, F64>(FeatMode::BlurOnly, level, &src, &dst, F32(9.0));
    assert!(largest_error(&device.mu1, &planes.mu1) < 1e-6);
    assert!(largest_error(&device.s12, &planes.s12) < 1e-6);
}

#[test]
fn the_reference_mirrors_at_the_border() {
    // Along a row of a ramp, the window of column zero holds 5 4 3 2 1 0 1 2 3 4 5, so it
    // sums to 30, and its squares to 110; that of column eight holds 3 .. 13.
    let level = Level { width: 32, height: 8 };
    let src = ramp(level, 1.0);
    let dst = ramp(level, 2.0);
    let planes = cpu_feature_planes::<F64, F64>(
        &Channels {
            a: src.a.iter().map(|x| F64(x.0 as f64)).collect(),
            b: src.b.iter().map(|x| F64(x.0 as f64)).collect(),
            c: src.c.iter().map(|x| F64(x.0 as f64)).collect(),
        },
        &Channels {
            a: dst.a.iter().map(|x| F64(x.0 as f64)).collect(),
            b: dst.b.iter().map(|x| F64(x.0 as f64)).collect(),
            c: dst.c.iter().map(|x| F64(x.0 as f64)).collect(),
        },
        32,
        8,
    );
    let close = |a: F64, b: f64| assert!((a.0 - b).abs() < 1e-9, "{a:?} is not {b}");
    for row in [0, 3, 7] {
        let at = row * 32;
        close(planes.mu1[at], 30.0 / 11.0);
        close(planes.mu2[at], 60.0 / 11.0);
        close(planes.ssq[at], 550.0 / 11.0);
        close(planes.s12[at], 220.0 / 11.0);
        close(planes.mu1[at + 8], 8.0);
        close(planes.mu1[32 * 8 + at + 8], 9.0);
        close(planes.mu1[2 * 32 * 8 + at + 31], 33.0 - 30.0 / 11.0);
    }
}

#[test]
fn the_sliding_blur_is_the_direct_blur() {
    for (width, height) in [(96, 80), (16, 8), (64, 70), (130, 65)] {
        let level = Level { width, height };
        let (src, dst) = (image(1, 0, level), image(1, 1, level));
        let wanted = cpu_feature_planes::<F32, F64>(&src, &dst, width, height);
        let planes =
            device_feature_planes::<F32, F64>(FeatMode::Full, level, &src, &dst, F32(f32::NAN));
        assert!(largest_error(&planes.mu1, &wanted.mu1) < 1e-5);
        assert!(largest_error(&planes.mu2, &wanted.mu2) < 1e-5);
        assert!(largest_error(&planes.ssq, &wanted.ssq) < 1e-5);
        assert!(largest_error(&planes.s12, &wanted.s12) < 1e-5);
    }
}

#[test]
fn every_mode_blurs_alike() {
    let level = Level { width: 96, height: 80 };
    let (src, dst) = (image(0, 0, level), image(0, 1, level));
    let run = |mode, junk| {
        bits(&device_feature_planes::<F32, F64>(mode, level, &src, &dst, F32(junk)))
    };
    let full = run(FeatMode::Full, 0.0);
    assert_eq!(full, run(FeatMode::BlurOnly, 1.0));
    assert_eq!(full, run(FeatMode::BlurF64, -7.5));
    assert_eq!(full, run(FeatMode::Full, f32::NAN));
}

#[test]
fn padding_behind_a_channel_is_left_alone() {
    let level = Level { width: 16, height: 9 };
    let (src, dst) = (image(2, 0, level), image(2, 1, level));
    let layout = Layout { width: 16, height: 9, n_strips: 1, pad_total: 150 };
    let mut planes = filled(450, -3.0);
    blur_planes_kernel(&src, &dst, &mut planes, layout);
    let dense = device_feature_planes::<F32, F32>(FeatMode::BlurOnly, level, &src, &dst, F32(0.0));
    for channel in 0..3 {
        for i in 0..144 {
            assert_eq!(moments(&planes, channel * 150 + i), moments(&dense, channel * 144 + i));
        }
        for i in 144..150 {
            assert_eq!(moments(&planes, channel * 150 + i), [-3.0; 4]);
        }
    }
}

#[test]
fn strips_start_their_windows_anew() {
    let level = Level { width: 24, height: 40 };
    let (src, dst) = (image(0, 0, level), image(0, 1, level));
    let run = |n_strips| {
        let layout = Layout { width: 24, height: 40, n_strips, pad_total: 960 };
        let mut planes = filled(2880, 0.0);
        blur_planes_kernel(&src, &dst, &mut planes, layout);
        planes
    };
    let (one, four) = (run(1), run(4));
    assert_eq!(bits(&one)[..240], bits(&four)[..240]);
    assert!(largest_error(&one.ssq, &four.ssq) < 1e-5);
}

// ───────────── features ─────────────

#[test]
fn features_of_a_pixel() {
    // Error one, one half from the blur against one: (1 + 1) / (1 + 1/2) - 1.
    let m = Moments { mu1: F32(1.0), mu2: F32(0.0), ssq: F32(2.0), s12: F32(0.0) };
    let (sums, peaks) = pixel_features(m, F32(1.5), F32(-1.0), true);
    let artifact = 2.0f32 / 1.5 - 1.0;
    assert_eq!(peaks, f32s(&[1.0, artifact, 0.0]));
    let a2 = artifact * artifact;
    let a4 = a2 * a2;
    assert_eq!(
        sums,
        f32s(&[
            1.0,
            1.0,
            1.0,
            artifact,
            a4,
            a2,
            0.0,
            0.0,
            0.0,
            6.25,
            0.25,
            1.0,
            0.5,
            1.0,
            1.0,
            a4 * a4,
            0.0,
        ])
    );
}

#[test]
fn lost_detail_is_the_other_way_round() {
    let m = Moments { mu1: F32(0.0), mu2: F32(0.0), ssq: F32(0.0), s12: F32(0.0) };
    let (sums, peaks) = pixel_features(m, F32(1.0), F32(0.0), true);
    assert_eq!(peaks, f32s(&[0.0, 0.0, 0.5]));
    assert_eq!(sums[6..9], f32s(&[0.5, 0.0625, 0.25]));
    assert_eq!(sums[16], F32(0.00390625));
}

#[test]
fn a_row_that_does_not_count_adds_nothing() {
    let m = Moments { mu1: F32(1.0), mu2: F32(0.0), ssq: F32(2.0), s12: F32(0.0) };
    let (sums, peaks) = pixel_features(m, F32(1.5), F32(-1.0), false);
    assert_eq!(sums, f32s(&[0.0; 17]));
    assert_eq!(peaks, f32s(&[0.0; 3]));
}

#[test]
fn modes_take_different_features() {
    let m = Moments { mu1: F32(0.25), mu2: F32(0.0), ssq: F32(2.0), s12: F32(0.0) };
    let take = |mode| mode_features(mode, m, F32(1.5), F32(-1.0), true);
    assert_eq!(take(FeatMode::Full), pixel_features(m, F32(1.5), F32(-1.0), true));
    assert_eq!(take(FeatMode::BlurOnly), (vec![], vec![]));
    assert_eq!(take(FeatMode::BlurF64), (f32s(&[0.25]), vec![]));
    for mode in [FeatMode::Full, FeatMode::BlurOnly, FeatMode::BlurF64] {
        assert_eq!(take(mode).0.len(), mode.sums_per_column());
        assert_eq!(take(mode).1.len(), mode.peaks_per_column());
    }
}

#[test]
fn columns_keep_the_sums_and_peaks_of_their_strip() {
    let level = Level { width: 16, height: 20 };
    let (src, dst) = (image(0, 0, level), image(0, 1, level));
    let layout = Layout { width: 16, height: 20, n_strips: 2, pad_total: 320 };
    let (sums_at, peaks_at) = (5usize, 2usize);
    let mut partials = vec![F64(-9.0); sums_at + 3 * 2 * 16 * 17 + 1];
    let mut peaks = f32s(&vec![-9.0; peaks_at + 3 * 2 * 16 * 3 + 1]);
    let mut planes = filled(960, 0.0);
    let body = Body { start: 3, end: 14 };
    fused_features_kernel_persist(
        &src,
        &dst,
        &mut partials,
        &mut peaks,
        &mut planes,
        layout,
        Offsets { sums: sums_at as u32, peaks: peaks_at as u32 },
        body,
    );
    for channel in 0..3u32 {
        for strip in 0..2u32 {
            let (from, to) = strip_rows(20, 2, strip);
            for col in 0..16usize {
                let mut wanted = vec![0.0f64; 17];
                let mut tops = vec![0.0f32; 3];
                for y in from..to {
                    let off = y as usize * 16 + col;
                    let [mu1, mu2, ssq, s12] = moments(&planes, channel as usize * 320 + off);
                    let m = Moments { mu1: F32(mu1), mu2: F32(mu2), ssq: F32(ssq), s12: F32(s12) };
                    let (terms, highs) = pixel_features(
                        m,
                        src.plane(channel)[off],
                        dst.plane(channel)[off],
                        (3..14).contains(&y),
                    );
                    for t in 0..17 {
                        wanted[t] += terms[t].0 as f64;
                    }
                    for t in 0..3 {
                        if highs[t].0 > tops[t] {
                            tops[t] = highs[t].0;
                        }
                    }
                }
                let slot = (channel * 2 + strip) as usize * 16 + col;
                for t in 0..17 {
                    assert_eq!(partials[sums_at + slot * 17 + t], F64(wanted[t]));
                }
                for t in 0..3 {
                    assert_eq!(peaks[peaks_at + slot * 3 + t], F32(tops[t]));
                }
            }
        }
    }
    assert!(partials[..sums_at].iter().all(|x| *x == F64(-9.0)));
    assert_eq!(partials[partials.len() - 1], F64(-9.0));
    assert_eq!(peaks[0], F32(-9.0));
    assert_eq!(peaks[peaks.len() - 1], F32(-9.0));
}

#[test]
fn one_sum_is_kept_of_the_blurred_source() {
    let level = Level { width: 16, height: 10 };
    let (src, dst) = (image(3, 0, level), image(3, 1, level));
    let layout = Layout { width: 16, height: 10, n_strips: 1, pad_total: 160 };
    let mut partials = vec![F64(-9.0); 48];
    let mut planes = filled(480, 0.0);
    blur_f64_kernel(&src, &dst, &mut partials, &mut planes, layout);
    for channel in 0..3 {
        for col in 0..16 {
            let mut wanted = 0.0f64;
            for y in 0..10 {
                wanted += planes.mu1[channel * 160 + y * 16 + col].0 as f64;
            }
            assert_eq!(partials[channel * 16 + col], F64(wanted));
        }
    }
}

// ───────────── maps ─────────────

#[test]
fn every_producer_gives_one_map() {
    for (w, h) in [(64, 64), (96, 80)] {
        let plan = pyramid_plan(w, h);
        let staged: Vec<Planes<F32>> =
            plan.iter().enumerate().map(|(s, level)| moment_planes(s, *level)).collect();
        let host = cpu_diffmap(&plan, &staged);
        assert_eq!(host.len(), w * h);
        let first = device_diffmap(&plan, &staged, F32(f32::NAN), false, Producer::Host);
        for producer in [Producer::Host, Producer::Relay1d, Producer::Relay3d] {
            for zero_fill in [false, true] {
                let map = device_diffmap(&plan, &staged, F32(1.098), zero_fill, producer);
                assert_eq!(map, first);
            }
        }
        // Bit for bit.
        assert_eq!(first, host);
        assert!(host.iter().any(|x| x.0 > 0.0));
    }
}

#[test]
fn the_map_of_images_is_the_reference_map() {
    let plan = pyramid_plan(64, 64);
    let src: Vec<Channels<F32>> =
        plan.iter().enumerate().map(|(s, level)| image(s, 0, *level)).collect();
    let dst: Vec<Channels<F32>> =
        plan.iter().enumerate().map(|(s, level)| image(s, 1, *level)).collect();
    let (wanted, host) = cpu_feature_diffmap::<F32, F64>(&plan, &src, &dst);
    let (planes, map) =
        device_feature_diffmap::<F32, F64>(&plan, &src, &dst, F32(f32::NAN), FeatMode::Full);
    for s in 0..plan.len() {
        assert!(largest_error(&planes[s].mu1, &wanted[s].mu1) <= 1e-3);
        assert!(largest_error(&planes[s].s12, &wanted[s].s12) <= 1e-3);
    }
    assert!(largest_error(&map, &host) <= 1e-3);
    assert!(host.iter().any(|x| x.0 > 1e-3));
}

#[test]
fn an_image_has_no_error_against_itself() {
    let plan = pyramid_plan(32, 24);
    let images: Vec<Channels<F32>> =
        plan.iter().enumerate().map(|(s, level)| image(s, 0, *level)).collect();
    let (_, host) = cpu_feature_diffmap::<F32, F64>(&plan, &images, &images);
    let (_, map) =
        device_feature_diffmap::<F32, F64>(&plan, &images, &images, F32(5.0), FeatMode::BlurF64);
    assert!(host.iter().all(|x| x.0 <= 1e-3));
    assert!(map.iter().all(|x| x.0 <= 1e-3));
}

#[test]
fn exchanging_the_images_exchanges_the_means() {
    let level = Level { width: 20, height: 9 };
    let (src, dst) = (image(0, 0, level), image(0, 1, level));
    let there = cpu_feature_planes::<F32, F64>(&src, &dst, 20, 9);
    let back = cpu_feature_planes::<F32, F64>(&dst, &src, 20, 9);
    assert_eq!(there.mu1, back.mu2);
    assert_eq!(there.mu2, back.mu1);
    assert_eq!(there.ssq, back.ssq);
    assert_eq!(there.s12, back.s12);
    assert_ne!(there.mu1, there.mu2);
}

#[test]
fn weights_of_channels_and_levels() {
    assert_eq!(channel_weights::<F32>(), [F32(1.0 / 3.0); 3]);
    assert_eq!(blend_weight::<F32>(&pyramid_plan(96, 80)), F32(0.25));
    assert_eq!(blend_weight::<F32>(&pyramid_plan(17, 30)), F32(1.0 / 3.0));
}

#[test]
fn the_map_is_the_same_whichever_image_is_the_source() {
    let plan = pyramid_plan(32, 16);
    let src: Vec<Channels<F32>> =
        plan.iter().enumerate().map(|(s, level)| image(s, 0, *level)).collect();
    let dst: Vec<Channels<F32>> =
        plan.iter().enumerate().map(|(s, level)| image(s, 1, *level)).collect();
    let (_, there) = cpu_feature_diffmap::<F32, F64>(&plan, &src, &dst);
    let (_, back) = cpu_feature_diffmap::<F32, F64>(&plan, &dst, &src);
    assert!(largest_error(&there, &back) <= 1e-4);
}

#[test]
fn levels_are_averaged() {
    // Error one everywhere at the first of two levels, none at the second.
    let plan = pyramid_plan(16, 16);
    assert_eq!(plan, vec![Level { width: 16, height: 16 }, Level { width: 8, height: 8 }]);
    let mut ones = filled(768, 0.0);
    ones.mu1 = f32s(&vec![1.0; 768]);
    ones.ssq = f32s(&vec![2.0; 768]);
    let none = filled(192, 0.0);
    let third = 1.0f32 / 3.0;
    let error = third + third + third;
    let map = cpu_diffmap(&plan, &vec![ones, none]);
    assert_eq!(map, f32s(&vec![0.5 * error; 256]));
}

#[test]
fn launch_sizes_of_a_level() {
    assert_eq!(
        layout_of(Level { width: 96, height: 80 }),
        Layout { width: 96, height: 80, n_strips: 2, pad_total: 7680 }
    );
}

// ───────────── double-single sums ─────────────

#[test]
fn a_double_single_sum_recovers_what_a_plain_sum_loses() {
    assert_eq!(df64_probe_kernel(F32(16777216.0), F32(1.0), 4096), (F32(0.0), F32(4096.0)));
    assert_eq!(df64_probe_kernel(F32(16777216.0), F32(1.0), 0), (F32(0.0), F32(0.0)));
    assert_eq!(df64_probe_kernel(F32(0.5), F32(0.25), 6), (F32(1.5), F32(1.5)));
}

#[test]
fn a_wide_enough_sum_loses_nothing() {
    assert_eq!(df64_probe_kernel(F64(16777216.0), F64(1.0), 4096), (F64(4096.0), F64(4096.0)));
}

// ───────────── synthetic inputs ─────────────

#[test]
fn synthetic_moments() {
    let level = Level { width: 16, height: 8 };
    let planes = moment_planes(2, level);
    let pt = 128;
    for (plane, values) in
        [&planes.mu1, &planes.mu2, &planes.ssq, &planes.s12].into_iter().enumerate()
    {
        for idx in [0, 5, 127, 128, 300, 383] {
            let ch = idx / pt;
            let i = (idx % pt) as f32;
            let base = 0.4 + 0.15 * ((2 * 7 + plane * 3 + ch * 5) as f32).sin();
            let wanted = base + 0.01 * (i * 0.013 + plane as f32).sin();
            assert_eq!(values[idx], F32(wanted));
        }
    }
}

#[test]
fn synthetic_samples_lie_close() {
    let level = Level { width: 64, height: 32 };
    for scale in 0..4 {
        let (src, dst) = (image(scale, 0, level), image(scale, 1, level));
        for channel in 0..3 {
            for (a, b) in src.plane(channel).iter().zip(dst.plane(channel)) {
                assert!(0.0999 <= a.0 && a.0 <= 0.5001);
                assert!((b.0 - a.0).abs() <= 0.03001);
            }
        }
        let planes = moment_planes(scale, level);
        assert!(planes.mu1.iter().all(|x| 0.2399 <= x.0 && x.0 <= 0.5601));
    }
    assert_eq!(image(0, 0, level).a[0], F32(0.3));
}

#[test]
fn a_side_other_than_one_is_the_source() {
    let pixel = |side: usize| synth_xyb(2, 1, side, 7, 5, sin, cos);
    assert_eq!(pixel(0), pixel(2));
    assert_ne!(pixel(0), pixel(1));
    assert_eq!(synth_xyb(0, 0, 0, 0, 0, sin, cos), F32(0.3));
}

#[test]
fn a_sample_is_made_of_the_waves_of_its_angles() {
    // The angles themselves for waves.
    let same = |angle: F64| angle;
    let none = |_: F64| F64(0.0);
    assert_eq!(synth(1, 2, 5, 4, same), F64(0.4 + 0.15 * 18.0 + 0.01 * (1.0 * 0.013 + 2.0)));
    assert_eq!(synth_xyb(1, 2, 1, 3, 4, none, same), F64(0.3 + 0.03 * (3.0 * 0.11 + 4.0 * 0.09)));
    assert_eq!(
        synth_xyb(1, 2, 0, 3, 4, same, same),
        F64(0.3 + 0.2 * (13.0 + 3.0 * 0.05 + 4.0 * 0.07))
    );
}

#[test]
fn synthetic_images() {
    let level = Level { width: 16, height: 8 };
    for side in 0..2 {
        let channels = image(1, side, level);
        for channel in 0..3usize {
            for (x, y) in [(0, 0), (15, 0), (3, 7), (15, 7)] {
                let (fx, fy) = (x as f32, y as f32);
                let base = 0.3 + 0.2 * ((3 + channel * 5) as f32 + fx * 0.05 + fy * 0.07).sin();
                let dist =
                    if side == 1 { 0.03 * (fx * 0.11 + fy * 0.09).cos() } else { 0.0f32 };
                assert_eq!(channels.plane(channel as u32)[y * 16 + x], F32(base + dist));
            }
        }
    }
}

// ───────────── steps ─────────────

#[test]
fn steps_of_a_run_on_moment_planes() {
    let plan = pyramid_plan(64, 10);
    assert_eq!(plan.len(), 1);
    let zero_map = Step::ZeroMap { blocks: 3, n: 640 };
    let scratch = Step::Scratch { n: 640 };
    let zero_scratch = Step::ZeroScratch { blocks: 3, n: 640 };
    let errors = Step::PerScale { blocks: 3, width: 64, height: 10, pad_total: 640 };
    let add = Step::UpsampleAdd {
        blocks: 3,
        src_w: 64,
        src_h: 10,
        dst_w: 64,
        dst_h: 10,
        log2_factor: 0,
    };
    let upload = Step::Upload { scale: 0, len: 1920 };
    let stage = Step::Stage { scale: 0, len: 1920 };
    assert_eq!(
        chain_steps(&plan, true, Producer::Host),
        vec![zero_map, upload, scratch, zero_scratch, errors, add]
    );
    assert_eq!(
        chain_steps(&plan, false, Producer::Relay1d),
        vec![zero_map, stage, Step::Relay1d { blocks: 8, n: 1920 }, scratch, errors, add]
    );
    let relay = Step::Relay3d { grid: Grid { x: 3, y: 1, z: 3 }, pad_total: 640 };
    assert_eq!(
        chain_steps(&plan, false, Producer::Relay3d),
        vec![zero_map, stage, relay, scratch, errors, add]
    );
}

#[test]
fn steps_of_a_run_on_images() {
    let plan = pyramid_plan(96, 80);
    let blur = |n_sums, n_peaks, mode| Step::Blur {
        scale: 0,
        mode,
        pt: 7680,
        len: 23040,
        n_sums,
        n_peaks,
        grid: Grid { x: 2, y: 2, z: 3 },
        layout: Layout { width: 96, height: 80, n_strips: 2, pad_total: 7680 },
        offsets: Offsets { sums: 0, peaks: 0 },
        body: Body { start: 0, end: 80 },
    };
    let full = feature_steps(&plan, FeatMode::Full);
    assert_eq!(full.len(), 1 + 4 * 4);
    assert_eq!(full[0], Step::ZeroMap { blocks: 30, n: 7680 });
    assert_eq!(full[1], blur(9792, 1728, FeatMode::Full));
    assert_eq!(full[2], Step::Scratch { n: 7680 });
    assert_eq!(feature_steps(&plan, FeatMode::BlurOnly)[1], blur(0, 0, FeatMode::BlurOnly));
    assert_eq!(feature_steps(&plan, FeatMode::BlurF64)[1], blur(576, 0, FeatMode::BlurF64));
    assert_eq!(
        full[16],
        Step::UpsampleAdd {
            blocks: 30,
            src_w: 12,
            src_h: 10,
            dst_w: 96,
            dst_h: 80,
            log2_factor: 3,
        }
    );
}

/// The buffers of a device.
struct Memory {
    map: Vec<F32>,
    staged: Planes<F32>,
    planes: Planes<F32>,
    scratch: Vec<F32>,
}

fn copied(planes: &Planes<F32>) -> Planes<F32> {
    Planes {
        mu1: planes.mu1.clone(),
        mu2: planes.mu2.clone(),
        ssq: planes.ssq.clone(),
        s12: planes.s12.clone(),
    }
}

/// Performs the steps with the kernels; fresh memory holds what is not a number.
fn performed(
    plan: &Vec<Level>,
    steps: Vec<Step>,
    inputs: &[Planes<F32>],
    src: &[Channels<F32>],
    dst: &[Channels<F32>],
) -> Vec<F32> {
    let junk = f32::NAN;
    let blend = blend_weight(plan);
    let mut m = Memory {
        map: vec![F32(junk); plan[0].width * plan[0].height],
        staged: filled(0, junk),
        planes: filled(0, junk),
        scratch: vec![],
    };
    for step in steps {
        match step {
            Step::ZeroMap { blocks, n } => diffmap_zero_kernel(blocks, &mut m.map, n),
            Step::Upload { scale, len } => {
                m.planes = copied(&inputs[scale]);
                assert_eq!(m.planes.mu1.len(), len);
            }
            Step::Stage { scale, len } => {
                m.staged = copied(&inputs[scale]);
                m.planes = filled(len, junk);
            }
            Step::Relay1d { blocks, n } => {
                relay_planes_1d_kernel(blocks, &m.staged, &mut m.planes, n)
            }
            Step::Relay3d { grid, pad_total } => {
                relay_planes_3d_kernel(grid.x, grid.z, &m.staged, &mut m.planes, pad_total)
            }
            Step::Blur { scale, mode, len, n_sums, n_peaks, layout, offsets, body, .. } => {
                m.planes = filled(len, junk);
                let mut sums = vec![F64(0.0); n_sums];
                let mut peaks = vec![F32(junk); n_peaks];
                match mode {
                    FeatMode::Full => fused_features_kernel_persist(
                        &src[scale],
                        &dst[scale],
                        &mut sums,
                        &mut peaks,
                        &mut m.planes,
                        layout,
                        offsets,
                        body,
                    ),
                    FeatMode::BlurOnly => {
                        blur_planes_kernel(&src[scale], &dst[scale], &mut m.planes, layout)
                    }
                    FeatMode::BlurF64 => {
                        blur_f64_kernel(&src[scale], &dst[scale], &mut sums, &mut m.planes, layout)
                    }
                }
            }
            Step::Scratch { n } => m.scratch = vec![F32(junk); n],
            Step::ZeroScratch { blocks, n } => diffmap_zero_kernel(blocks, &mut m.scratch, n),
            Step::PerScale { blocks, width, height, pad_total } => per_scale_weighted_ssim_kernel(
                blocks,
                &m.planes,
                &mut m.scratch,
                width,
                height,
                pad_total,
                channel_weights(),
            ),
            Step::UpsampleAdd { blocks, src_w, src_h, dst_w, dst_h, log2_factor } => {
                pow2x_upsample_add_kernel(
                    blocks,
                    &m.scratch,
                    &mut m.map,
                    src_w,
                    src_h,
                    dst_w,
                    dst_h,
                    log2_factor,
                    blend,
                )
            }
        }
    }
    m.map
}

#[test]
fn performing_the_steps_on_moment_planes_computes_their_map() {
    let plan = pyramid_plan(48, 40);
    let staged: Vec<Planes<F32>> =
        plan.iter().enumerate().map(|(s, level)| moment_planes(s, *level)).collect();
    let wanted = device_diffmap(&plan, &staged, F32(2.0), true, Producer::Host);
    for producer in [Producer::Host, Producer::Relay1d, Producer::Relay3d] {
        for zero_fill in [false, true] {
            let steps = chain_steps(&plan, zero_fill, producer);
            assert_eq!(performed(&plan, steps, &staged, &[], &[]), wanted);
        }
    }
}

#[test]
fn performing_the_steps_on_images_computes_their_map() {
    let plan = pyramid_plan(80, 70);
    let src: Vec<Channels<F32>> =
        plan.iter().enumerate().map(|(s, level)| image(s, 0, *level)).collect();
    let dst: Vec<Channels<F32>> =
        plan.iter().enumerate().map(|(s, level)| image(s, 1, *level)).collect();
    let (_, wanted) =
        device_feature_diffmap::<F32, F64>(&plan, &src, &dst, F32(2.0), FeatMode::Full);
    for mode in [FeatMode::Full, FeatMode::BlurOnly, FeatMode::BlurF64] {
        assert_eq!(performed(&plan, feature_steps(&plan, mode), &[], &src, &dst), wanted);
    }
}
