use diffmap::geometry::{
    cube_count, feature_grid, line_units, pick_n_strips, pyramid_plan, relay_grid,
    simd_padded_width, strip_rows, Grid, Level,
};
use diffmap::mirror::{mirror_ahead, mirror_behind, mirror_idx};

fn sizes(plan: &[Level]) -> Vec<(usize, usize)> {
    plan.iter().map(|l| (l.width, l.height)).collect()
}

#[test]
fn widths_are_padded_to_a_multiple_of_sixteen() {
    assert_eq!(simd_padded_width(0), 0);
    assert_eq!(simd_padded_width(1), 16);
    assert_eq!(simd_padded_width(15), 16);
    assert_eq!(simd_padded_width(16), 16);
    assert_eq!(simd_padded_width(17), 32);
    assert_eq!(simd_padded_width(64), 64);
    assert_eq!(simd_padded_width(96), 96);
    assert_eq!(simd_padded_width(100), 112);
}

#[test]
fn pyramid_of_a_square() {
    assert_eq!(sizes(&pyramid_plan(64, 64)), vec![(64, 64), (32, 32), (16, 16), (8, 8)]);
}

#[test]
fn pyramid_of_a_wide_image() {
    assert_eq!(sizes(&pyramid_plan(96, 80)), vec![(96, 80), (48, 40), (24, 20), (12, 10)]);
}

#[test]
fn pyramid_stops_after_four_levels() {
    assert_eq!(sizes(&pyramid_plan(128, 128)), vec![(128, 128), (64, 64), (32, 32), (16, 16)]);
    assert_eq!(pyramid_plan(4096, 4096).len(), 4);
}

#[test]
fn pyramid_stops_where_a_side_gets_too_small() {
    assert_eq!(sizes(&pyramid_plan(17, 30)), vec![(32, 30), (16, 15), (8, 8)]);
    assert_eq!(sizes(&pyramid_plan(64, 8)), vec![(64, 8)]);
    assert_eq!(sizes(&pyramid_plan(16, 64)), vec![(16, 64), (8, 32)]);
}

#[test]
fn pyramid_of_a_low_or_empty_image_is_empty() {
    assert_eq!(sizes(&pyramid_plan(64, 7)), vec![]);
    assert_eq!(sizes(&pyramid_plan(0, 64)), vec![]);
}

#[test]
fn odd_heights_round_up_and_odd_widths_down() {
    assert_eq!(sizes(&pyramid_plan(80, 33)), vec![(80, 33), (40, 17), (20, 9)]);
    assert_eq!(sizes(&pyramid_plan(80, 65)), vec![(80, 65), (40, 33), (20, 17), (10, 9)]);
    assert_eq!(sizes(&pyramid_plan(90, 100)), vec![(96, 100), (48, 50), (24, 25), (12, 13)]);
}

#[test]
fn strips_by_size() {
    assert_eq!(pick_n_strips(64, 1), 1);
    assert_eq!(pick_n_strips(4096, 64), 1);
    assert_eq!(pick_n_strips(255, 65), 2);
    assert_eq!(pick_n_strips(256, 65), 4);
    assert_eq!(pick_n_strips(255, 1023), 2);
    assert_eq!(pick_n_strips(16, 1024), 8);
}

#[test]
fn strips_share_out_the_rows() {
    let rows: Vec<(u32, u32)> = (0..4).map(|s| strip_rows(10, 4, s)).collect();
    assert_eq!(rows, vec![(0, 3), (3, 6), (6, 8), (8, 10)]);
    assert_eq!(strip_rows(80, 2, 0), (0, 40));
    assert_eq!(strip_rows(80, 2, 1), (40, 80));
    assert_eq!(strip_rows(64, 1, 0), (0, 64));
}

#[test]
fn every_row_lies_in_one_strip() {
    for height in 1..70u32 {
        for n_strips in 1..9u32 {
            let mut next = 0;
            for strip in 0..n_strips {
                let (from, to) = strip_rows(height, n_strips, strip);
                assert_eq!(from, next);
                assert!(from <= to);
                next = to;
            }
            assert_eq!(next, height);
        }
    }
}

#[test]
fn a_linear_launch_covers_its_samples() {
    assert_eq!(cube_count(0), Grid { x: 1, y: 1, z: 1 });
    assert_eq!(cube_count(1), Grid { x: 1, y: 1, z: 1 });
    assert_eq!(cube_count(256), Grid { x: 1, y: 1, z: 1 });
    assert_eq!(cube_count(257), Grid { x: 2, y: 1, z: 1 });
    assert_eq!(cube_count(96 * 80), Grid { x: 30, y: 1, z: 1 });
    assert_eq!(cube_count(u32::MAX as usize), Grid { x: 1 << 24, y: 1, z: 1 });
    for n in [1usize, 255, 256, 257, 4096, 7680] {
        assert!(n as u64 <= line_units(cube_count(n).x));
    }
}

#[test]
fn a_linear_launch_counts_the_low_bits_of_its_samples() {
    let n = (1u64 << 32) as usize + 300;
    assert_eq!(cube_count(n), Grid { x: 2, y: 1, z: 1 });
}

#[test]
fn launches_by_columns_and_by_channels() {
    assert_eq!(feature_grid(64, 1), Grid { x: 1, y: 1, z: 3 });
    assert_eq!(feature_grid(96, 2), Grid { x: 2, y: 2, z: 3 });
    assert_eq!(feature_grid(12, 1), Grid { x: 1, y: 1, z: 3 });
    assert_eq!(relay_grid(64 * 64), Grid { x: 16, y: 1, z: 3 });
    assert_eq!(relay_grid(257), Grid { x: 2, y: 1, z: 3 });
    assert_eq!(line_units(3), 768);
}

#[test]
fn mirroring_reflects_about_the_first_and_the_last_sample() {
    let at: Vec<usize> = (-5..13).map(|i| mirror_idx(i, 8)).collect();
    assert_eq!(at, vec![5, 4, 3, 2, 1, 0, 1, 2, 3, 4, 5, 6, 7, 6, 5, 4, 3, 2]);
}

#[test]
fn mirroring_repeats() {
    for dim in 2..20i64 {
        let period = 2 * (dim - 1);
        for i in -60..60i64 {
            let at = mirror_idx(i, dim);
            assert!((at as i64) < dim);
            assert_eq!(at, mirror_idx(i + period, dim));
            assert_eq!(at, mirror_idx(-i, dim));
            assert_eq!(at, mirror_idx(2 * (dim - 1) - i, dim));
        }
    }
    assert_eq!(mirror_idx(-1, 2), 1);
}

#[test]
fn a_kernel_mirrors_as_the_reference_does() {
    for dim in 8..40u32 {
        for k in 0..dim + 11 {
            assert_eq!(mirror_behind(k, dim) as usize, mirror_idx(k as i64 - 5, dim as i64));
        }
        for y in 0..dim {
            assert_eq!(mirror_ahead(y, dim) as usize, mirror_idx(y as i64 + 6, dim as i64));
        }
    }
}
