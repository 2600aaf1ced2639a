use diffmap::compare::{
    compare, count_diverging, error_key, find_peak, first_diverging, pixel_of, probe_label,
    run_passes, value_error_key, verdict_label, Comparison, PlaneWorst, INFINITY_BITS, ONE_BITS,
    SHOWN, TOLERANCE_BITS,
};
use diffmap::diffmap::Producer;
use diffmap::features::FeatMode;
use diffmap::steps::zero_fill_enabled;

fn keys(differences: &[f32]) -> Vec<u32> {
    differences.iter().map(|d| error_key(d.to_bits())).collect()
}

#[test]
fn keys_are_the_patterns_of_magnitudes() {
    assert_eq!(error_key((0.25f32).to_bits()), (0.25f32).to_bits());
    assert_eq!(error_key((-0.25f32).to_bits()), (0.25f32).to_bits());
    assert_eq!(error_key((0.0f32).to_bits()), 0);
    assert_eq!(error_key((-0.0f32).to_bits()), 0);
    assert_eq!(error_key(f32::INFINITY.to_bits()), 0x7f80_0000);
    assert_eq!(error_key(f32::NEG_INFINITY.to_bits()), 0x7f80_0000);
    assert_eq!(error_key(0x7fc0_0000), 0x7fc0_0000);
    assert_eq!(error_key(0xffc0_0000), 0x7fc0_0000);
    assert!(error_key(f32::NAN.to_bits()) > INFINITY_BITS);
    assert!(error_key(0x7f80_0001) > error_key(f32::INFINITY.to_bits()));
}

#[test]
fn keys_are_ordered_as_magnitudes_are() {
    let values = [0.0f32, 1e-40, 1e-3, 0.0010001, 0.5, 1.0, 3.0e38, f32::INFINITY];
    for pair in values.windows(2) {
        assert!(error_key(pair[0].to_bits()) < error_key((-pair[1]).to_bits()));
    }
}

#[test]
fn constants_are_the_patterns_of_their_values() {
    assert_eq!(f32::from_bits(TOLERANCE_BITS), 1e-3);
    assert_eq!(f32::from_bits(ONE_BITS), 1.0);
    assert_eq!(SHOWN, 8);
}

#[test]
fn equal_maps_pass() {
    let r = compare(&keys(&[0.0, -0.0, 0.0]));
    assert_eq!(r, Comparison { max_err: 0, argmax: 0, n_div: 0 });
    assert!(r.pass());
}

#[test]
fn no_pixels_pass() {
    let r = compare(&vec![]);
    assert_eq!(r, Comparison { max_err: 0, argmax: 0, n_div: 0 });
    assert!(r.pass());
}

#[test]
fn an_error_at_the_tolerance_passes_and_one_above_fails() {
    let above = f32::from_bits(TOLERANCE_BITS + 1);
    let at = compare(&keys(&[0.0, 1e-3]));
    assert_eq!(at, Comparison { max_err: TOLERANCE_BITS, argmax: 1, n_div: 0 });
    assert!(at.pass());
    let over = compare(&keys(&[0.0, 0.0, -above]));
    assert_eq!(over, Comparison { max_err: TOLERANCE_BITS + 1, argmax: 2, n_div: 1 });
    assert!(!over.pass());
}

#[test]
fn the_first_of_the_largest_errors_is_reported() {
    let r = compare(&keys(&[0.1, -0.7, 0.7, 0.0005, 0.3]));
    assert_eq!(r, Comparison { max_err: (0.7f32).to_bits(), argmax: 1, n_div: 4 });
}

#[test]
fn a_value_that_is_not_a_number_fails() {
    let nan = f32::from_bits(0x7fc0_0000);
    let error = |d: f32, r: f32| value_error_key(d.to_bits(), r.to_bits(), (d - r).to_bits());
    let found = compare(&vec![error(0.5, 0.5), error(nan, 0.25), error(1.0, 1.0)]);
    assert!(f32::from_bits(found.max_err).is_nan());
    assert_eq!((found.argmax, found.n_div), (1, 1));
    assert!(!found.pass());
    let mut worst = PlaneWorst::new();
    worst.absorb(1, 2, 2, 4, &vec![0, 0, 0, 0, 0, 0, 0, error(nan, 0.5), 0, 0, 0, 0]);
    assert_eq!((worst.scale, worst.plane, worst.x, worst.y, worst.n_div), (1, 6, 1, 1, 1));
    assert!(!worst.pass());
    let mixed = compare(&keys(&[0.5, f32::INFINITY, nan]));
    assert_eq!((mixed.argmax, mixed.n_div), (2, 3));
}

#[test]
fn equal_values_have_no_error() {
    let error = |d: f32, r: f32| value_error_key(d.to_bits(), r.to_bits(), (d - r).to_bits());
    assert_eq!(error(0.25, 0.25), 0);
    assert_eq!(error(0.0, -0.0), 0);
    assert_eq!(error(f32::INFINITY, f32::INFINITY), 0);
    assert_eq!(error(f32::INFINITY, 1.0), 0x7f80_0000);
    assert_eq!(error(0.5, 0.75), (0.25f32).to_bits());
}

#[test]
fn a_run_on_images_passes_where_both_its_parts_do() {
    let good = compare(&keys(&[0.0]));
    let bad = compare(&keys(&[1.0]));
    let fine = PlaneWorst::new();
    let mut off = PlaneWorst::new();
    off.absorb(0, 0, 1, 1, &keys(&[1.0, 0.0, 0.0]));
    assert!(run_passes(&fine, &good));
    assert!(!run_passes(&fine, &bad));
    assert!(!run_passes(&off, &good));
    assert!(!run_passes(&off, &bad));
}

#[test]
fn peaks_are_above_their_floor() {
    let errors = keys(&[0.5, 0.25, 0.75, 0.75]);
    assert_eq!(find_peak(&errors, 0), Some(((0.75f32).to_bits(), 2)));
    assert_eq!(find_peak(&errors, (0.5f32).to_bits()), Some(((0.75f32).to_bits(), 2)));
    assert_eq!(find_peak(&errors, (0.75f32).to_bits()), None);
}

#[test]
fn at_most_eight_diverging_pixels_are_listed() {
    let mut differences = vec![0.0f32; 30];
    for i in 0..15 {
        differences[2 * i] = 1.0;
    }
    let errors = keys(&differences);
    assert_eq!(count_diverging(&errors, TOLERANCE_BITS), 15);
    assert_eq!(first_diverging(&errors, TOLERANCE_BITS), vec![0, 2, 4, 6, 8, 10, 12, 14]);
    let few = keys(&[0.0, 2.0, f32::NAN, 0.0, 3.0]);
    assert_eq!(first_diverging(&few, TOLERANCE_BITS), vec![1, 2, 4]);
}

#[test]
fn the_worst_plane_is_kept_over_all_the_planes() {
    let mut worst = PlaneWorst::new();
    assert!(worst.pass());
    let mut first = vec![0.0f32; 3 * 12];
    first[12 + 7] = 0.5;
    worst.absorb(0, 2, 4, 12, &keys(&first));
    assert_eq!(
        worst,
        PlaneWorst { err: (0.5f32).to_bits(), scale: 0, plane: 6, x: 3, y: 1, n_div: 1 }
    );
    let mut same = vec![0.0f32; 3 * 12];
    same[0] = -0.5;
    worst.absorb(1, 0, 4, 12, &keys(&same));
    assert_eq!(
        worst,
        PlaneWorst { err: (0.5f32).to_bits(), scale: 0, plane: 6, x: 3, y: 1, n_div: 2 }
    );
    let mut larger = vec![0.0f32; 3 * 6];
    larger[2 * 6 + 4] = 0.75;
    larger[1] = 0.6;
    worst.absorb(2, 3, 3, 6, &keys(&larger));
    assert_eq!(
        worst,
        PlaneWorst { err: (0.75f32).to_bits(), scale: 2, plane: 11, x: 1, y: 1, n_div: 4 }
    );
    assert!(!worst.pass());
}

#[test]
fn the_planes_of_a_level_are_looked_at_in_order() {
    let none = keys(&[0.0; 12]);
    let mut off = [0.0f32; 12];
    off[4 + 3] = 0.5;
    for moment in 0..4 {
        let list = |k: usize| if k == moment { keys(&off) } else { none.clone() };
        let mut worst = PlaneWorst::new();
        worst.absorb_level(3, 2, 4, &list(0), &list(1), &list(2), &list(3));
        assert_eq!(
            worst,
            PlaneWorst {
                err: (0.5f32).to_bits(),
                scale: 3,
                plane: 4 + moment,
                x: 1,
                y: 1,
                n_div: 1,
            }
        );
    }
}

#[test]
fn offsets_have_a_column_and_a_row() {
    assert_eq!(pixel_of(0, 96), (0, 0));
    assert_eq!(pixel_of(95, 96), (95, 0));
    assert_eq!(pixel_of(96 * 3 + 5, 96), (5, 3));
}

#[test]
fn names_in_reports() {
    assert_eq!(Producer::Host.label(), "host-upload");
    assert_eq!(Producer::Relay1d.label(), "gpu-relay-1d");
    assert_eq!(Producer::Relay3d.label(), "gpu-relay-3d(ch=z)");
    assert_eq!(FeatMode::Full.label(), "feature-full");
    assert_eq!(FeatMode::BlurOnly.label(), "blur-only   ");
    assert_eq!(FeatMode::BlurF64.label(), "blur+f64    ");
    assert_eq!(verdict_label(true), "PASS");
    assert_eq!(verdict_label(false), "FAIL");
}

#[test]
fn a_probe_works_where_it_is_off_by_less_than_one() {
    let label = |recovered: f32| probe_label(error_key((recovered - 4096.0).to_bits()));
    assert_eq!(label(4096.0), "WORKS");
    assert_eq!(label(4095.5), "WORKS");
    assert_eq!(label(4097.0), "COLLAPSED");
    assert_eq!(label(0.0), "COLLAPSED");
    assert_eq!(label(f32::NAN), "COLLAPSED");
}

#[test]
fn scratch_is_zeroed_unless_the_setting_is_zero() {
    assert!(zero_fill_enabled(None));
    assert!(zero_fill_enabled(Some("1")));
    assert!(zero_fill_enabled(Some("")));
    assert!(zero_fill_enabled(Some("00")));
    assert!(zero_fill_enabled(Some("0 ")));
    assert!(zero_fill_enabled(Some("off")));
    assert!(!zero_fill_enabled(Some("0")));
}
