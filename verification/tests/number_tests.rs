use progred::number::{partial_max, partial_min};

#[test]
fn coarse_precision_grows_horizontal_sensitivity_sublinearly() {
    let horizontal_scale = |gain: f64| gain / gain.max(1.0).cbrt();

    assert_eq!(horizontal_scale(0.01), 0.01);
    assert_eq!(horizontal_scale(1.0), 1.0);
    assert!((horizontal_scale(1_000.0) - 100.0).abs() < 1e-12);
}

#[test]
fn partial_extremes_keep_the_left_value_unless_the_right_one_wins() {
    assert_eq!(partial_max(3u64, 5), 5);
    assert_eq!(partial_max(5u64, 3), 5);
    assert_eq!(partial_min(3u64, 5), 3);
    assert_eq!(partial_min(5u64, 3), 3);
    assert_eq!(partial_max(1.0f64, f64::NAN), 1.0);
    assert_eq!(partial_min(1.0f64, f64::NAN), 1.0);
}
