use photometric::interp::interp_bracket;
use photometric::number::{f32_bits_is_nan, f32_bits_le, f32_bits_to_i32};

fn samples() -> Vec<f32> {
    vec![
        0.0,
        -0.0,
        0.25,
        0.5,
        0.999_999_9,
        1.0,
        1.5,
        -1.5,
        2.999_999_8,
        90.0,
        180.0,
        -180.0,
        12_345.678,
        16_777_217.0,
        2_147_483_520.0,
        2_147_483_648.0,
        -2_147_483_648.0,
        -2_147_483_904.0,
        1.0e30,
        -1.0e30,
        f32::MIN_POSITIVE,
        1.0e-40,
        -1.0e-40,
        f32::MAX,
        f32::MIN,
        f32::INFINITY,
        f32::NEG_INFINITY,
        f32::NAN,
        -f32::NAN,
    ]
}

#[test]
fn truncation_agrees_with_as_i32() {
    for v in samples() {
        assert_eq!(f32_bits_to_i32(v.to_bits()), v as i32, "{v}");
    }
}

#[test]
fn comparison_agrees_with_f32_le() {
    let s = samples();
    for &a in &s {
        for &b in &s {
            assert_eq!(f32_bits_le(a.to_bits(), b.to_bits()), a <= b, "{a} <= {b}");
        }
    }
}

#[test]
fn nan_is_recognised() {
    for v in samples() {
        assert_eq!(f32_bits_is_nan(v.to_bits()), v.is_nan(), "{v}");
    }
}

#[test]
fn the_bits_of_the_symmetry_bounds() {
    assert_eq!(180.0f32.to_bits(), 0x4334_0000);
    assert_eq!(90.0f32.to_bits(), 0x42B4_0000);
}

fn bits(v: &[f32]) -> Vec<u32> {
    v.iter().map(|x| x.to_bits()).collect()
}

#[test]
fn bracket_of_short_tables() {
    assert_eq!(interp_bracket(&[], 5.0f32.to_bits()), (0, 0));
    assert_eq!(interp_bracket(&bits(&[10.0]), 5.0f32.to_bits()), (0, 0));
}

#[test]
fn bracket_clamps_to_the_ends() {
    let a = bits(&[0.0, 45.0, 90.0, 180.0]);
    assert_eq!(interp_bracket(&a, (-5.0f32).to_bits()), (0, 0));
    assert_eq!(interp_bracket(&a, 0.0f32.to_bits()), (0, 0));
    assert_eq!(interp_bracket(&a, 180.0f32.to_bits()), (3, 3));
    assert_eq!(interp_bracket(&a, 270.0f32.to_bits()), (3, 3));
}

#[test]
fn bracket_finds_the_neighbouring_angles() {
    let a = bits(&[0.0, 45.0, 90.0, 135.0, 180.0]);
    assert_eq!(interp_bracket(&a, 10.0f32.to_bits()), (0, 1));
    assert_eq!(interp_bracket(&a, 45.0f32.to_bits()), (1, 2));
    assert_eq!(interp_bracket(&a, 100.0f32.to_bits()), (2, 3));
    assert_eq!(interp_bracket(&a, 179.9f32.to_bits()), (3, 4));
}

#[test]
fn bracket_of_repeated_angles_takes_the_last_at_most_the_target() {
    let a = bits(&[0.0, 5.0, 5.0, 5.0, 10.0]);
    assert_eq!(interp_bracket(&a, 5.0f32.to_bits()), (3, 4));
}

#[test]
fn bracket_of_nan_target() {
    let a = bits(&[0.0, 45.0, 90.0]);
    // No comparison with NaN holds: the bisection keeps moving the upper end down.
    assert_eq!(interp_bracket(&a, f32::NAN.to_bits()), (0, 1));
}
