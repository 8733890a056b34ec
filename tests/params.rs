use espeak_provider::params::{engine_pitch, engine_rate, engine_volume, scale_unit};

#[test]
fn half_pitch_maps_to_25() {
    assert_eq!(engine_pitch(0.5f32.to_bits()), 25);
}

#[test]
fn unit_rate_maps_to_normal_rate() {
    assert_eq!(engine_rate(1.0f32.to_bits()), 175);
}

#[test]
fn unit_volume_maps_to_100() {
    assert_eq!(engine_volume(1.0f32.to_bits()), 100);
}

#[test]
fn halves_round_away_from_zero() {
    assert_eq!(engine_pitch(0.25f32.to_bits()), 13);
    assert_eq!(engine_pitch((-0.25f32).to_bits()), -13);
    assert_eq!(engine_rate(0.5f32.to_bits()), 88);
}

#[test]
fn other_values_map_exactly() {
    assert_eq!(engine_rate(2.0f32.to_bits()), 350);
    assert_eq!(engine_pitch(0.0f32.to_bits()), 0);
    assert_eq!(engine_pitch((-0.0f32).to_bits()), 0);
    assert_eq!(engine_volume(0.75f32.to_bits()), 75);
    assert_eq!(engine_volume(1.5f32.to_bits()), 150);
    assert_eq!(engine_pitch(1.0e-30f32.to_bits()), 0);
}

#[test]
fn out_of_range_values_saturate() {
    assert_eq!(engine_rate(1.0e30f32.to_bits()), i32::MAX);
    assert_eq!(engine_rate((-1.0e30f32).to_bits()), i32::MIN);
    assert_eq!(engine_pitch(f32::INFINITY.to_bits()), i32::MAX);
    assert_eq!(engine_pitch(f32::NEG_INFINITY.to_bits()), i32::MIN);
    assert_eq!(engine_pitch(f32::NAN.to_bits()), 0);
}

#[test]
fn scale_matches_float_rounding_on_samples() {
    let values = [0.1f32, 0.33, 0.999, 1.7, -0.6, 12.25, 3.0e6, 0.0001, 5.5];
    for v in values {
        let expected = ((v as f64) * 175.0).round() as i32;
        assert_eq!(scale_unit(v.to_bits(), 175), expected, "value {}", v);
    }
}
