use sonora::conversion::{float_s16_to_float, float_s16_to_s16, float_to_float_s16};
use sonora::sample::Sample;

fn s(v: f32) -> Sample {
    Sample::from_bits(v.to_bits())
}

#[test]
fn float_becomes_float_s16() {
    for (float, s16) in [
        (0.0f32, 0.0f32),
        (0.5, 16384.0),
        (1.0, 32768.0),
        (-1.0, -32768.0),
        (2.0, 32768.0),
        (-3.5, -32768.0),
        (f32::INFINITY, 32768.0),
    ] {
        assert_eq!(float_to_float_s16(s(float)), s(s16));
    }
}

#[test]
fn float_s16_becomes_float() {
    for (s16, float) in [
        (0.0f32, 0.0f32),
        (16384.0, 0.5),
        (32768.0, 1.0),
        (-32768.0, -1.0),
        (40000.0, 1.0),
        (-1.0, -1.0 / 32768.0),
    ] {
        assert_eq!(float_s16_to_float(s(s16)), s(float));
    }
}

#[test]
fn float_s16_is_rounded() {
    for (v, rounded) in [
        (0.0f32, 0i16),
        (0.4, 0),
        (0.5, 1),
        (-0.5, -1),
        (-1.4, -1),
        (-1.5, -2),
        (32766.5, 32767),
        (32767.9, 32767),
        (-32768.4, -32768),
        (1e9, 32767),
        (f32::NEG_INFINITY, -32768),
        (f32::NAN, 0),
    ] {
        assert_eq!(float_s16_to_s16(s(v)), rounded, "{v}");
    }
}

#[test]
fn every_s16_sample_comes_back() {
    for v in i16::MIN..=i16::MAX {
        let sample = Sample::from_i32(v as i32);
        assert_eq!(float_s16_to_s16(sample), v);
        assert_eq!(float_to_float_s16(float_s16_to_float(sample)), sample);
    }
}

#[test]
fn least_sample_wins() {
    for (a, b, least) in [
        (1.0f32, 2.0f32, 1.0f32),
        (2.0, -1.0, -1.0),
        (f32::NAN, 3.0, 3.0),
        (3.0, f32::NAN, 3.0),
        (f32::NEG_INFINITY, 0.0, f32::NEG_INFINITY),
    ] {
        assert_eq!(s(a).min(s(b)), s(least));
    }
}
