use sonora::sample::Sample;

fn s(v: f32) -> Sample {
    Sample::from_bits(v.to_bits())
}

fn f(v: Sample) -> f32 {
    f32::from_bits(v.to_bits())
}

#[test]
fn arithmetic_agrees_with_hardware() {
    let mut state: u64 = 0x1234_5678_9abc_def1;
    let mut next = || {
        state ^= state << 13;
        state ^= state >> 7;
        state ^= state << 17;
        state
    };
    for round in 0..20000u32 {
        let r = next();
        let (mut x, mut y) = (r as u32, (r >> 32) as u32);
        if round % 3 == 0 {
            // Close exponents, so that sums cancel and round.
            y = (y & 0x807f_ffff) | (x & 0x7f80_0000);
        }
        if round % 7 == 0 {
            x &= 0x80ff_ffff;
        }
        let (a, b) = (f32::from_bits(x), f32::from_bits(y));
        for (ours, theirs) in [
            (s(a).plus(s(b)), a + b),
            (s(a).minus(s(b)), a - b),
            (s(a).times(s(b)), a * b),
            (s(a).over(s(b)), a / b),
        ] {
            if theirs.is_nan() {
                assert!(f(ours).is_nan());
            } else {
                assert_eq!(ours.to_bits(), theirs.to_bits(), "{a} {b}");
            }
        }
        assert_eq!(s(a).less_than(s(b)), a < b);
        assert_eq!(s(a).at_most(s(b)), a <= b);
        assert_eq!(s(a).to_i16(), a as i16);
        assert_eq!(f(Sample::from_i32(x as i32)), x as i32 as f32);
        let n = (r >> (1 + round % 40)) as usize;
        assert_eq!(f(Sample::from_count(n)), n as f32);
        if !a.is_nan() && !b.is_nan() && a != b {
            assert_eq!(s(a).min(s(b)), s(a.min(b)));
        }
    }
}
