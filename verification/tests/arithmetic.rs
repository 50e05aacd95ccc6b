use crabjuice::sample::Sample;

fn sample(x: f32) -> Sample {
    Sample::from_bits(x.to_bits())
}

fn interesting() -> Vec<u32> {
    let mut patterns = vec![
        0x0000_0000,
        0x8000_0000,
        0x0000_0001,
        0x8000_0001,
        0x0000_0002,
        0x007f_ffff,
        0x0080_0000,
        0x0080_0001,
        0x00ff_ffff,
        0x0100_0000,
        0x3f7f_ffff,
        0x3f80_0000,
        0x3f80_0001,
        0xbf80_0000,
        0x4b7f_ffff,
        0x4b80_0000,
        0x7f00_0000,
        0x7f7f_ffff,
        0xff7f_ffff,
        0x7f80_0000,
        0xff80_0000,
        0x7fc0_0000,
        0xffc0_0001,
    ];
    let mut seed: u32 = 0x1234_5678;
    for _ in 0..500 {
        seed ^= seed << 13;
        seed ^= seed >> 17;
        seed ^= seed << 5;
        patterns.push(seed);
        patterns.push((seed & 0x80ff_ffff) | 0x3f00_0000);
        patterns.push(seed & 0x80ff_ffff);
    }
    patterns
}

fn agrees(result: Sample, expected: f32) -> bool {
    if expected.is_nan() {
        result.is_undefined()
    } else {
        result.to_bits() == expected.to_bits()
    }
}

#[test]
fn arithmetic_agrees_with_the_processor() {
    let patterns = interesting();
    for &left in &patterns {
        for &right in &patterns {
            let (a, b) = (Sample::from_bits(left), Sample::from_bits(right));
            let (x, y) = (f32::from_bits(left), f32::from_bits(right));
            assert!(agrees(a.plus(b), x + y), "{x:e} + {y:e}");
            assert!(agrees(a.minus(b), x - y), "{x:e} - {y:e}");
            assert!(agrees(a.times(b), x * y), "{x:e} * {y:e}");
            assert!(agrees(a.over(b), x / y), "{x:e} / {y:e}");
            assert_eq!(a == b, x == y);
            assert_eq!(a < b, x < y);
            assert_eq!(a <= b, x <= y);
            assert_eq!(a > b, x > y);
            assert_eq!(a >= b, x >= y);
            if x.max(y) != 0.0 {
                assert!(agrees(a.max(b), x.max(y)));
            }
            if x <= y {
                assert!(agrees(sample(0.5).clamp(a, b), 0.5f32.clamp(x, y)));
            }
        }
    }
}

#[test]
fn whole_numbers_are_rounded_to_nearest_even() {
    let whole = [0, 1, 2, 4, 44_100, 0xff_ffff, 0x100_0000, 0x100_0001, 0x100_0003, u32::MAX];
    for n in whole {
        assert_eq!(Sample::from_whole(n).to_bits(), (n as f32).to_bits());
    }
    assert_eq!(Sample::from_whole(0x100_0001), sample(16_777_216.0));
    assert_eq!(Sample::from_whole(0x100_0003), sample(16_777_220.0));
    assert_eq!(Sample::zero().to_bits(), 0.0f32.to_bits());
    assert_eq!(Sample::one().to_bits(), 1.0f32.to_bits());
}

#[test]
fn signs_turn_and_kinds_are_told_apart() {
    for pattern in interesting() {
        let (a, x) = (Sample::from_bits(pattern), f32::from_bits(pattern));
        assert_eq!(a.is_finite(), x.is_finite());
        assert_eq!(a.is_undefined(), x.is_nan());
        assert!(agrees(a.negated(), -x));
        assert!(agrees(a.times(Sample::one()), x));
        assert!(agrees(a.minus(a), x - x));
    }
}
