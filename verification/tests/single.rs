use polyfit::single::{widen_samples, widen_single};

fn same(bits: u64, expected: f64) -> bool {
    if expected.is_nan() {
        f64::from_bits(bits).is_nan()
    } else {
        bits == expected.to_bits()
    }
}

#[test]
fn widening_keeps_the_value() {
    let mut state = 5u64;
    for _ in 0..300000 {
        state = state
            .wrapping_mul(6364136223846793005)
            .wrapping_add(1442695040888963407);
        let bits = (state >> 32) as u32;
        assert!(same(widen_single(bits), f32::from_bits(bits) as f64), "{:x}", bits);
    }
}

#[test]
fn widening_of_edge_values() {
    let edges = [
        0u32,
        0x8000_0000,
        1,
        0x8000_0001,
        0x007f_ffff,
        0x0080_0000,
        0x7f7f_ffff,
        0x7f80_0000,
        0xff80_0000,
        0x7fc0_0000,
        0x3f80_0000,
        0xbf80_0000,
    ];
    for bits in edges {
        assert!(same(widen_single(bits), f32::from_bits(bits) as f64), "{:x}", bits);
    }
    for shift in 0..23 {
        let bits = 1u32 << shift;
        assert!(same(widen_single(bits), f32::from_bits(bits) as f64), "{:x}", bits);
    }
    assert_eq!(widen_single(0x3f80_0000), 1.0f64.to_bits());
    assert_eq!(widen_single(0xbf00_0000), (-0.5f64).to_bits());
}

#[test]
fn samples_are_widened_in_order() {
    let samples = [0.5f32, -0.25, 1.0, 0.0];
    let bits: Vec<u32> = samples.iter().map(|s| s.to_bits()).collect();
    let wide = widen_samples(&bits);
    let expected: Vec<u64> = samples.iter().map(|s| (*s as f64).to_bits()).collect();
    assert_eq!(wide, expected);
    assert_eq!(widen_samples(&[]).len(), 0);
}
