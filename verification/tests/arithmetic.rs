use flowfield::Single;

fn agree(ours: Single, native: f32) -> bool {
    let got = f32::from_bits(ours.to_bits());
    if native.is_nan() {
        got.is_nan()
    } else {
        got.to_bits() == native.to_bits()
    }
}

fn next(state: &mut u64) -> u32 {
    *state = state.wrapping_mul(6364136223846793005).wrapping_add(1442695040888963407);
    (*state >> 32) as u32
}

/// A pattern whose exponent lies within `reach` of that of `a`.
fn neighbour(state: &mut u64, a: u32, reach: u32) -> u32 {
    let raw = next(state);
    let exponent = (a >> 23) & 0xFF;
    let shift = next(state) % (2 * reach + 1);
    let moved = (exponent + shift).saturating_sub(reach).min(255);
    (raw & 0x807F_FFFF) | (moved << 23)
}

const CORNERS: [u32; 30] = [
    0x0000_0000,
    0x8000_0000,
    0x0000_0001,
    0x8000_0001,
    0x0000_0002,
    0x0000_0003,
    0x007F_FFFF,
    0x0080_0000,
    0x0080_0001,
    0x00FF_FFFF,
    0x0100_0000,
    0x3F80_0000,
    0xBF80_0000,
    0x3F7F_FFFF,
    0x3F80_0001,
    0x4000_0000,
    0x3F00_0000,
    0x7F7F_FFFF,
    0xFF7F_FFFF,
    0x7F00_0000,
    0x7F80_0000,
    0xFF80_0000,
    0x7FC0_0000,
    0x7F80_0001,
    0xFFC0_0000,
    0x4B00_0000,
    0x4B80_0000,
    0x3400_0000,
    0x3380_0000,
    0x7380_0000,
];

#[test]
fn mul_agrees_with_the_machine_on_corner_patterns() {
    for &a in CORNERS.iter() {
        for &b in CORNERS.iter() {
            let ours = Single::from_bits(a).mul(Single::from_bits(b));
            let native = f32::from_bits(a) * f32::from_bits(b);
            assert!(agree(ours, native), "{:#x} * {:#x}", a, b);
        }
    }
}

#[test]
fn mul_agrees_with_the_machine_on_scattered_patterns() {
    let mut state: u64 = 1;
    for _ in 0..200000 {
        let a = next(&mut state);
        let b = next(&mut state);
        let ours = Single::from_bits(a).mul(Single::from_bits(b));
        let native = f32::from_bits(a) * f32::from_bits(b);
        assert!(agree(ours, native), "{:#x} * {:#x}", a, b);
    }
}

#[test]
fn mul_agrees_with_the_machine_near_the_ends_of_the_range() {
    let mut state: u64 = 2;
    for _ in 0..200000 {
        let a = next(&mut state);
        // the product's exponent falls near the smallest or the largest one
        let exponent = (a >> 23) & 0xFF;
        let target = if next(&mut state) % 2 == 0 { 127 } else { 381 };
        let other = (target as i64 - exponent as i64 + (next(&mut state) % 9) as i64 - 4).clamp(0, 254) as u32;
        let b = (next(&mut state) & 0x807F_FFFF) | (other << 23);
        let ours = Single::from_bits(a).mul(Single::from_bits(b));
        let native = f32::from_bits(a) * f32::from_bits(b);
        assert!(agree(ours, native), "{:#x} * {:#x}", a, b);
    }
}

#[test]
fn div_agrees_with_the_machine_on_corner_patterns() {
    for &a in CORNERS.iter() {
        for &b in CORNERS.iter() {
            let ours = Single::from_bits(a).div(Single::from_bits(b));
            let native = f32::from_bits(a) / f32::from_bits(b);
            assert!(agree(ours, native), "{:#x} / {:#x}", a, b);
        }
    }
}

#[test]
fn div_agrees_with_the_machine_on_scattered_patterns() {
    let mut state: u64 = 3;
    for _ in 0..200000 {
        let a = next(&mut state);
        let b = next(&mut state);
        let ours = Single::from_bits(a).div(Single::from_bits(b));
        let native = f32::from_bits(a) / f32::from_bits(b);
        assert!(agree(ours, native), "{:#x} / {:#x}", a, b);
    }
}

#[test]
fn div_agrees_with_the_machine_near_the_ends_of_the_range() {
    let mut state: u64 = 4;
    for _ in 0..200000 {
        let a = next(&mut state);
        let exponent = (a >> 23) & 0xFF;
        let target: i64 = if next(&mut state) % 2 == 0 { -127 } else { 127 };
        let other = (exponent as i64 - target + (next(&mut state) % 9) as i64 - 4).clamp(0, 254) as u32;
        let b = (next(&mut state) & 0x807F_FFFF) | (other << 23);
        let ours = Single::from_bits(a).div(Single::from_bits(b));
        let native = f32::from_bits(a) / f32::from_bits(b);
        assert!(agree(ours, native), "{:#x} / {:#x}", a, b);
    }
}

#[test]
fn add_and_sub_agree_with_the_machine_on_corner_patterns() {
    for &a in CORNERS.iter() {
        for &b in CORNERS.iter() {
            let ours = Single::from_bits(a).add(Single::from_bits(b));
            let native = f32::from_bits(a) + f32::from_bits(b);
            assert!(agree(ours, native), "{:#x} + {:#x}", a, b);
            let ours = Single::from_bits(a).sub(Single::from_bits(b));
            let native = f32::from_bits(a) - f32::from_bits(b);
            assert!(agree(ours, native), "{:#x} - {:#x}", a, b);
        }
    }
}

#[test]
fn add_agrees_with_the_machine_on_scattered_patterns() {
    let mut state: u64 = 5;
    for _ in 0..200000 {
        let a = next(&mut state);
        let b = next(&mut state);
        let ours = Single::from_bits(a).add(Single::from_bits(b));
        let native = f32::from_bits(a) + f32::from_bits(b);
        assert!(agree(ours, native), "{:#x} + {:#x}", a, b);
    }
}

#[test]
fn add_agrees_with_the_machine_on_neighbouring_exponents() {
    let mut state: u64 = 6;
    for _ in 0..300000 {
        let a = next(&mut state);
        let b = neighbour(&mut state, a, 3);
        let ours = Single::from_bits(a).add(Single::from_bits(b));
        let native = f32::from_bits(a) + f32::from_bits(b);
        assert!(agree(ours, native), "{:#x} + {:#x}", a, b);
    }
}

#[test]
fn add_agrees_with_the_machine_where_one_operand_is_far_smaller() {
    let mut state: u64 = 7;
    for _ in 0..300000 {
        let a = next(&mut state);
        let b = neighbour(&mut state, a, 45);
        let ours = Single::from_bits(a).add(Single::from_bits(b));
        let native = f32::from_bits(a) + f32::from_bits(b);
        assert!(agree(ours, native), "{:#x} + {:#x}", a, b);
    }
}

#[test]
fn sub_agrees_with_the_machine_on_neighbouring_exponents() {
    let mut state: u64 = 8;
    for _ in 0..300000 {
        let a = next(&mut state);
        let b = neighbour(&mut state, a, 30);
        let ours = Single::from_bits(a).sub(Single::from_bits(b));
        let native = f32::from_bits(a) - f32::from_bits(b);
        assert!(agree(ours, native), "{:#x} - {:#x}", a, b);
    }
}

#[test]
fn sub_of_a_number_from_itself_is_positive_zero() {
    let mut state: u64 = 9;
    for _ in 0..1000 {
        let a = next(&mut state) & 0x7F7F_FFFF;
        let ours = Single::from_bits(a).sub(Single::from_bits(a));
        assert_eq!(ours.to_bits(), 0);
    }
}

#[test]
fn sqrt_agrees_with_the_machine_on_corner_patterns() {
    for &a in CORNERS.iter() {
        let ours = Single::from_bits(a).sqrt();
        let native = f32::from_bits(a).sqrt();
        assert!(agree(ours, native), "sqrt {:#x}", a);
    }
}

#[test]
fn sqrt_agrees_with_the_machine_on_scattered_patterns() {
    let mut state: u64 = 10;
    for _ in 0..300000 {
        let a = next(&mut state) & 0x7FFF_FFFF;
        let ours = Single::from_bits(a).sqrt();
        let native = f32::from_bits(a).sqrt();
        assert!(agree(ours, native), "sqrt {:#x}", a);
    }
}

#[test]
fn sqrt_of_whole_squares_is_exact() {
    for i in 0..4096u32 {
        let square = (i * i) as f32;
        let ours = Single::from_bits(square.to_bits()).sqrt();
        assert_eq!(f32::from_bits(ours.to_bits()), i as f32);
    }
}

#[test]
fn neg_flips_the_sign_bit_of_every_pattern() {
    let mut state: u64 = 11;
    for _ in 0..1000 {
        let a = next(&mut state);
        assert_eq!(Single::from_bits(a).neg().to_bits(), a ^ 0x8000_0000);
        assert_eq!(Single::from_bits(a).neg().to_bits(), (-f32::from_bits(a)).to_bits());
    }
}

#[test]
fn invalid_operations_give_the_one_quiet_pattern() {
    let zero = Single::from_bits(0);
    let inf = Single::from_bits(0x7F80_0000);
    let neg_inf = Single::from_bits(0xFF80_0000);
    assert_eq!(zero.div(zero).to_bits(), 0x7FC0_0000);
    assert_eq!(inf.div(inf).to_bits(), 0x7FC0_0000);
    assert_eq!(zero.mul(inf).to_bits(), 0x7FC0_0000);
    assert_eq!(inf.add(neg_inf).to_bits(), 0x7FC0_0000);
    assert_eq!(inf.sub(inf).to_bits(), 0x7FC0_0000);
    assert_eq!(Single::from_bits(0xBF80_0000).sqrt().to_bits(), 0x7FC0_0000);
}

#[test]
fn mul_of_whole_numbers_rounds_ties_to_even() {
    // (2^12 + 1)^2 is 2^24 + 2^13 + 1, halfway between two neighbours
    let ours = Single::from_bits(4097.0f32.to_bits()).mul(Single::from_bits(4097.0f32.to_bits()));
    assert_eq!(f32::from_bits(ours.to_bits()), 16785408.0);
    let mut state: u64 = 12;
    for _ in 0..300000 {
        let p = (next(&mut state) % 0x4000) as f32;
        let q = (next(&mut state) % 0x4000) as f32;
        let ours = Single::from_bits(p.to_bits()).mul(Single::from_bits(q.to_bits()));
        assert!(agree(ours, p * q), "{} * {}", p, q);
    }
}

#[test]
fn add_of_whole_numbers_rounds_ties_to_even() {
    let one = Single::from_bits(1.0f32.to_bits());
    let ours = Single::from_bits(16777216.0f32.to_bits()).add(one);
    assert_eq!(f32::from_bits(ours.to_bits()), 16777216.0);
    let ours = Single::from_bits(16777218.0f32.to_bits()).add(one);
    assert_eq!(f32::from_bits(ours.to_bits()), 16777220.0);
    let ours = Single::from_bits(16777218.0f32.to_bits()).sub(one);
    assert_eq!(f32::from_bits(ours.to_bits()), 16777216.0);
    let mut state: u64 = 13;
    for _ in 0..300000 {
        let p = (next(&mut state) % 0x400_0000) as f32;
        let q = (next(&mut state) % 0x400_0000) as f32;
        let ours = Single::from_bits(p.to_bits()).add(Single::from_bits(q.to_bits()));
        assert!(agree(ours, p + q), "{} + {}", p, q);
        let ours = Single::from_bits(p.to_bits()).sub(Single::from_bits(q.to_bits()));
        assert!(agree(ours, p - q), "{} - {}", p, q);
    }
}

#[test]
fn arithmetic_below_the_normal_range_agrees_with_the_machine() {
    let mut state: u64 = 14;
    for _ in 0..300000 {
        let a = next(&mut state) & 0x80FF_FFFF;
        let b = next(&mut state) & 0x80FF_FFFF;
        let (x, y) = (Single::from_bits(a), Single::from_bits(b));
        let (p, q) = (f32::from_bits(a), f32::from_bits(b));
        assert!(agree(x.add(y), p + q), "{:#x} + {:#x}", a, b);
        assert!(agree(x.sub(y), p - q), "{:#x} - {:#x}", a, b);
        assert!(agree(x.div(y), p / q), "{:#x} / {:#x}", a, b);
        assert!(agree(x.sqrt(), p.sqrt()), "sqrt {:#x}", a);
        // a factor near 2^126 brings the product back into range
        let big = (next(&mut state) & 0x807F_FFFF) | (0x7D00_0000 + ((next(&mut state) % 4) << 23));
        assert!(agree(x.mul(Single::from_bits(big)), p * f32::from_bits(big)), "{:#x} * {:#x}", a, big);
        // a factor near one half leaves it below
        let half = (next(&mut state) & 0x807F_FFFF) | 0x3F00_0000;
        assert!(agree(x.mul(Single::from_bits(half)), p * f32::from_bits(half)), "{:#x} * {:#x}", a, half);
    }
}

#[test]
fn sqrt_agrees_with_the_machine_on_a_sweep_of_significands() {
    // every 16th significand under an even and an odd exponent
    let mut fraction: u32 = 0;
    while fraction < 0x80_0000 {
        for &exponent in [0x3F80_0000u32, 0x4000_0000].iter() {
            let a = exponent | fraction;
            assert!(agree(Single::from_bits(a).sqrt(), f32::from_bits(a).sqrt()), "sqrt {:#x}", a);
        }
        fraction += 16;
    }
}

#[test]
fn div_agrees_with_the_machine_on_small_whole_numbers() {
    for p in 1..600u32 {
        for q in 1..600u32 {
            let ours = Single::from_bits((p as f32).to_bits()).div(Single::from_bits((q as f32).to_bits()));
            assert!(agree(ours, p as f32 / q as f32), "{} / {}", p, q);
        }
    }
}
