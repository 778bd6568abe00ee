use colr_paint::binary32::Binary32;

fn next(seed: &mut u64) -> u64 {
    *seed = seed
        .wrapping_mul(6364136223846793005)
        .wrapping_add(1442695040888963407);
    *seed >> 32
}

/// Bit patterns of every class, and pairs that are close to each other.
fn sample(seed: &mut u64) -> u32 {
    let raw = next(seed) as u32;
    match next(seed) % 8 {
        0 => raw,
        1 => raw & 0x80ff_ffff,
        2 => (raw & 0x807f_ffff) | 0x3f80_0000,
        3 => (raw & 0x80ff_ffff).wrapping_add(0x3f00_0000),
        4 => ((raw % 512) as f32 / 255.0).to_bits(),
        5 => ((raw % 2000) as f32 - 1000.0).to_bits(),
        6 => (((raw % 4001) as f32 - 2000.0) / 4.0).to_bits(),
        _ => [
            0u32, 0x8000_0000, 1, 0x8000_0001, 0x007f_ffff, 0x0080_0000, 0x7f7f_ffff, 0x7f80_0000,
            0xff80_0000, 0x7fc0_0000, 0x3f80_0000, 0xbf80_0000, 0x3f00_0000, 0x4b00_0000,
            0x4aff_ffff, 0x3eff_ffff,
        ][(raw % 16) as usize],
    }
}

fn same(ours: Binary32, theirs: f32, what: &str, a: u32, b: u32) {
    if theirs.is_nan() {
        assert!(ours.is_nan(), "{what} {a:08x} {b:08x}: {:08x}", ours.0);
    } else {
        assert_eq!(ours.0, theirs.to_bits(), "{what} {a:08x} {b:08x}");
    }
}

#[test]
fn arithmetic_agrees_with_the_machine() {
    let mut seed = 1u64;
    for _ in 0..200000 {
        let a = sample(&mut seed);
        let b = sample(&mut seed);
        let (x, y) = (Binary32(a), Binary32(b));
        let (f, g) = (f32::from_bits(a), f32::from_bits(b));
        same(x.add(y), f + g, "add", a, b);
        same(x.sub(y), f - g, "sub", a, b);
        same(x.mul(y), f * g, "mul", a, b);
        same(x.div(y), f / g, "div", a, b);
    }
}

#[test]
fn unary_functions_agree_with_the_machine() {
    let mut seed = 7u64;
    for _ in 0..200000 {
        let a = sample(&mut seed);
        let x = Binary32(a);
        let f = f32::from_bits(a);
        same(x.neg(), -f, "neg", a, 0);
        same(x.abs(), f.abs(), "abs", a, 0);
        same(x.sqrt(), f.sqrt(), "sqrt", a, 0);
        same(x.floor(), f.floor(), "floor", a, 0);
        same(x.ceil(), f.ceil(), "ceil", a, 0);
        same(x.round(), f.round(), "round", a, 0);
        assert_eq!(x.to_u8(), f as u8);
        assert_eq!(x.to_u32(), f as u32);
        assert_eq!(x.to_usize(), f as usize);
        assert_eq!(x.to_i32(), f as i32);
        assert_eq!(x.is_nan(), f.is_nan());
        assert_eq!(x.is_finite(), f.is_finite());
        let n = next(&mut seed) | (next(&mut seed) << 32);
        same(Binary32::from_integer(n), n as f32, "from", 0, 0);
    }
}

#[test]
fn comparisons_agree_with_the_machine() {
    let mut seed = 3u64;
    for _ in 0..200000 {
        let a = sample(&mut seed);
        let b = sample(&mut seed);
        let (x, y) = (Binary32(a), Binary32(b));
        let (f, g) = (f32::from_bits(a), f32::from_bits(b));
        assert_eq!(x.less(y), f < g);
        assert_eq!(x.at_most(y), f <= g);
        assert_eq!(x.equals(y), f == g);
        if f != g {
            same(x.min(y), f.min(g), "min", a, b);
            same(x.max(y), f.max(g), "max", a, b);
        }
        if f <= g {
            same(Binary32(a ^ 0x0123_4567).clamp(x, y), f32::from_bits(a ^ 0x0123_4567).clamp(f, g), "clamp", a, b);
        }
    }
}
