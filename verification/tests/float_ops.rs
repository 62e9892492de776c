use voxxy::float::{Double, Single};

fn next(state: &mut u64) -> u64 {
    *state = state.wrapping_mul(6364136223846793005).wrapping_add(1442695040888963407);
    let x = *state;
    (x ^ (x >> 29)).wrapping_mul(0xbf58476d1ce4e5b9) ^ (x >> 33)
}

/// Bit patterns that are random, near each other, or at an edge of the format.
fn operand32(state: &mut u64) -> u32 {
    let r = next(state);
    let edges: [u32; 16] = [
        0, 0x8000_0000, 1, 0x8000_0001, 0x007f_ffff, 0x0080_0000, 0x7f7f_ffff, 0xff7f_ffff,
        0x7f80_0000, 0xff80_0000, 0x7fc0_0000, 0x3f80_0000, 0xbf80_0000, 0x3f7f_ffff,
        0x4b7f_ffff, 0x3400_0000,
    ];
    match r % 4 {
        0 => edges[(r >> 8) as usize % edges.len()],
        1 => (r >> 16) as u32 & 0x807f_ffff | (((r >> 50) as u32 % 60 + 100) << 23),
        _ => (r >> 16) as u32,
    }
}

fn same32(got: Single, want: f32) -> bool {
    let g = f32::from_bits(got.to_bits());
    if want.is_nan() { g.is_nan() } else { g.to_bits() == want.to_bits() }
}

fn same64(got: Double, want: f64) -> bool {
    let g = f64::from_bits(got.to_bits());
    if want.is_nan() { g.is_nan() } else { g.to_bits() == want.to_bits() }
}

#[test]
fn single_arithmetic_matches_the_machine() {
    let mut state: u64 = 7;
    for _ in 0..400_000 {
        let x = operand32(&mut state);
        let y = operand32(&mut state);
        let (fx, fy) = (f32::from_bits(x), f32::from_bits(y));
        let (sx, sy) = (Single::from_bits(x), Single::from_bits(y));
        assert!(same32(sx.add(sy), fx + fy), "{fx:e} + {fy:e}");
        assert!(same32(sx.sub(sy), fx - fy), "{fx:e} - {fy:e}");
        assert!(same32(sx.mul(sy), fx * fy), "{fx:e} * {fy:e}");
        assert!(same32(sx.div(sy), fx / fy), "{fx:e} / {fy:e}");
        assert!(same32(sx.sqrt(), fx.sqrt()), "sqrt {fx:e}");
        assert!(same32(sx.neg(), -fx));
        assert!(same32(sx.abs(), fx.abs()));
        assert_eq!(sx.lt(sy), fx < fy, "{fx:e} < {fy:e}");
        assert_eq!(sx.le(sy), fx <= fy, "{fx:e} <= {fy:e}");
        assert_eq!(sx.is_finite(), fx.is_finite());
        assert!(same64(Double::from_single(sx), fx as f64));
    }
}

#[test]
fn neighbouring_singles_cancel_as_the_machine_does() {
    let mut state: u64 = 99;
    for _ in 0..200_000 {
        let x = operand32(&mut state);
        let y = (x ^ 0x8000_0000).wrapping_add((next(&mut state) % 9) as u32).wrapping_sub(4);
        let (fx, fy) = (f32::from_bits(x), f32::from_bits(y));
        assert!(same32(Single::from_bits(x).add(Single::from_bits(y)), fx + fy), "{fx:e} {fy:e}");
    }
}

#[test]
fn double_arithmetic_matches_the_machine() {
    let mut state: u64 = 3;
    for i in 0..300_000u64 {
        let mut x = next(&mut state);
        let mut y = next(&mut state);
        if i % 3 == 0 {
            x = x & 0x800f_ffff_ffff_ffff | ((x >> 52) % 120 + 960) << 52;
            y = y & 0x800f_ffff_ffff_ffff | ((y >> 52) % 120 + 960) << 52;
        }
        let (fx, fy) = (f64::from_bits(x), f64::from_bits(y));
        let (dx, dy) = (Double::from_bits(x), Double::from_bits(y));
        assert!(same64(dx.add(dy), fx + fy), "{fx:e} + {fy:e}");
        assert!(same64(dx.sub(dy), fx - fy), "{fx:e} - {fy:e}");
        assert!(same64(dx.mul(dy), fx * fy), "{fx:e} * {fy:e}");
        assert_eq!(dx.lt(dy), fx < fy);
        assert_eq!(dx.le(dy), fx <= fy);
    }
}

#[test]
fn bit_patterns_come_back() {
    let mut state: u64 = 5;
    for _ in 0..100_000 {
        let x = operand32(&mut state);
        if !f32::from_bits(x).is_nan() {
            assert_eq!(Single::from_bits(x).to_bits(), x);
        }
        let y = next(&mut state);
        if !f64::from_bits(y).is_nan() {
            assert_eq!(Double::from_bits(y).to_bits(), y);
        }
    }
    assert_eq!(Single::from_bits(0x7f80_0001).to_bits(), 0x7fc0_0000);
    assert_eq!(Double::from_bits(0xfff0_0000_0000_0001).to_bits(), 0x7ff8_0000_0000_0000);
}

#[test]
fn whole_numbers_are_converted_as_the_machine_does() {
    let mut state: u64 = 11;
    for i in 0..100_000u64 {
        let n = next(&mut state) >> (i % 64);
        assert!(same32(Single::from_whole(n), n as f32), "{n}");
        assert!(same64(Double::from_whole(n), n as f64), "{n}");
    }
    assert!(same32(Single::from_whole(0), 0.0));
    assert!(same32(Single::from_whole(u64::MAX), u64::MAX as f32));
    assert!(same64(Double::from_whole(u64::MAX), u64::MAX as f64));
}

#[test]
fn fractions_are_the_literals() {
    assert!(same32(Single::fraction(54, 100), 0.54));
    assert!(same32(Single::fraction(46, 100), 0.46));
    assert!(same32(Single::fraction(97, 100), 0.97));
    assert!(same32(Single::fraction(15, 100), 0.15));
    assert!(same32(Single::fraction(1, 0), f32::INFINITY));
    assert!(same32(Single::zero(), 0.0));
}

#[test]
fn sums_do_not_depend_on_the_order_and_keep_it() {
    let mut state: u64 = 21;
    for _ in 0..100_000 {
        let a = Single::from_bits(operand32(&mut state));
        let b = Single::from_bits(operand32(&mut state));
        let c = Single::from_bits(operand32(&mut state));
        assert_eq!(a.add(b).to_bits(), b.add(a).to_bits());
        assert_eq!(a.mul(b).to_bits(), b.mul(a).to_bits());
        if a.le(b) && !f32::from_bits(a.add(c).to_bits()).is_nan()
            && !f32::from_bits(b.add(c).to_bits()).is_nan()
        {
            assert!(a.add(c).le(b.add(c)));
        }
        if a.is_finite() {
            assert_eq!(a.sub(a).to_bits(), 0);
        }
    }
}
