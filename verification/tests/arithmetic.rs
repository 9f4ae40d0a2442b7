use micapp::double::Double;
use micapp::single::Single;

fn s(x: f32) -> Single {
    Single::from_bits(x.to_bits())
}

fn f(x: Single) -> f32 {
    f32::from_bits(x.to_bits())
}

fn next(state: &mut u64) -> u64 {
    *state ^= *state << 13;
    *state ^= *state >> 7;
    *state ^= *state << 17;
    *state
}

fn same(a: Single, b: f32) -> bool {
    if b.is_nan() {
        f(a).is_nan()
    } else {
        a.to_bits() == b.to_bits()
    }
}

fn check_pair(x: u32, y: u32) {
    let a = f32::from_bits(x);
    let b = f32::from_bits(y);
    let p = Single::from_bits(x);
    let q = Single::from_bits(y);
    assert!(same(p.plus(q), a + b), "{a:e} + {b:e}");
    assert!(same(p.minus(q), a - b), "{a:e} - {b:e}");
    assert!(same(p.times(q), a * b), "{a:e} * {b:e}");
    assert!(same(p.over(q), a / b), "{a:e} / {b:e}");
    assert_eq!(p.lt(q), a < b);
    assert_eq!(p.gt(q), a > b);
    assert_eq!(p.le(q), a <= b);
    assert_eq!(p.ge(q), a >= b);
    assert!(same(p.abs(), a.abs()));
    assert!(same(p.negated(), -a));
    assert_eq!(p.to_usize(), a as usize);
}

#[test]
fn single_arithmetic_matches_the_machine_on_random_bits() {
    let mut state = 0x9e37_79b9_7f4a_7c15u64;
    for _ in 0..200_000 {
        let r = next(&mut state);
        check_pair(r as u32, (r >> 32) as u32);
    }
}

#[test]
fn single_arithmetic_matches_the_machine_on_close_exponents() {
    let mut state = 0x1234_5678_9abc_def1u64;
    for _ in 0..200_000 {
        let r = next(&mut state);
        let x = r as u32;
        let spread = ((r >> 32) as u32 % 61) << 23;
        let y = (x & 0x8000_0000) ^ ((x & 0x7fff_ffff).wrapping_sub(spread) & 0x7fff_ffff) ^ ((r >> 40) as u32 & 0x8000_ffff);
        check_pair(x, y);
    }
}

#[test]
fn single_arithmetic_matches_the_machine_on_special_values() {
    let special = [
        0u32, 1, 2, 0x007f_ffff, 0x0080_0000, 0x0080_0001, 0x00ff_ffff, 0x0100_0000, 0x3f80_0000,
        0x3f7f_ffff, 0x3f80_0001, 0x4b80_0000, 0x4b7f_ffff, 0x7f7f_ffff, 0x7f00_0000, 0x7f80_0000,
        0x7fc0_0000, 0x7f80_0001, 0x3300_0000, 0x3380_0000, 0x3380_0001,
    ];
    for x in special {
        for y in special {
            for sx in [0u32, 0x8000_0000] {
                for sy in [0u32, 0x8000_0000] {
                    check_pair(x | sx, y | sy);
                }
            }
        }
    }
}

#[test]
fn whole_numbers_convert_as_on_the_machine() {
    let mut state = 0xdead_beef_1234_5678u64;
    for _ in 0..100_000 {
        let v = next(&mut state) as u32;
        assert_eq!(Single::from_u32(v).to_bits(), (v as f32).to_bits());
        assert_eq!(Double::from_u32(v).to_bits(), (v as f64).to_bits());
    }
    assert_eq!(s(3.99).to_usize(), 3);
    assert_eq!(s(-1.0).to_usize(), 0);
    assert_eq!(s(1e30).to_usize(), usize::MAX);
}

#[test]
fn double_arithmetic_matches_the_machine() {
    let mut state = 0x0123_4567_89ab_cdefu64;
    for i in 0..200_000u64 {
        let x = next(&mut state);
        let y = if i % 2 == 0 { next(&mut state) } else { x.wrapping_sub((next(&mut state) % 120) << 52) ^ (next(&mut state) & 0x8000_0000_ffff_ffff) };
        let a = f64::from_bits(x);
        let b = f64::from_bits(y);
        let p = Double::from_bits(x);
        let q = Double::from_bits(y);
        for (ours, theirs) in [(p.plus(q), a + b), (p.minus(q), a - b), (p.over(q), a / b)] {
            if theirs.is_nan() {
                assert!(f64::from_bits(ours.to_bits()).is_nan());
            } else {
                assert_eq!(ours.to_bits(), theirs.to_bits(), "{a:e} {b:e}");
            }
        }
        assert_eq!(p.ge(q), a >= b);
    }
}
