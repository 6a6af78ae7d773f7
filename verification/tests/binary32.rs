//! The arithmetic on bit patterns against the machine's own.

use kami_script_runtime_rs::binary32::{
    abs, at_most, from_int, less, minus, over, plus, sqrt, times, NAN,
};

fn canonical(x: f32) -> u32 {
    let bits = x.to_bits();
    if bits & 0x7fff_ffff > 0x7f80_0000 {
        NAN
    } else {
        bits
    }
}

/// Bit patterns at every edge, then a long pseudo-random sequence.
fn samples() -> Vec<u32> {
    let mut v: Vec<u32> = vec![
        0, 1, 2, 3, 0x7f_fffe, 0x7f_ffff, 0x80_0000, 0x80_0001, 0xff_ffff, 0x100_0000,
        0x3f80_0000, 0x3f80_0001, 0x3f7f_ffff, 0x4000_0000, 0x4b00_0000, 0x4b7f_ffff, 0x4b80_0000,
        0x7f00_0000, 0x7f7f_fffe, 0x7f7f_ffff, 0x7f80_0000, 0x7f80_0001, 0x7fc0_0000, 0x7fff_ffff,
        0x3a83_126f, 0x447a_0000, 0x3583_7000,
    ];
    let signed: Vec<u32> = v.iter().map(|b| b | 0x8000_0000).collect();
    v.extend(signed);
    v
}

fn next(x: &mut u64) -> u32 {
    *x ^= *x << 13;
    *x ^= *x >> 7;
    *x ^= *x << 17;
    (*x >> 16) as u32
}

fn check_pair(a: u32, b: u32) {
    let (x, y) = (f32::from_bits(a), f32::from_bits(b));
    assert_eq!(plus(a, b), canonical(x + y), "{x:?} + {y:?}");
    assert_eq!(minus(a, b), canonical(x - y), "{x:?} - {y:?}");
    assert_eq!(times(a, b), canonical(x * y), "{x:?} * {y:?}");
    assert_eq!(over(a, b), canonical(x / y), "{x:?} / {y:?}");
    assert_eq!(less(a, b), x < y, "{x:?} < {y:?}");
    assert_eq!(at_most(a, b), x <= y, "{x:?} <= {y:?}");
}

#[test]
fn edge_patterns_agree_with_the_machine() {
    let all = samples();
    for &a in &all {
        assert_eq!(sqrt(a), canonical(f32::from_bits(a).sqrt()), "sqrt {a:#x}");
        assert_eq!(abs(a), a & 0x7fff_ffff);
        for &b in &all {
            check_pair(a, b);
        }
    }
}

#[test]
fn random_patterns_agree_with_the_machine() {
    let mut x: u64 = 0x9e37_79b9_7f4a_7c15;
    for _ in 0..60_000 {
        let a = next(&mut x);
        let b = next(&mut x);
        check_pair(a, b);
        assert_eq!(sqrt(a), canonical(f32::from_bits(a).sqrt()), "sqrt {a:#x}");
    }
}

#[test]
fn random_neighbours_agree_with_the_machine() {
    // Exponents close together, where sums cancel and ties happen.
    let mut x: u64 = 0x1234_5678_9abc_def1;
    for _ in 0..60_000 {
        let a = next(&mut x);
        let shift = next(&mut x) % 56;
        let exponent = ((a >> 23) & 0xff).wrapping_add(shift).wrapping_sub(28) & 0xff;
        let b = (next(&mut x) & 0x807f_ffff) | (exponent << 23);
        check_pair(a, b);
        check_pair(a, b & 0xffff_f000);
    }
}

#[test]
fn whole_numbers_agree_with_the_machine() {
    let mut x: u64 = 0xdead_beef_cafe_f00d;
    for v in [0, 1, -1, 16, 1000, 16_777_215, 16_777_216, 16_777_217, 16_777_219, i64::MAX, i64::MIN] {
        assert_eq!(from_int(v), (v as f32).to_bits());
    }
    for _ in 0..20_000 {
        let v = ((next(&mut x) as i64) << 32) | next(&mut x) as i64;
        let w = v >> (next(&mut x) % 64);
        assert_eq!(from_int(v), (v as f32).to_bits());
        assert_eq!(from_int(w), (w as f32).to_bits());
    }
}

#[test]
fn exact_values() {
    assert_eq!(plus(1.5f32.to_bits(), 2.25f32.to_bits()), 3.75f32.to_bits());
    assert_eq!(times(3.0f32.to_bits(), (-2.0f32).to_bits()), (-6.0f32).to_bits());
    assert_eq!(over(16.0f32.to_bits(), 1000.0f32.to_bits()), 0.016f32.to_bits());
    assert_eq!(sqrt(2.0f32.to_bits()), 0x3fb5_04f3);
    // Order and identity laws on numbers.
    assert!(less((-1.0f32).to_bits(), 0));
    assert_eq!(plus(7.5f32.to_bits(), 0x8000_0000), 7.5f32.to_bits());
    assert_eq!(times(7.5f32.to_bits(), 1.0f32.to_bits()), 7.5f32.to_bits());
    assert_eq!(plus(1, 2), plus(2, 1));
}
