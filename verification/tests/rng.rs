use kami_script_runtime_rs::binary32::{abs, at_most, from_int, less, minus, over, plus, times};
use kami_script_runtime_rs::rng::{reduce, step32, step64};

#[test]
fn the_generators_step_as_they_should() {
    assert_eq!(step64(1), 0x4082_2041);
    assert_eq!(step32(1), 0x0004_2021);
    assert_eq!(step64(0), 0, "zero is the one state that is never left");
}

#[test]
fn the_generator_never_reaches_zero_and_never_merges() {
    let mut seen = std::collections::HashSet::new();
    for seed in 1..2000u64 {
        let next = step64(seed);
        assert_ne!(next, 0);
        assert!(seen.insert(next));
    }
}

#[test]
fn draws_are_below_their_bound() {
    for x in [0u64, 1, 17, u64::MAX] {
        for n in [1i64, 2, 1000, i64::MAX] {
            assert_eq!(reduce(x, n), (x % n as u64) as i64);
        }
    }
}

#[test]
fn arithmetic_keeps_its_laws() {
    let values = [0.0f32, -0.0, 1.0, -1.5, 3.0e-39, 7.25e20, -1.0e-10, f32::MAX, 0.1];
    for a in values {
        let x = a.to_bits();
        assert_eq!(times(x, 1.0f32.to_bits()), x);
        if a != 0.0 {
            assert_eq!(plus(x, 0), x);
        }
        assert_eq!(abs(times(0, x)), 0);
        assert!(abs(over(x, 1000.0f32.to_bits())) <= abs(x));
        for b in values {
            let y = b.to_bits();
            assert_eq!(plus(x, y), plus(y, x));
            assert_eq!(times(x, y), times(y, x));
            assert_eq!(less(x, y), a < b);
            assert_eq!(at_most(x, y), a <= b);
            assert_eq!(minus(x, y), (a - b).to_bits());
        }
    }
}

#[test]
fn whole_numbers_round_in_order() {
    let mut last = from_int(0);
    for v in [1i64, 2, 16777215, 16777216, 16777217, 16777219, 1 << 40, i64::MAX] {
        let n = from_int(v);
        assert!(n >= last);
        assert_eq!(n, (v as f32).to_bits());
        assert_eq!(from_int(-v), (-v as f32).to_bits());
        last = n;
    }
    assert_eq!(from_int(i64::MIN), (i64::MIN as f32).to_bits());
    assert!(last <= 0x5f00_0000);
}
