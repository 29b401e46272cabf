use pairwise_distances::binary32::QUIET_NAN;
use pairwise_distances::ops::{
    difference, greater_than, less_than, negated, product, square_root, sum,
};

/// Patterns at the edges of the format: zeros, subnormals, binade boundaries,
/// the largest finite numbers, infinities and NaNs, with both signs.
fn edge_patterns() -> Vec<u32> {
    let magnitudes: [u32; 30] = [
        0x0000_0000,
        0x0000_0001,
        0x0000_0002,
        0x0000_0003,
        0x0040_0000,
        0x007f_ffff,
        0x0080_0000,
        0x0080_0001,
        0x00ff_ffff,
        0x0100_0000,
        0x0c00_0000,
        0x0c80_0000,
        0x1f80_0000,
        0x2000_0000,
        0x3380_0000,
        0x3400_0000,
        0x3eff_ffff,
        0x3f00_0000,
        0x3f00_0001,
        0x3f7f_ffff,
        0x3f80_0000,
        0x3f80_0001,
        0x4000_0000,
        0x4b00_0000,
        0x5f00_0000,
        0x7f00_0000,
        0x7f7f_ffff,
        0x7f80_0000,
        0x7f80_0001,
        0x7fc0_0000,
    ];
    let mut all = Vec::new();
    for m in magnitudes {
        all.push(m);
        all.push(m | 0x8000_0000);
    }
    all
}

fn next_random(state: &mut u64) -> u32 {
    *state ^= *state << 13;
    *state ^= *state >> 7;
    *state ^= *state << 17;
    (*state >> 16) as u32
}

/// A random pattern whose exponent lies near that of `near`, so that sums
/// cancel and round in every way.
fn random_near(state: &mut u64, near: u32) -> u32 {
    let exponent = ((near >> 23) & 0xff) as i32;
    let shift = (next_random(state) % 60) as i32 - 30;
    let e = (exponent + shift).clamp(0, 254) as u32;
    (next_random(state) & 0x807f_ffff) | (e << 23)
}

fn same_number(ours: u32, hardware: f32) -> bool {
    if hardware.is_nan() {
        ours == QUIET_NAN
    } else {
        ours == hardware.to_bits()
    }
}

fn compare_pair(a: u32, b: u32) {
    let (x, y) = (f32::from_bits(a), f32::from_bits(b));
    assert!(same_number(sum(a, b), x + y), "sum of {a:#010x} and {b:#010x}");
    assert!(same_number(difference(a, b), x - y), "difference of {a:#010x} and {b:#010x}");
    assert!(same_number(product(a, b), x * y), "product of {a:#010x} and {b:#010x}");
    assert_eq!(less_than(a, b), x < y, "{a:#010x} < {b:#010x}");
    assert_eq!(greater_than(a, b), x > y, "{a:#010x} > {b:#010x}");
}

#[test]
fn operations_agree_with_the_processor_on_edge_patterns() {
    let edges = edge_patterns();
    for &a in &edges {
        assert!(same_number(square_root(a), f32::from_bits(a).sqrt()), "root of {a:#010x}");
        for &b in &edges {
            compare_pair(a, b);
        }
    }
}

#[test]
fn operations_agree_with_the_processor_on_random_patterns() {
    let mut state: u64 = 0x9e37_79b9_7f4a_7c15;
    for _ in 0..200_000 {
        let a = next_random(&mut state);
        let b = next_random(&mut state);
        compare_pair(a, b);
        let c = random_near(&mut state, a);
        compare_pair(a, c);
        compare_pair(c, a);
    }
}

#[test]
fn square_root_agrees_with_the_processor_on_random_patterns() {
    let mut state: u64 = 0x2545_f491_4f6c_dd1d;
    for _ in 0..300_000 {
        let a = next_random(&mut state);
        assert!(same_number(square_root(a), f32::from_bits(a).sqrt()), "root of {a:#010x}");
    }
}

#[test]
fn square_root_of_perfect_squares_is_exact() {
    for k in 0u32..4096 {
        let x = k as f32;
        let square = (x * x).to_bits();
        assert_eq!(square_root(square), x.to_bits());
    }
}

#[test]
fn products_in_the_subnormal_range_round_to_even() {
    // 2^-75 * 2^-75 = 2^-150 is half of the smallest number: the tie goes to zero.
    let tiny = 0x1a00_0000;
    assert_eq!(f32::from_bits(tiny), 2.0_f32.powi(-75));
    assert_eq!(product(tiny, tiny), 0);
    // 3 * 2^-150 is halfway between 2^-149 and 2^-148: the tie goes to 2^-148.
    let three_tiny = (3.0_f32 * 2.0_f32.powi(-75)).to_bits();
    assert_eq!(product(three_tiny, tiny), 2);
}

#[test]
fn sums_overflow_to_infinity() {
    let largest = 0x7f7f_ffff;
    assert_eq!(sum(largest, largest), 0x7f80_0000);
    assert_eq!(sum(largest | 0x8000_0000, largest | 0x8000_0000), 0xff80_0000);
    // half a unit of the last place above the largest number is the tie that overflows
    assert_eq!(sum(largest, 0x7300_0000), 0x7f80_0000);
    assert_eq!(sum(largest, 0x72ff_ffff), largest);
}

#[test]
fn operations_without_a_number_return_the_quiet_nan() {
    let infinity = 0x7f80_0000;
    assert_eq!(difference(infinity, infinity), QUIET_NAN);
    assert_eq!(sum(infinity, negated(infinity)), QUIET_NAN);
    assert_eq!(product(0, infinity), QUIET_NAN);
    assert_eq!(square_root(0xbf80_0000), QUIET_NAN);
    assert_eq!(sum(0x7fa0_0001, 0x3f80_0000), QUIET_NAN);
    assert!(!less_than(QUIET_NAN, 0x3f80_0000));
    assert!(!greater_than(QUIET_NAN, 0x3f80_0000));
}

#[test]
fn zeros_keep_their_signs() {
    let minus_zero = 0x8000_0000;
    assert_eq!(sum(0, minus_zero), 0);
    assert_eq!(sum(minus_zero, minus_zero), minus_zero);
    assert_eq!(difference(0x3f80_0000, 0x3f80_0000), 0);
    assert_eq!(difference(minus_zero, 0), minus_zero);
    assert_eq!(product(minus_zero, 0x3f80_0000), minus_zero);
    assert_eq!(square_root(minus_zero), minus_zero);
    assert!(!less_than(minus_zero, 0));
    assert!(!greater_than(0, minus_zero));
}
