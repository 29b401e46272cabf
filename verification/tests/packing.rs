use pairwise_distances::binary32::{parts, INFINITY};
use pairwise_distances::pack::{bit_length, integer_root, power_of_two, round_scaled};

#[test]
fn bit_length_counts_up_to_the_leading_one() {
    assert_eq!(bit_length(0), 0);
    assert_eq!(bit_length(1), 1);
    assert_eq!(bit_length(255), 8);
    assert_eq!(bit_length(256), 9);
    assert_eq!(bit_length(0x00ff_ffff), 24);
    assert_eq!(bit_length(u64::MAX), 64);
}

#[test]
fn power_of_two_covers_the_word() {
    assert_eq!(power_of_two(0), 1);
    assert_eq!(power_of_two(23), 0x0080_0000);
    assert_eq!(power_of_two(63), 0x8000_0000_0000_0000);
}

#[test]
fn integer_root_is_the_floor_of_the_root() {
    assert_eq!(integer_root(0), 0);
    assert_eq!(integer_root(1), 1);
    assert_eq!(integer_root(3), 1);
    assert_eq!(integer_root(4), 2);
    assert_eq!(integer_root(99), 9);
    assert_eq!(integer_root(u64::MAX), 0xffff_ffff);
    for r in [5u64, 1 << 20, (1 << 26) + 12345, 0xffff_ffff] {
        assert_eq!(integer_root(r * r), r);
        assert_eq!(integer_root(r * r - 1), r - 1);
        assert_eq!(integer_root(r * r + 1), r);
    }
}

#[test]
fn parts_are_the_significand_and_the_exponent_of_the_last_place() {
    assert_eq!(parts(0), (0, 0));
    assert_eq!(parts(5), (5, 0));
    assert_eq!(parts(0x007f_ffff), (0x007f_ffff, 0));
    assert_eq!(parts(0x0080_0000), (0x0080_0000, 0));
    assert_eq!(parts(0x0100_0000), (0x0080_0000, 1));
    assert_eq!(parts(1.0_f32.to_bits()), (0x0080_0000, 126));
    assert_eq!(parts(0.75_f32.to_bits()), (0x00c0_0000, 125));
    assert_eq!(parts(f32::MAX.to_bits()), (0x00ff_ffff, 253));
    assert_eq!(parts(INFINITY), (0x0080_0000, 254));
}

#[test]
fn round_scaled_keeps_exact_values() {
    assert_eq!(round_scaled(0, 7, 3), 0);
    assert_eq!(round_scaled(1, 0, 0), 1);
    assert_eq!(round_scaled(1, 149, 0), 1.0_f32.to_bits());
    assert_eq!(round_scaled(3, 147, 0), 0.75_f32.to_bits());
    assert_eq!(round_scaled(3 << 40, 107, 0), 0.75_f32.to_bits());
    assert_eq!(round_scaled(3 << 40, 200, 93), 0.75_f32.to_bits());
    assert_eq!(round_scaled(0x00ff_ffff, 253, 0), f32::MAX.to_bits());
}

#[test]
fn round_scaled_sends_ties_to_the_even_pattern() {
    // halves of the smallest unit
    assert_eq!(round_scaled(1, 0, 1), 0);
    assert_eq!(round_scaled(3, 0, 1), 2);
    assert_eq!(round_scaled(5, 0, 1), 2);
    assert_eq!(round_scaled(7, 0, 2), 2);
    assert_eq!(round_scaled(5, 0, 2), 1);
    // 2^24 + 1 lies halfway between two numbers of the second binade
    assert_eq!(round_scaled((1 << 24) + 1, 0, 0), 0x0100_0000);
    assert_eq!(round_scaled((1 << 24) + 3, 0, 0), 0x0100_0002);
    assert_eq!(round_scaled((1 << 25) - 1, 0, 0), 0x0180_0000);
}

#[test]
fn round_scaled_overflows_to_infinity_from_the_last_midpoint_on() {
    assert_eq!(round_scaled(1, 277, 0), INFINITY);
    assert_eq!(round_scaled(u64::MAX, u32::MAX, 0), INFINITY);
    assert_eq!(round_scaled((1 << 25) - 1, 252, 0), INFINITY);
    assert_eq!(round_scaled((1 << 26) - 3, 251, 0), f32::MAX.to_bits());
}

#[test]
fn round_scaled_handles_divisors_beyond_the_word() {
    assert_eq!(round_scaled(u64::MAX, 0, 64), 1);
    assert_eq!(round_scaled(0x8000_0000_0000_0001, 0, 64), 1);
    assert_eq!(round_scaled(0x8000_0000_0000_0000, 0, 64), 0);
    assert_eq!(round_scaled(u64::MAX, 0, 65), 0);
    assert_eq!(round_scaled(u64::MAX, 3, u32::MAX), 0);
    assert_eq!(round_scaled(u64::MAX, 1, 64), 2);
}

#[test]
fn round_scaled_agrees_with_the_processor() {
    let mut state: u64 = 0x1234_5678_9abc_def1;
    for _ in 0..300_000 {
        state ^= state << 13;
        state ^= state >> 7;
        state ^= state << 17;
        let bits = 1 + (state >> 58) % 53;
        let p = (state >> 3) & ((1u64 << bits) - 1);
        let up = ((state >> 20) % 300) as u32;
        let down = ((state >> 40) % 300) as u32;
        // p has at most 53 bits, so the double below is exact and its conversion
        // to single precision is one rounding to nearest
        let exact = p as f64 * 2.0_f64.powi(up as i32 - down as i32 - 149);
        assert_eq!(round_scaled(p, up, down), (exact as f32).to_bits(), "{p} {up} {down}");
    }
}
