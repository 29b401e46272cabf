use pairwise_distances::min_image::{distance, displacement, wrapped};
use pairwise_distances::pairwise::{
    mirror, upper_row, Pairwise, DOUBLE_TOLERANCE, SINGLE_TOLERANCE,
};
use rand::rngs::StdRng;
use rand::{Rng, SeedableRng};

fn bits(position: [f32; 3]) -> [u32; 3] {
    [position[0].to_bits(), position[1].to_bits(), position[2].to_bits()]
}

fn all_bits(positions: &[[f32; 3]]) -> Vec<[u32; 3]> {
    positions.iter().map(|p| bits(*p)).collect()
}

fn numbers(matrix: &[Vec<u32>]) -> Vec<Vec<f32>> {
    matrix.iter().map(|row| row.iter().map(|b| f32::from_bits(*b)).collect()).collect()
}

fn compute(positions: &[[f32; 3]]) -> Vec<Vec<f32>> {
    let patterns = all_bits(positions);
    numbers(&Pairwise::new().pairwise_distances(&patterns, patterns.len()))
}

/// The computation in the processor's own single-precision arithmetic, one pair
/// after the other.
fn by_the_processor(positions: &[[f32; 3]]) -> Vec<Vec<f32>> {
    let n = positions.len();
    let l = 1.0_f32;
    let half_l = 0.5_f32;
    let mut distances = vec![vec![0.0_f32; n]; n];
    for i in 0..n {
        for j in (i + 1)..n {
            let mut d = [0.0_f32; 3];
            for axis in 0..3 {
                let mut x = positions[i][axis] - positions[j][axis];
                if x > half_l {
                    x -= l;
                }
                if x < -half_l {
                    x += l;
                }
                d[axis] = x;
            }
            let dist = (d[0] * d[0] + d[1] * d[1] + d[2] * d[2]).sqrt();
            distances[i][j] = dist;
            distances[j][i] = dist;
        }
    }
    distances
}

fn uniform_positions(seed: u64, n: usize) -> Vec<[f32; 3]> {
    let mut rng = StdRng::seed_from_u64(seed);
    (0..n).map(|_| [rng.gen(), rng.gen(), rng.gen()]).collect()
}

fn same_bits(a: &[Vec<f32>], b: &[Vec<f32>]) -> bool {
    a.len() == b.len()
        && a.iter().zip(b).all(|(x, y)| {
            x.len() == y.len() && x.iter().zip(y).all(|(u, v)| u.to_bits() == v.to_bits())
        })
}

#[test]
fn new_holds_the_two_tolerances() {
    let engine = Pairwise::new();
    assert_eq!(f32::from_bits(engine.sp), 1.0e-6_f32);
    assert_eq!(f64::from_bits(engine.dp), 1.0e-15_f64);
    assert_eq!(engine.sp, SINGLE_TOLERANCE);
    assert_eq!(engine.dp, DOUBLE_TOLERANCE);
}

#[test]
fn a_pair_across_the_boundary_is_wrapped() {
    let m = compute(&[[0.01, 0.5, 0.5], [0.99, 0.5, 0.5]]);
    let raw = 0.01_f32 - 0.99_f32;
    assert!(raw < -0.5);
    let expected = raw + 1.0_f32;
    assert_eq!(m[0][1].to_bits(), (expected * expected).sqrt().to_bits());
    assert!((m[0][1] - 0.02).abs() < 1.0e-6);
    assert_eq!(m[1][0].to_bits(), m[0][1].to_bits());
}

#[test]
fn a_near_pair_is_not_wrapped() {
    let m = compute(&[[0.1, 0.1, 0.1], [0.2, 0.1, 0.1]]);
    let raw = 0.1_f32 - 0.2_f32;
    assert_eq!(m[0][1].to_bits(), (raw * raw).sqrt().to_bits());
    assert!((m[0][1] - 0.1).abs() < 1.0e-6);
    assert_eq!(m[1][0].to_bits(), m[0][1].to_bits());
}

#[test]
fn a_displacement_above_half_the_box_loses_the_box_length() {
    assert_eq!(f32::from_bits(wrapped(0.75_f32.to_bits())), -0.25);
    assert_eq!(f32::from_bits(wrapped((-0.75_f32).to_bits())), 0.25);
    assert_eq!(f32::from_bits(wrapped(0.5_f32.to_bits())), 0.5);
    assert_eq!(f32::from_bits(wrapped((-0.5_f32).to_bits())), -0.5);
    assert_eq!(f32::from_bits(wrapped(0.25_f32.to_bits())), 0.25);
    // one step only: a displacement of more than a box length stays outside
    assert_eq!(f32::from_bits(wrapped(2.75_f32.to_bits())), 1.75);
    assert_eq!(
        f32::from_bits(displacement(0.875_f32.to_bits(), 0.125_f32.to_bits())),
        -0.25
    );
}

#[test]
fn distance_is_the_norm_of_the_wrapped_displacements() {
    // displacements 0.25, -0.25 (wrapped from 0.75) and 0.5
    let p = bits([0.25, 0.875, 0.75]);
    let q = bits([0.0, 0.125, 0.25]);
    let expected = (0.0625_f32 + 0.0625 + 0.25).sqrt();
    assert_eq!(distance(&p, &q), expected.to_bits());
    // a 3-4-12 box diagonal, scaled by 1/32: exactly 13/32
    let r = bits([0.09375, 0.125, 0.375]);
    let origin = bits([0.0, 0.0, 0.0]);
    assert_eq!(f32::from_bits(distance(&r, &origin)), 0.40625);
}

#[test]
fn distance_does_not_depend_on_the_order_of_the_positions() {
    let mut rng = StdRng::seed_from_u64(5);
    for round in 0..20_000 {
        let mut p = [0u32; 3];
        let mut q = [0u32; 3];
        for axis in 0..3 {
            if round % 2 == 0 {
                p[axis] = rng.gen::<f32>().to_bits();
                q[axis] = rng.gen::<f32>().to_bits();
            } else {
                // any patterns at all: huge, tiny, infinite or NaN
                p[axis] = rng.gen::<u32>();
                q[axis] = rng.gen::<u32>();
            }
        }
        assert_eq!(distance(&p, &q), distance(&q, &p));
    }
    let corner = bits([0.0, -0.0, 1.0]);
    let other = bits([1.0, 0.5, -0.0]);
    assert_eq!(distance(&corner, &other), distance(&other, &corner));
}

#[test]
fn no_particle_gives_the_empty_matrix() {
    let m = Pairwise::new().pairwise_distances(&Vec::new(), 0);
    assert!(m.is_empty());
}

#[test]
fn one_particle_gives_one_zero() {
    let m = Pairwise::new().pairwise_distances(&vec![bits([0.3, 0.6, 0.9])], 1);
    assert_eq!(m, vec![vec![0u32]]);
}

#[test]
fn two_particles_give_one_distance_twice() {
    let p = [0.2_f32, 0.4, 0.9];
    let q = [0.7_f32, 0.5, 0.1];
    let m = Pairwise::new().pairwise_distances(&all_bits(&[p, q]), 2);
    let d = distance(&bits(p), &bits(q));
    assert_eq!(m, vec![vec![0, d], vec![d, 0]]);
    assert_ne!(d, 0);
}

#[test]
fn upper_row_holds_zero_up_to_the_diagonal() {
    let positions = all_bits(&[[0.1, 0.2, 0.3], [0.4, 0.5, 0.6], [0.9, 0.8, 0.7]]);
    let row = upper_row(&positions, 1);
    assert_eq!(row, vec![0, 0, distance(&positions[1], &positions[2])]);
    assert_eq!(upper_row(&positions, 2), vec![0, 0, 0]);
}

#[test]
fn mirror_copies_the_upper_triangle_down() {
    let mut matrix = vec![vec![0, 1, 2], vec![7, 0, 3], vec![8, 9, 0]];
    mirror(&mut matrix);
    assert_eq!(matrix, vec![vec![0, 1, 2], vec![1, 0, 3], vec![2, 3, 0]]);
    let mut empty: Vec<Vec<u32>> = Vec::new();
    mirror(&mut empty);
    assert!(empty.is_empty());
    let mut single = vec![vec![4]];
    mirror(&mut single);
    assert_eq!(single, vec![vec![4]]);
}

#[test]
fn the_matrix_is_symmetric_with_a_zero_diagonal_and_no_negative_entry() {
    let positions = uniform_positions(7, 60);
    let m = compute(&positions);
    assert_eq!(m.len(), 60);
    for i in 0..60 {
        assert_eq!(m[i].len(), 60);
        assert_eq!(m[i][i].to_bits(), 0);
        for j in 0..60 {
            assert_eq!(m[i][j].to_bits(), m[j][i].to_bits());
            assert!(m[i][j] >= 0.0);
        }
    }
}

#[test]
fn the_matrix_agrees_with_the_processor_bit_for_bit() {
    for seed in 0..4 {
        let positions = uniform_positions(seed, 80);
        assert!(same_bits(&compute(&positions), &by_the_processor(&positions)));
    }
}

#[test]
fn the_matrix_agrees_with_the_processor_outside_the_box() {
    let mut rng = StdRng::seed_from_u64(99);
    let positions: Vec<[f32; 3]> = (0..50)
        .map(|_| {
            [
                rng.gen_range(-3.0_f32..3.0),
                rng.gen_range(-1.0e-20_f32..1.0e-20),
                rng.gen_range(-1.0e30_f32..1.0e30),
            ]
        })
        .collect();
    assert!(same_bits(&compute(&positions), &by_the_processor(&positions)));
}

#[test]
fn one_worker_and_many_workers_give_the_same_matrix() {
    let positions = all_bits(&uniform_positions(11, 70));
    let engine = Pairwise::new();
    let one = rayon::ThreadPoolBuilder::new().num_threads(1).build().unwrap();
    let many = rayon::ThreadPoolBuilder::new().num_threads(8).build().unwrap();
    let serial = one.install(|| engine.pairwise_distances(&positions, positions.len()));
    let parallel = many.install(|| engine.pairwise_distances(&positions, positions.len()));
    assert_eq!(serial, parallel);
    assert_eq!(serial, engine.pairwise_distances(&positions, positions.len()));
}

#[test]
fn rows_come_back_in_the_order_of_the_particles() {
    // particle k sits at k/64 on the first axis, so row 0 grows up to the half box
    let positions: Vec<[f32; 3]> = (0..32).map(|k| [k as f32 / 64.0, 0.0, 0.0]).collect();
    let m = compute(&positions);
    for i in 0..32 {
        for j in 0..32 {
            let expected = (i as f32 - j as f32).abs() / 64.0;
            assert_eq!(m[i][j], expected);
        }
    }
}

#[test]
fn no_entry_exceeds_the_half_diagonal_of_the_box() {
    let limit = 0.75_f32.sqrt();
    for seed in 20..24 {
        let m = compute(&uniform_positions(seed, 100));
        let largest = m.iter().flatten().cloned().fold(0.0_f32, f32::max);
        assert!(largest <= limit);
        assert!(largest > 0.5);
    }
    // the corners of the half box reach the limit
    let m = compute(&[[0.0, 0.0, 0.0], [0.5, 0.5, 0.5]]);
    assert_eq!(m[0][1].to_bits(), limit.to_bits());
    assert_eq!(m[0][1].to_bits(), 0x3f5d_b3d7);
}

#[test]
fn a_nan_coordinate_gives_nan_entries_in_its_row_and_column() {
    let m = compute(&[[0.1, 0.2, 0.3], [f32::NAN, 0.5, 0.5], [0.7, 0.8, 0.9]]);
    assert!(m[0][1].is_nan() && m[1][0].is_nan() && m[1][2].is_nan() && m[2][1].is_nan());
    assert_eq!(m[1][1].to_bits(), 0);
    assert!(!m[0][2].is_nan());
    assert_eq!(m[0][1].to_bits(), 0x7fc0_0000);
}

#[test]
fn only_equal_infinities_and_nans_have_no_distance() {
    let inf = f32::INFINITY;
    let m = compute(&[[inf, 0.0, 0.0], [inf, 0.0, 0.0], [-inf, 0.0, 0.0], [0.5, 0.0, 0.0]]);
    assert!(m[0][1].is_nan() && m[1][0].is_nan());
    assert_eq!(m[0][2], inf);
    assert_eq!(m[0][3], inf);
    assert_eq!(m[2][3], inf);
    for i in 0..4 {
        assert_eq!(m[i][i].to_bits(), 0);
        for j in 0..4 {
            assert!(m[i][j].is_sign_positive());
            assert!(m[i][j].is_nan() || m[i][j] >= 0.0);
        }
    }
}
