//! The pairwise distance engine: the full matrix of minimum-image distances of a
//! set of particles, its rows computed in parallel.
use crate::binary32::{is_nan, is_negative, value};
use crate::distance_laws::{has_distance, is_in_box, lemma_distance_symmetric, HALF_DIAGONAL};
use crate::laws::{lemma_non_negativity, lemma_scale, lemma_symmetry, lemma_zero_diagonal};
use crate::min_image::{distance, spec_distance};
use rayon::iter::{IntoParallelIterator, ParallelIterator};
use vstd::prelude::*;

verus! {

/// The tolerance of single precision, `1.0e-6`, as a single-precision pattern.
pub const SINGLE_TOLERANCE: u32 = 0x3586_37bd;

/// The tolerance of double precision, `1.0e-15`, as a double-precision pattern.
pub const DOUBLE_TOLERANCE: u64 = 0x3cd2_03af_9ee7_5616;

/// The entry of the distance matrix in row `i` and column `j`: zero on the
/// diagonal, and off it the distance between the particles `i` and `j`.
pub open spec fn spec_entry(positions: Seq<[u32; 3]>, i: int, j: int) -> u32 {
    if i == j {
        0
    } else {
        spec_distance(positions[i], positions[j])
    }
}

/// Row `i` of the upper triangle: the distances to the particles with a higher
/// index, and zero up to the diagonal.
pub open spec fn spec_upper_row(positions: Seq<[u32; 3]>, i: int) -> Seq<u32> {
    Seq::new(
        positions.len(),
        |j: int|
            if i < j {
                spec_distance(positions[i], positions[j])
            } else {
                0
            },
    )
}

/// The distance matrix of `positions`: as many rows and columns as there are
/// particles, with `spec_entry` in each place.
pub open spec fn spec_matrix(positions: Seq<[u32; 3]>) -> Seq<Seq<u32>> {
    Seq::new(
        positions.len(),
        |i: int| Seq::new(positions.len(), |j: int| spec_entry(positions, i, j)),
    )
}

/// The engine. It holds the two tolerances that state the intended precision;
/// no step of the computation reads them.
#[derive(Debug, Clone, Copy)]
pub struct Pairwise {
    /// The tolerance of single precision, as a single-precision pattern.
    pub sp: u32,
    /// The tolerance of double precision, as a double-precision pattern.
    pub dp: u64,
}

/// Calls rayon's `into_par_iter` on the range `0..n`, then `map` with `f` and
/// `collect` into a `Vec`. The range is an indexed parallel iterator, which
/// `collect` gathers in the order of the indices: the result has one item for
/// each index below `n`, and the item at place `i` is what `f` returned for `i`.
/// Rayon calls `f` on no other argument.
#[verifier::external_body]
fn parallel_rows<F>(n: usize, f: F) -> (rows: Vec<Vec<u32>>) where
    F: Fn(usize) -> Vec<u32> + Sync + Send,

    requires
        forall|i: usize| i < n ==> call_requires(f, (i,)),
    ensures
        rows@.len() == n,
        forall|i: int| 0 <= i < n ==> call_ensures(f, (i as usize,), #[trigger] rows@[i]),
{
    (0..n).into_par_iter().map(f).collect()
}

/// Computes row `i` of the upper triangle: the row starts with zero in every
/// place, and the places right of the diagonal are filled with the distances.
pub fn upper_row(positions: &Vec<[u32; 3]>, i: usize) -> (row: Vec<u32>)
    requires
        i < positions@.len(),
    ensures
        row@ == spec_upper_row(positions@, i as int),
{
    let n: usize = positions.len();
    let mut row: Vec<u32> = vec![0u32; n];
    let mut j: usize = i + 1;
    while j < n
        invariant
            n == positions@.len(),
            i < j <= n,
            row@.len() == n,
            forall|k: int|
                0 <= k < n ==> #[trigger] row@[k] == (if i < k < j {
                    spec_distance(positions@[i as int], positions@[k])
                } else {
                    0
                }),
        decreases n - j,
    {
        row[j] = distance(&positions[i], &positions[j]);
        j = j + 1;
    }
    assert(row@ =~= spec_upper_row(positions@, i as int));
    row
}

/// Completes the upper triangle to the full symmetric matrix, in place: every
/// entry below the diagonal becomes a copy of the entry that mirrors it.
pub fn mirror(matrix: &mut Vec<Vec<u32>>)
    requires
        forall|i: int|
            0 <= i < old(matrix)@.len()
                ==> (#[trigger] old(matrix)@[i])@.len() == old(matrix)@.len(),
    ensures
        final(matrix)@.len() == old(matrix)@.len(),
        forall|i: int|
            0 <= i < old(matrix)@.len()
                ==> (#[trigger] final(matrix)@[i])@.len() == old(matrix)@.len(),
        forall|i: int, j: int|
            0 <= i < old(matrix)@.len() && 0 <= j < old(matrix)@.len()
                ==> #[trigger] final(matrix)@[i]@[j] == (if j < i {
                old(matrix)@[j]@[i]
            } else {
                old(matrix)@[i]@[j]
            }),
{
    let n: usize = matrix.len();
    let mut i: usize = 0;
    while i < n
        invariant
            n == old(matrix)@.len(),
            matrix@.len() == n,
            i <= n,
            forall|k: int| 0 <= k < n ==> (#[trigger] matrix@[k])@.len() == n,
            forall|k: int| 0 <= k < n ==> (#[trigger] old(matrix)@[k])@.len() == n,
            forall|k: int, l: int|
                0 <= k < n && 0 <= l < n ==> #[trigger] matrix@[k]@[l] == (if l < k && k < i {
                    old(matrix)@[l]@[k]
                } else {
                    old(matrix)@[k]@[l]
                }),
        decreases n - i,
    {
        let mut j: usize = 0;
        while j < i
            invariant
                n == old(matrix)@.len(),
                matrix@.len() == n,
                i < n,
                j <= i,
                forall|k: int| 0 <= k < n ==> (#[trigger] matrix@[k])@.len() == n,
                forall|k: int| 0 <= k < n ==> (#[trigger] old(matrix)@[k])@.len() == n,
                forall|k: int, l: int|
                    0 <= k < n && 0 <= l < n ==> #[trigger] matrix@[k]@[l] == (if l < k && (k < i
                        || (k == i && l < j)) {
                        old(matrix)@[l]@[k]
                    } else {
                        old(matrix)@[k]@[l]
                    }),
            decreases i - j,
        {
            let mirrored: u32 = matrix[j][i];
            matrix[i][j] = mirrored;
            j = j + 1;
        }
        i = i + 1;
    }
}

impl Pairwise {
    /// An engine with the tolerances `1.0e-6` and `1.0e-15`.
    pub fn new() -> (engine: Self)
        ensures
            engine.sp == SINGLE_TOLERANCE,
            engine.dp == DOUBLE_TOLERANCE,
    {
        Pairwise { sp: SINGLE_TOLERANCE, dp: DOUBLE_TOLERANCE }
    }

    /// The distance matrix of `positions`, each position the patterns of its
    /// three single-precision coordinates. The rows of the upper triangle are
    /// computed in parallel, one task for each particle, each task filling a row
    /// of its own; the lower triangle is mirrored from them afterwards, by the
    /// calling thread alone.
    ///
    /// The matrix is symmetric with a zero diagonal. No entry has its sign bit
    /// set, and an entry off the diagonal is a number, and so at least zero,
    /// exactly if its two positions have a distance. An entry between two
    /// positions in the box does not exceed `HALF_DIAGONAL`.
    pub fn pairwise_distances(
        &self,
        positions: &Vec<[u32; 3]>,
        n_particles: usize,
    ) -> (distances: Vec<Vec<u32>>)
        requires
            positions@.len() == n_particles,
        ensures
            distances.deep_view() == spec_matrix(positions@),
            distances@.len() == n_particles,
            forall|i: int|
                0 <= i < n_particles ==> (#[trigger] distances@[i])@.len() == n_particles,
            forall|i: int, j: int|
                0 <= i < n_particles && 0 <= j < n_particles
                    ==> #[trigger] distances@[i]@[j] == distances@[j]@[i],
            forall|i: int| 0 <= i < n_particles ==> (#[trigger] distances@[i])@[i] == 0,
            forall|i: int, j: int|
                0 <= i < n_particles && 0 <= j < n_particles
                    ==> !is_negative(#[trigger] distances@[i]@[j]),
            forall|i: int, j: int|
                0 <= i < n_particles && 0 <= j < n_particles
                    ==> ((i == j || has_distance(positions@[i], positions@[j]))
                    <==> !is_nan(#[trigger] distances@[i]@[j]) && value(distances@[i]@[j]) >= 0),
            forall|i: int, j: int|
                0 <= i < n_particles && 0 <= j < n_particles && is_in_box(positions@[i])
                    && is_in_box(positions@[j])
                    ==> #[trigger] distances@[i]@[j] <= HALF_DIAGONAL,
    {
        let row_of = |i: usize| -> (row: Vec<u32>)
            requires
                i < positions@.len(),
            ensures
                row@ == spec_upper_row(positions@, i as int),
            { upper_row(positions, i) };
        let mut distances: Vec<Vec<u32>> = parallel_rows(n_particles, row_of);
        let ghost upper = distances@;
        mirror(&mut distances);
        proof {
            let matrix = spec_matrix(positions@);
            assert forall|i: int, j: int|
                0 <= i < n_particles && 0 <= j < n_particles
                implies #[trigger] distances@[i]@[j] == matrix[i][j] by {
                assert(upper[i]@ == spec_upper_row(positions@, i));
                assert(upper[j]@ == spec_upper_row(positions@, j));
                lemma_distance_symmetric(positions@[i], positions@[j]);
            }
            assert(distances.deep_view() =~~= matrix);
            assert forall|i: int, j: int|
                0 <= i < n_particles && 0 <= j < n_particles
                implies #[trigger] distances@[i]@[j] == distances@[j]@[i]
                && !is_negative(distances@[i]@[j])
                && ((i == j || has_distance(positions@[i], positions@[j]))
                    <==> !is_nan(distances@[i]@[j]) && value(distances@[i]@[j]) >= 0)
                && (is_in_box(positions@[i]) && is_in_box(positions@[j])
                    ==> distances@[i]@[j] <= HALF_DIAGONAL) by {
                assert(distances@[j]@[i] == matrix[j][i]);
                lemma_symmetry(positions@, i, j);
                lemma_non_negativity(positions@, i, j);
                if is_in_box(positions@[i]) && is_in_box(positions@[j]) {
                    lemma_scale(positions@, i, j);
                }
            }
            assert forall|i: int| 0 <= i < n_particles
                implies (#[trigger] distances@[i])@[i] == 0 by {
                assert(distances@[i]@[i] == matrix[i][i]);
                lemma_zero_diagonal(positions@, i);
            }
        }
        distances
    }
}

} // verus!
