//! What holds of every distance matrix.
use crate::binary32::{is_nan, is_negative, value};
use crate::distance_laws::{
    has_distance, is_in_box, lemma_distance_in_box, lemma_distance_not_negative,
    lemma_distance_symmetric, HALF_DIAGONAL,
};
use crate::pairwise::spec_matrix;
use vstd::prelude::*;

verus! {

/// The distance matrix is symmetric: the entry in row `i` and column `j` is the
/// entry in row `j` and column `i`.
pub proof fn lemma_symmetry(positions: Seq<[u32; 3]>, i: int, j: int)
    requires
        0 <= i < positions.len(),
        0 <= j < positions.len(),
    ensures
        spec_matrix(positions)[i][j] == spec_matrix(positions)[j][i],
{
    lemma_distance_symmetric(positions[i], positions[j]);
}

/// The diagonal of the distance matrix is zero.
pub proof fn lemma_zero_diagonal(positions: Seq<[u32; 3]>, i: int)
    requires
        0 <= i < positions.len(),
    ensures
        spec_matrix(positions)[i][i] == 0,
{
}

/// The positions determine the distance matrix: two computations on the same
/// positions, however their rows were scheduled and on however many workers,
/// return the same matrix.
pub proof fn lemma_determinism(
    first: Vec<Vec<u32>>,
    second: Vec<Vec<u32>>,
    positions: Seq<[u32; 3]>,
)
    requires
        first.deep_view() == spec_matrix(positions),
        second.deep_view() == spec_matrix(positions),
    ensures
        first.deep_view() == second.deep_view(),
        first@.len() == second@.len(),
        forall|i: int| 0 <= i < first@.len() ==> (#[trigger] first@[i])@ == second@[i]@,
{
    assert(first.deep_view().len() == first@.len());
    assert(second.deep_view().len() == second@.len());
    assert forall|i: int| 0 <= i < first@.len()
        implies (#[trigger] first@[i])@ == second@[i]@ by {
        assert(first.deep_view()[i] == first@[i].deep_view());
        assert(second.deep_view()[i] == second@[i].deep_view());
        assert(first@[i]@ =~= first@[i].deep_view());
        assert(second@[i]@ =~= second@[i].deep_view());
    }
}

/// No entry of the distance matrix is negative: no entry has its sign bit set,
/// and an entry is a number, and so at least zero, exactly if it lies on the
/// diagonal or its two positions have a distance. (The other entries are NaNs,
/// which are neither negative nor at least zero.)
pub proof fn lemma_non_negativity(positions: Seq<[u32; 3]>, i: int, j: int)
    requires
        0 <= i < positions.len(),
        0 <= j < positions.len(),
    ensures
        !is_negative(spec_matrix(positions)[i][j]),
        (i == j || has_distance(positions[i], positions[j]))
            <==> !is_nan(spec_matrix(positions)[i][j]) && value(spec_matrix(positions)[i][j]) >= 0,
{
    lemma_distance_not_negative(positions[i], positions[j]);
}

/// Between two particles in the box no entry of the distance matrix exceeds
/// half the diagonal of the box.
pub proof fn lemma_scale(positions: Seq<[u32; 3]>, i: int, j: int)
    requires
        0 <= i < positions.len(),
        0 <= j < positions.len(),
        is_in_box(positions[i]),
        is_in_box(positions[j]),
    ensures
        spec_matrix(positions)[i][j] <= HALF_DIAGONAL,
{
    lemma_distance_in_box(positions[i], positions[j]);
}

} // verus!
