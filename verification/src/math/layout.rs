//! Positions in row-major matrices.

use vstd::arithmetic::div_mod::*;
use vstd::prelude::*;

verus! {

/// Every position of a row-major matrix is `i * width + j` for one row and one column.
pub proof fn lemma_row_major(position: int, rows: int, width: int)
    requires
        0 <= position < rows * width,
        0 < width,
    ensures
        0 <= position / width < rows,
        0 <= position % width < width,
        position == (position / width) * width + position % width,
{
    lemma_fundamental_div_mod(position, width);
    assert(position / width < rows) by (nonlinear_arith)
        requires
            position == width * (position / width) + position % width,
            0 <= position % width,
            position < rows * width,
            0 < width,
    ;
    assert(0 <= position / width) by (nonlinear_arith)
        requires
            0 <= position,
            0 < width,
    ;
    assert(width * (position / width) == (position / width) * width) by (nonlinear_arith);
}

/// Where an entry of a row-major matrix lies.
pub proof fn lemma_entry_in_range(i: int, j: int, rows: int, width: int)
    requires
        0 <= i < rows,
        0 <= j < width,
    ensures
        0 <= i * width + j < rows * width,
        (i * width + j) / width == i,
        (i * width + j) % width == j,
{
    assert(0 <= i * width <= (rows - 1) * width && (rows - 1) * width + width == rows * width)
        by (nonlinear_arith)
        requires
            0 <= i <= rows - 1,
            0 <= width,
    ;
    lemma_fundamental_div_mod_converse(i * width + j, width, i, j);
}

/// Lays rows of one length out as a row-major matrix.
pub fn join_rows(rows: Vec<Vec<u64>>, width: usize) -> (matrix: Vec<u64>)
    requires
        rows@.len() * width <= usize::MAX,
        forall|i: int| 0 <= i < rows@.len() ==> (#[trigger] rows@[i])@.len() == width,
    ensures
        matrix@.len() == rows@.len() * width,
        forall|i: int, j: int|
            0 <= i < rows@.len() && 0 <= j < width ==> #[trigger] matrix@[i * width + j]
                == rows@[i]@[j],
{
    let mut matrix: Vec<u64> = Vec::with_capacity(rows.len() * width);
    proof {
        vstd::arithmetic::mul::lemma_mul_basics(width as int);
    }
    for i in 0..rows.len()
        invariant
            forall|a: int| 0 <= a < rows@.len() ==> (#[trigger] rows@[a])@.len() == width,
            matrix@.len() == i * width,
            forall|a: int, j: int|
                0 <= a < i && 0 <= j < width ==> #[trigger] matrix@[a * width + j]
                    == rows@[a]@[j],
    {
        let ghost before = matrix@;
        let ghost added = rows@[i as int]@;
        matrix.extend_from_slice(&rows[i]);
        proof {
            assert(i * width + width == (i + 1) * width) by (nonlinear_arith);
            assert(matrix@ =~= before + added);
            assert forall|a: int, j: int| 0 <= a < i + 1 && 0 <= j < width implies #[trigger]
            matrix@[a * width + j] == rows@[a]@[j] by {
                if a < i {
                    lemma_entry_in_range(a, j, i as int, width as int);
                    assert(matrix@[a * width + j] == before[a * width + j]);
                } else {
                    assert(matrix@[a * width + j] == added[j]);
                }
            }
        }
    }
    matrix
}

} // verus!
