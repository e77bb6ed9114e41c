//! The rank transform of a whole matrix, column by column.
use crate::matrix::{
    array_column, array_get, array_ncols, array_nrows, array_set, array_zeros_like, grid_column,
    is_grid, matrix_rows, matrix_width, Matrix,
};
use crate::occurrences::{_convert_to_ranks, _count_occurrences, _sort_occurrences};
use crate::ranks::{lemma_rank_table_holds_ranks, rank_of};
use vstd::prelude::*;
use vstd::std_specs::hash::*;

verus! {

/// `ranked` is the rank transform of `rows`, a grid of `width` columns: it
/// has the same shape, and each cell holds the rank that the symbol in the
/// same cell of `rows` has in its column.
pub open spec fn is_rank_transform(rows: Seq<Seq<u32>>, width: nat, ranked: Seq<Seq<u32>>) -> bool {
    &&& ranked.len() == rows.len()
    &&& is_grid(ranked, width)
    &&& forall|r: int, c: int|
        0 <= r < rows.len() && 0 <= c < width ==> (#[trigger] ranked[r][c]) == rank_of(
            grid_column(rows, c),
            rows[r][c],
        )
}

/// Replaces every symbol of a matrix by its rank within its column: the
/// most frequent symbol of a column gets the number of distinct symbols of
/// that column, the least frequent gets 1, symbols of one frequency rank in
/// descending order of their value, and a gap (0) stays 0.
///
/// Occurrences are counted in 32 bits, so the matrix may have at most
/// `u32::MAX` rows; [`try_rank_sequences`] takes any matrix.
pub fn rank_sequences(seq: &Matrix) -> (seq_ranked: Matrix)
    requires
        matrix_rows(seq).len() <= u32::MAX,
    ensures
        matrix_width(&seq_ranked) == matrix_width(seq),
        is_rank_transform(matrix_rows(seq), matrix_width(seq), matrix_rows(&seq_ranked)),
        forall|r: int, c: int|
            0 <= r < matrix_rows(seq).len() && 0 <= c < matrix_width(seq) && matrix_rows(
                seq,
            )[r][c] == 0 ==> (#[trigger] matrix_rows(&seq_ranked)[r][c]) == 0,
{
    broadcast use group_hash_axioms;

    let nrows: usize = array_nrows(seq);
    let ncols: usize = array_ncols(seq);
    let ghost rows = matrix_rows(seq);
    let mut seq_ranked = array_zeros_like(seq);
    let mut i: usize = 0;
    while i < ncols
        invariant
            i <= ncols,
            nrows == rows.len(),
            nrows <= u32::MAX,
            ncols == matrix_width(seq),
            rows == matrix_rows(seq),
            is_grid(rows, ncols as nat),
            matrix_width(&seq_ranked) == ncols,
            matrix_rows(&seq_ranked).len() == nrows,
            is_grid(matrix_rows(&seq_ranked), ncols as nat),
            forall|r: int, c: int|
                0 <= r < nrows && 0 <= c < i ==> (#[trigger] matrix_rows(&seq_ranked)[r][c])
                    == rank_of(grid_column(rows, c), rows[r][c]),
        decreases ncols - i,
    {
        let col = array_column(seq, i);
        let ghost cells = grid_column(rows, i as int);
        let counts = _count_occurrences(&col);
        let sorted = _sort_occurrences(&counts);
        let current_ranks = _convert_to_ranks(&sorted);
        proof {
            lemma_rank_table_holds_ranks(cells, sorted@.unref());
        }
        let mut j: usize = 0;
        while j < nrows
            invariant
                j <= nrows,
                i < ncols,
                nrows == rows.len(),
                nrows <= u32::MAX,
                ncols == matrix_width(seq),
                rows == matrix_rows(seq),
                is_grid(rows, ncols as nat),
                cells == grid_column(rows, i as int),
                matrix_width(&seq_ranked) == ncols,
                matrix_rows(&seq_ranked).len() == nrows,
                is_grid(matrix_rows(&seq_ranked), ncols as nat),
                forall|s: u32| #[trigger]
                    current_ranks@.contains_key(s) <==> s == 0 || cells.contains(s),
                forall|s: u32| #[trigger]
                    current_ranks@.contains_key(s) ==> current_ranks@[s] == rank_of(cells, s),
                forall|r: int, c: int|
                    0 <= r < nrows && 0 <= c < i ==> (#[trigger] matrix_rows(&seq_ranked)[r][c])
                        == rank_of(grid_column(rows, c), rows[r][c]),
                forall|r: int|
                    0 <= r < j ==> (#[trigger] matrix_rows(&seq_ranked)[r])[i as int] == rank_of(
                        cells,
                        rows[r][i as int],
                    ),
            decreases nrows - j,
        {
            let elem: u32 = array_get(seq, j, i);
            proof {
                assert(cells[j as int] == elem);
                assert(current_ranks@.contains_key(elem));
            }
            let rank: u32 = *current_ranks.get(&elem).unwrap();
            let ghost before = matrix_rows(&seq_ranked);
            array_set(&mut seq_ranked, j, i, rank);
            proof {
                let after = matrix_rows(&seq_ranked);
                assert forall|r: int, c: int| 0 <= r < nrows && 0 <= c < i implies (
                #[trigger] after[r][c]) == rank_of(grid_column(rows, c), rows[r][c]) by {
                    assert(after[r][c] == before[r][c]);
                }
                assert forall|r: int| 0 <= r < j + 1 implies (#[trigger] after[r])[i as int]
                    == rank_of(cells, rows[r][i as int]) by {
                    if r < j {
                        assert(after[r] == before[r]);
                    }
                }
            }
            j += 1;
        }
        i += 1;
    }
    seq_ranked
}

/// The rank transform of any matrix whose columns are short enough for
/// 32-bit counts, and `None` for one with more than `u32::MAX` rows.
pub fn try_rank_sequences(seq: &Matrix) -> (res: Option<Matrix>)
    ensures
        res is Some <==> matrix_rows(seq).len() <= u32::MAX,
        res is Some ==> matrix_width(&res->Some_0) == matrix_width(seq),
        res is Some ==> is_rank_transform(
            matrix_rows(seq),
            matrix_width(seq),
            matrix_rows(&res->Some_0),
        ),
{
    if array_nrows(seq) <= u32::MAX as usize {
        Some(rank_sequences(seq))
    } else {
        None
    }
}

} // verus!
