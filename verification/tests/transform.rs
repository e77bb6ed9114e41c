use ranking::{rank_sequences, try_rank_sequences, Matrix};

fn matrix(nrows: usize, ncols: usize, cells: Vec<u32>) -> Matrix {
    Matrix::from_shape_vec(nrows, ncols, cells).unwrap()
}

fn cells_of(m: &Matrix) -> Vec<u32> {
    let mut out = Vec::new();
    for r in 0..m.nrows() {
        for c in 0..m.ncols() {
            out.push(m.get(r, c).unwrap());
        }
    }
    out
}

#[test]
fn matrix_holds_its_cells_row_by_row() {
    let m = matrix(2, 3, vec![1, 2, 3, 4, 5, 6]);
    assert_eq!(m.nrows(), 2);
    assert_eq!(m.ncols(), 3);
    assert_eq!(m.get(0, 0), Some(1));
    assert_eq!(m.get(0, 2), Some(3));
    assert_eq!(m.get(1, 0), Some(4));
    assert_eq!(m.get(1, 2), Some(6));
    assert_eq!(m.get(2, 0), None);
    assert_eq!(m.get(0, 3), None);
}

#[test]
fn matrix_rejects_a_wrong_cell_count() {
    assert!(Matrix::from_shape_vec(2, 2, vec![1, 2, 3]).is_none());
    assert!(Matrix::from_shape_vec(2, 2, vec![1, 2, 3, 4, 5]).is_none());
    assert!(Matrix::from_shape_vec(0, 2, vec![1]).is_none());
    assert!(Matrix::from_shape_vec(2, 2, vec![1, 2, 3, 4]).is_some());
}

#[test]
fn matrix_rejects_an_axis_beyond_the_address_space() {
    assert!(Matrix::from_shape_vec(usize::MAX, 0, Vec::new()).is_none());
    assert!(Matrix::from_shape_vec(0, usize::MAX, Vec::new()).is_none());
}

#[test]
fn column_views_run_top_to_bottom() {
    let m = matrix(3, 2, vec![1, 5, 1, 0, 2, 5]);
    let right = m.column(1).unwrap();
    assert_eq!(right.len(), 3);
    assert_eq!(right.get(0), Some(5));
    assert_eq!(right.get(1), Some(0));
    assert_eq!(right.get(2), Some(5));
    assert_eq!(right.get(3), None);
    assert!(m.column(2).is_none());
}

#[test]
fn ranks_a_column_with_gaps() {
    let m = matrix(7, 1, vec![0, 2, 0, 1, 0, 2, 2]);
    let ranked = rank_sequences(&m);
    assert_eq!(cells_of(&ranked), vec![0, 2, 0, 1, 0, 2, 2]);
}

#[test]
fn ranks_a_column_with_ties() {
    let m = matrix(15, 1, vec![1, 1, 2, 2, 2, 3, 3, 3, 3, 4, 4, 4, 4, 6, 6]);
    let ranked = rank_sequences(&m);
    assert_eq!(cells_of(&ranked), vec![2, 2, 3, 3, 3, 5, 5, 5, 5, 4, 4, 4, 4, 1, 1]);
}

#[test]
fn ranks_an_all_gap_column() {
    let m = matrix(5, 1, vec![0, 0, 0, 0, 0]);
    let ranked = rank_sequences(&m);
    assert_eq!(ranked.nrows(), 5);
    assert_eq!(ranked.ncols(), 1);
    assert_eq!(cells_of(&ranked), vec![0, 0, 0, 0, 0]);
}

#[test]
fn ranks_a_single_cell() {
    let m = matrix(1, 1, vec![7]);
    let ranked = rank_sequences(&m);
    assert_eq!(cells_of(&ranked), vec![1]);
}

#[test]
fn ranks_each_column_on_its_own() {
    let m = matrix(3, 2, vec![1, 5, 1, 0, 2, 5]);
    let ranked = rank_sequences(&m);
    assert_eq!(ranked.nrows(), 3);
    assert_eq!(ranked.ncols(), 2);
    assert_eq!(cells_of(&ranked), vec![2, 1, 2, 0, 1, 1]);
}

#[test]
fn ranks_equal_counts_by_descending_symbol() {
    let m = matrix(2, 1, vec![9, 3]);
    let ranked = rank_sequences(&m);
    assert_eq!(cells_of(&ranked), vec![1, 2]);
}

#[test]
fn ranks_large_symbol_codes() {
    let m = matrix(3, 1, vec![u32::MAX, 1, u32::MAX]);
    let ranked = rank_sequences(&m);
    assert_eq!(cells_of(&ranked), vec![2, 1, 2]);
}

#[test]
fn keeps_the_shape_of_a_matrix_without_rows() {
    let m = matrix(0, 3, Vec::new());
    let ranked = rank_sequences(&m);
    assert_eq!(ranked.nrows(), 0);
    assert_eq!(ranked.ncols(), 3);
}

#[test]
fn keeps_the_shape_of_a_matrix_without_columns() {
    let m = matrix(2, 0, Vec::new());
    let ranked = rank_sequences(&m);
    assert_eq!(ranked.nrows(), 2);
    assert_eq!(ranked.ncols(), 0);
}

#[test]
fn leaves_the_input_untouched() {
    let m = matrix(3, 2, vec![1, 5, 1, 0, 2, 5]);
    let _ = rank_sequences(&m);
    assert_eq!(cells_of(&m), vec![1, 5, 1, 0, 2, 5]);
}

#[test]
fn gaps_stay_gaps_and_nothing_else_becomes_one() {
    let cells = vec![4, 0, 7, 7, 0, 0, 4, 9, 1, 0, 9, 9];
    let m = matrix(4, 3, cells.clone());
    let ranked = cells_of(&rank_sequences(&m));
    for (before, after) in cells.iter().zip(ranked.iter()) {
        assert_eq!(*before == 0, *after == 0);
    }
}

#[test]
fn ranks_of_a_column_number_its_symbols() {
    // Counts: 8 three times, 2 and 5 twice each, 6 once; two gaps.
    let cells = vec![8, 2, 0, 5, 8, 6, 2, 0, 5, 8];
    let ranked = cells_of(&rank_sequences(&matrix(10, 1, cells.clone())));
    assert_eq!(ranked, vec![4, 3, 0, 2, 4, 1, 3, 0, 2, 4]);
    let mut seen = Vec::new();
    for (symbol, rank) in cells.iter().zip(ranked.iter()) {
        if *symbol != 0 {
            assert!(1 <= *rank && *rank <= 4);
            if !seen.contains(&(*symbol, *rank)) {
                seen.push((*symbol, *rank));
            }
        }
    }
    seen.sort_by_key(|pair| pair.1);
    assert_eq!(seen, vec![(6, 1), (5, 2), (2, 3), (8, 4)]);
}

#[test]
fn a_more_frequent_symbol_ranks_higher() {
    let cells = vec![3, 3, 3, 1, 1, 2];
    let ranked = cells_of(&rank_sequences(&matrix(6, 1, cells)));
    assert_eq!(ranked, vec![3, 3, 3, 2, 2, 1]);
}

#[test]
fn ranking_twice_is_well_defined() {
    let m = matrix(4, 1, vec![5, 5, 9, 0]);
    let once = rank_sequences(&m);
    assert_eq!(cells_of(&once), vec![2, 2, 1, 0]);
    let twice = rank_sequences(&once);
    assert_eq!(cells_of(&twice), vec![2, 2, 1, 0]);
}

#[test]
fn the_guarded_transform_agrees_with_the_plain_one() {
    let m = matrix(3, 2, vec![1, 5, 1, 0, 2, 5]);
    let ranked = try_rank_sequences(&m).unwrap();
    assert_eq!(ranked.nrows(), 3);
    assert_eq!(ranked.ncols(), 2);
    assert_eq!(cells_of(&ranked), vec![2, 1, 2, 0, 1, 1]);
}
