use ranking::{Column, Matrix, _convert_to_ranks, _count_occurrences, _sort_occurrences};
use std::collections::HashMap;

#[test]
fn test_count_occurences() {
    let input = Column::from_slice(&[0, 2, 0, 1, 0, 2, 2]);

    let obs = _count_occurrences(&input);
    let mut exp = HashMap::new();
    exp.insert(1, 1);
    exp.insert(2, 3);

    assert_eq!(obs, exp)
}

#[test]
fn test_sort_occurences() {
    let mut input = HashMap::new();
    input.insert(1, 2);
    input.insert(2, 3);
    input.insert(3, 4);
    input.insert(4, 4);
    input.insert(6, 2);

    let obs = _sort_occurrences(&input);
    let exp: [(&u32, &u32); 5] = [(&3, &4), (&4, &4), (&2, &3), (&1, &2), (&6, &2)];
    let test = exp.iter().zip(obs).all(|(e, o)| *e == o);

    assert_eq!(test, true);
}

#[test]
fn test_convert_to_ranks() {
    let input = vec![(&3, &4), (&4, &4), (&2, &3), (&1, &2), (&6, &2)];

    let obs = _convert_to_ranks(&input);
    let mut exp = HashMap::new();
    exp.insert(4, 4);
    exp.insert(3, 5);
    exp.insert(6, 1);
    exp.insert(2, 3);
    exp.insert(1, 2);
    exp.insert(0, 0);

    assert_eq!(obs.len(), exp.len());
    assert_eq!(exp.keys().all(|k| obs.contains_key(k)), true);
    assert_eq!(exp.iter().all(|(k, v)| obs[k] == *v), true);
}

#[test]
fn count_skips_gaps_entirely() {
    let obs = _count_occurrences(&Column::from_slice(&[0, 0, 0, 0, 0]));
    assert!(obs.is_empty());
}

#[test]
fn count_of_a_single_cell() {
    let obs = _count_occurrences(&Column::from_slice(&[7]));
    assert_eq!(obs.len(), 1);
    assert_eq!(obs[&7], 1);
}

#[test]
fn count_reads_the_chosen_column() {
    let matrix = Matrix::from_shape_vec(3, 2, vec![1, 5, 1, 0, 2, 5]).unwrap();
    let left = _count_occurrences(&matrix.column(0).unwrap());
    let right = _count_occurrences(&matrix.column(1).unwrap());
    assert_eq!(left.len(), 2);
    assert_eq!(left[&1], 2);
    assert_eq!(left[&2], 1);
    assert_eq!(right.len(), 1);
    assert_eq!(right[&5], 2);
}

#[test]
fn sort_holds_the_exact_length() {
    let mut input = HashMap::new();
    input.insert(1, 2);
    input.insert(2, 3);
    input.insert(3, 4);
    input.insert(4, 4);
    input.insert(6, 2);
    let obs = _sort_occurrences(&input);
    assert_eq!(obs.len(), 5);
    assert_eq!(obs, vec![(&3, &4), (&4, &4), (&2, &3), (&1, &2), (&6, &2)]);
}

#[test]
fn sort_of_an_empty_table() {
    let input: HashMap<u32, u32> = HashMap::new();
    assert!(_sort_occurrences(&input).is_empty());
}

#[test]
fn sort_breaks_ties_by_ascending_symbol() {
    let mut input = HashMap::new();
    input.insert(9, 1);
    input.insert(3, 1);
    input.insert(5, 1);
    let obs = _sort_occurrences(&input);
    assert_eq!(obs, vec![(&3, &1), (&5, &1), (&9, &1)]);
}

#[test]
fn sort_puts_the_larger_count_first() {
    let mut input = HashMap::new();
    input.insert(1, 1);
    input.insert(2, 3);
    let obs = _sort_occurrences(&input);
    assert_eq!(obs, vec![(&2, &3), (&1, &1)]);
}

#[test]
fn ranks_of_an_empty_list_hold_only_the_gap() {
    let input: Vec<(&u32, &u32)> = Vec::new();
    let obs = _convert_to_ranks(&input);
    assert_eq!(obs.len(), 1);
    assert_eq!(obs[&0], 0);
}

#[test]
fn ranks_of_a_single_entry() {
    let input = vec![(&7, &1)];
    let obs = _convert_to_ranks(&input);
    assert_eq!(obs.len(), 2);
    assert_eq!(obs[&7], 1);
    assert_eq!(obs[&0], 0);
}

#[test]
fn ranks_of_two_entries() {
    let input = vec![(&2, &3), (&1, &1)];
    let obs = _convert_to_ranks(&input);
    assert_eq!(obs.len(), 3);
    assert_eq!(obs[&2], 2);
    assert_eq!(obs[&1], 1);
    assert_eq!(obs[&0], 0);
}

#[test]
fn ranks_keep_the_gap_at_zero_even_if_listed() {
    let input = vec![(&0, &9), (&4, &2)];
    let obs = _convert_to_ranks(&input);
    assert_eq!(obs.len(), 2);
    assert_eq!(obs[&0], 0);
    assert_eq!(obs[&4], 1);
}

#[test]
fn ranks_let_a_later_entry_replace_an_earlier_one() {
    let input = vec![(&4, &2), (&5, &2), (&4, &1)];
    let obs = _convert_to_ranks(&input);
    assert_eq!(obs.len(), 3);
    assert_eq!(obs[&4], 1);
    assert_eq!(obs[&5], 2);
}

#[test]
fn count_of_an_empty_column() {
    let input = Column::from_slice(&[]);
    assert_eq!(input.len(), 0);
    assert!(_count_occurrences(&input).is_empty());
}

#[test]
fn column_of_a_slice_holds_its_cells() {
    let input = Column::from_slice(&[4, 0, 9]);
    assert_eq!(input.len(), 3);
    assert_eq!(input.get(0), Some(4));
    assert_eq!(input.get(1), Some(0));
    assert_eq!(input.get(2), Some(9));
    assert_eq!(input.get(3), None);
}
