use reductos::matrices::{
    basic_matrix, basic_matrix_marks, convert_to_vectors_of_3, discernible_pairs, drop_afines_rows,
    extract_last_element, remove_first_element, remove_marked_rows,
};

fn bits(v: &[f32]) -> Vec<u32> {
    v.iter().map(|x| x.to_bits()).collect()
}

fn matrix(rows: &[&[f32]]) -> Vec<Vec<u32>> {
    rows.iter().map(|r| bits(r)).collect()
}

#[test]
fn last_elements_split_off() {
    let mut m = vec![vec![1, 2, 3], vec![], vec![9]];
    let last = extract_last_element(&mut m);
    assert_eq!(last, vec![3, 9]);
    assert_eq!(m, vec![vec![1, 2], vec![], vec![]]);
}

#[test]
fn first_elements_dropped() {
    assert_eq!(remove_first_element(vec![vec![1, 2, 3], vec![4]]), vec![vec![2, 3], vec![]]);
}

#[test]
fn groups_of_three() {
    let g = convert_to_vectors_of_3(vec![vec![1, 2, 3, 4, 5, 6, 7], vec![], vec![1, 2, 3]]);
    assert_eq!(g[0], vec![vec![1, 2, 3], vec![4, 5, 6], vec![7]]);
    assert_eq!(g[1], Vec::<Vec<u32>>::new());
    assert_eq!(g[2], vec![vec![1, 2, 3]]);
    let flat: Vec<u32> = g[0].iter().flatten().copied().collect();
    assert_eq!(flat, vec![1, 2, 3, 4, 5, 6, 7]);
}

#[test]
fn pairs_of_different_classes() {
    let classes = bits(&[1.0, 2.0, 1.0, 3.0]);
    assert_eq!(discernible_pairs(&classes), vec![(0, 1), (0, 3), (1, 2), (1, 3), (2, 3)]);
    let nan = bits(&[f32::NAN, f32::NAN]);
    assert_eq!(discernible_pairs(&nan), vec![(0, 1)]);
    let zeros = bits(&[0.0, -0.0]);
    assert_eq!(discernible_pairs(&zeros), Vec::<(usize, usize)>::new());
}

#[test]
fn afines_rows_dropped() {
    let m = matrix(&[&[0.0, 0.1], &[0.2, 0.3], &[0.01, 0.02]]);
    assert_eq!(drop_afines_rows(&m, 0.15f32.to_bits()), matrix(&[&[0.2, 0.3]]));
    assert_eq!(drop_afines_rows(&m, 0.5f32.to_bits()), Vec::<Vec<u32>>::new());
}

#[test]
fn marks_of_dominated_rows() {
    // row 1 is below row 0 everywhere: row 0 compared with row 1 -> is_less(row0,row1) false,
    // less(row1,row0) true -> mark 0
    let m = matrix(&[&[2.0, 2.0], &[1.0, 1.0], &[3.0, 0.5]]);
    let marks = basic_matrix_marks(&m);
    assert_eq!(marks, vec![0]);
    assert_eq!(basic_matrix(m.clone()), matrix(&[&[1.0, 1.0], &[3.0, 0.5]]));
}

#[test]
fn marks_when_a_row_is_below_the_next() {
    let m = matrix(&[&[1.0, 1.0], &[2.0, 2.0], &[1.5, 3.0]]);
    // row 0 < row 1 and row 0 < row 2 -> marks 1, 2 ; row 1 vs row 2 -> neither -> nothing
    assert_eq!(basic_matrix_marks(&m), vec![1, 2]);
    assert_eq!(basic_matrix(m), matrix(&[&[1.0, 1.0]]));
}

#[test]
fn removal_by_marks() {
    let m = vec![vec![0], vec![1], vec![2], vec![3]];
    assert_eq!(remove_marked_rows(m, vec![3, 1, 3]), vec![vec![0], vec![2]]);
}

#[test]
fn basic_matrix_needs_equal_lengths() {
    assert!(reductos::matrices::basic_matrix_defined(&matrix(&[&[1.0, 2.0], &[0.0, 1.0]])));
    assert!(!reductos::matrices::basic_matrix_defined(&matrix(&[&[1.0, 2.0], &[0.0]])));
    // row 1 is compared with row 2, of another length
    assert!(reductos::matrices::basic_matrix_defined(&matrix(&[&[2.0], &[1.0], &[1.0, 1.0]])) == false);
    assert!(reductos::matrices::basic_matrix_defined(&matrix(&[&[2.0, 2.0], &[1.0, 1.0], &[5.0]])) == false);
}
