use reductos::testors::{is_indiscernible, is_reduct, is_testor, lex_algorithm, lex_helper, to_binary_matrix};

#[test]
fn reduct_of_nothing_holds() {
    assert!(is_reduct(&[], &[true, false]));
    assert!(is_reduct(&[5, 7], &[]));
}

#[test]
fn reduct_needs_a_constant_target() {
    assert!(is_reduct(&[0, 2], &[true, false, true]));
    assert!(!is_reduct(&[0, 1], &[true, false, true]));
    assert!(is_reduct(&[1, 1, 1], &[true, false, true]));
}

#[test]
fn reduct_stops_at_the_first_disagreement() {
    // index 9 lies outside the target but comes after a disagreement
    assert!(!is_reduct(&[0, 1, 9], &[true, false, true]));
}

#[test]
fn indiscernible_against_listed_indices() {
    let row = [true, false, true, true];
    // row[0] == true, and the testor attributes 2, 3 hold true
    assert!(is_indiscernible(&row, &[2, 3], &[0]));
    // row[1] == false, attribute 0 holds true
    assert!(!is_indiscernible(&row, &[0], &[1]));
    // second listed index matches
    assert!(is_indiscernible(&row, &[1], &[0, 1]));
    assert!(!is_indiscernible(&row, &[0, 1], &[]));
}

#[test]
fn every_candidate_is_a_testor() {
    let data = vec![vec![true, false], vec![false, false], vec![true, true]];
    assert!(is_testor(&data, &[true, true], &[]));
    assert!(is_testor(&data, &[true, false], &[0, 1]));
    assert!(is_testor(&data, &[false], &[1]));
}

#[test]
fn lex_lists_all_subsets_in_depth_first_order() {
    let data = vec![vec![true, false, true]];
    let testors = lex_algorithm(&data, &[true, true, true]);
    let expected: Vec<Vec<usize>> = vec![
        vec![],
        vec![0],
        vec![0, 1],
        vec![0, 1, 2],
        vec![0, 2],
        vec![1],
        vec![1, 2],
        vec![2],
    ];
    assert_eq!(testors, expected);
}

#[test]
fn lex_counts_two_to_the_attributes() {
    let data = vec![vec![false; 6], vec![true; 6]];
    let testors = lex_algorithm(&data, &[true; 6]);
    assert_eq!(testors.len(), 64);
    let mut sorted = testors.clone();
    sorted.sort();
    sorted.dedup();
    assert_eq!(sorted.len(), 64);
    for t in testors.iter() {
        for w in t.windows(2) {
            assert!(w[0] < w[1]);
        }
    }
}

#[test]
fn lex_with_no_attributes() {
    let data = vec![vec![]];
    assert_eq!(lex_algorithm(&data, &[]), vec![Vec::<usize>::new()]);
}

#[test]
fn helper_appends_and_restores_candidate() {
    let data = vec![vec![true, true]];
    let mut candidate = vec![7];
    let mut testors = vec![vec![42]];
    lex_helper(&data, &[true], &[3, 4], 1, &mut candidate, &mut testors);
    assert_eq!(candidate, vec![7]);
    assert_eq!(testors, vec![vec![42], vec![7], vec![7, 4]]);
}

#[test]
fn binary_matrix_from_ones() {
    let m = to_binary_matrix(&vec![vec![1, 0, 2], vec![1]]);
    assert_eq!(m, vec![vec![true, false, false], vec![true]]);
}
