use reductos::thresholds::{
    apply_threshold, check_threshold, count_vectors_below_threshold, fitness_counts, is_afines,
    is_less, less, select_columns, FITNESS_ALPHA_BITS,
};

fn bits(v: &[f32]) -> Vec<u32> {
    v.iter().map(|x| x.to_bits()).collect()
}

fn matrix(rows: &[&[f32]]) -> Vec<Vec<u32>> {
    rows.iter().map(|r| bits(r)).collect()
}

#[test]
fn afines_when_all_below() {
    let a = 0.1f32.to_bits();
    assert!(is_afines(&bits(&[0.0, 0.05, -3.0]), a));
    assert!(!is_afines(&bits(&[0.0, 0.1]), a));
    assert!(!is_afines(&bits(&[f32::NAN]), a));
    assert!(is_afines(&bits(&[]), a));
}

#[test]
fn check_leaves_one_position_out() {
    let a = 0.1f32.to_bits();
    let row = bits(&[0.0, 5.0, 0.01]);
    assert!(check_threshold(&row, 1, a));
    assert!(!check_threshold(&row, 0, a));
}

#[test]
fn afines_row_passes_every_check() {
    let a = 0.5f32.to_bits();
    let row = bits(&[0.1, 0.2, 0.3]);
    assert!(is_afines(&row, a));
    for i in 0..3 {
        assert!(check_threshold(&row, i, a));
    }
}

#[test]
fn count_rows_below_except_a_position() {
    let a = 0.1f32.to_bits();
    let m = matrix(&[&[0.0, 1.0, 0.0], &[0.5, 1.0, 0.0], &[0.0, 0.0, 0.0]]);
    assert_eq!(count_vectors_below_threshold(&m, 1, a), 2);
    assert_eq!(count_vectors_below_threshold(&m, 0, a), 1);
    assert_eq!(count_vectors_below_threshold(&m, 2, a), 1);
}

#[test]
fn count_covers_afines_rows() {
    let a = 0.1f32.to_bits();
    let m = matrix(&[&[0.0, 0.0], &[0.5, 0.0], &[0.0, 0.05]]);
    let afines = m.iter().filter(|r| is_afines(r, a)).count();
    for j in 0..2 {
        assert!(count_vectors_below_threshold(&m, j, a) >= afines);
    }
}

#[test]
fn fitness_counts_exact() {
    assert_eq!(FITNESS_ALPHA_BITS, 0.1f32.to_bits());
    let m = matrix(&[
        &[0.0, 0.0, 0.0, 0.0],
        &[0.5, 0.0, 0.0, 0.0],
        &[0.0, 0.5, 0.0, 0.0],
        &[0.0, 0.0, 0.0, 0.9],
    ]);
    // rows all below: only the first; positions 0..3: j=0 -> rows 0,1 ; j=1 -> rows 0,2 ; j=2 -> row 0
    assert_eq!(fitness_counts(&m), (1, 2));
}

#[test]
fn is_less_and_less() {
    let a = bits(&[1.0, 2.0]);
    let b = bits(&[1.5, 3.0]);
    let c = bits(&[1.0, 3.0]);
    assert!(is_less(&a, &b));
    assert!(!is_less(&a, &c));
    assert!(less(&a, &b));
    assert!(less(&a, &c));
    assert!(!less(&b, &a));
    // NaN compares neither way
    let n = bits(&[f32::NAN, f32::NAN]);
    assert!(is_less(&n, &a));
    assert!(less(&n, &a));
}

#[test]
fn less_with_shorter_second_row_after_a_greater_value() {
    let a = bits(&[5.0, 1.0, 1.0]);
    let b = bits(&[1.0]);
    assert!(!less(&a, &b));
}

#[test]
fn is_less_implies_less() {
    let a = bits(&[-1.0, 0.0, 2.0]);
    let b = bits(&[0.0, 1.0, 3.0]);
    assert!(is_less(&a, &b));
    assert!(less(&a, &b));
}

#[test]
fn threshold_to_zero_one() {
    let m = matrix(&[&[0.1, 0.2, f32::NAN], &[]]);
    let t = apply_threshold(&m, 0.15f32.to_bits());
    assert_eq!(t, vec![bits(&[0.0, 1.0, 1.0]), vec![]]);
}

#[test]
fn columns_selected_in_order() {
    let m = vec![vec![10, 11, 12, 13], vec![20, 21, 22, 23]];
    assert_eq!(select_columns(&m, &vec![3, 0, 3]), vec![vec![13, 10, 13], vec![23, 20, 23]]);
    assert_eq!(select_columns(&m, &vec![]), vec![Vec::<u32>::new(), vec![]]);
}
