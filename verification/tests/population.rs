use reductos::population::{
    distribution_counts, filter_uniq, find_ones_indices, get_features, is_zero, marginal_sums,
    new_binary_array, place_one, CHROMOSOME_LEN,
};

#[test]
fn ones_positions() {
    assert_eq!(find_ones_indices(&vec![0, 1, 1, 0, 2, 1]), vec![1, 2, 5]);
    assert_eq!(find_ones_indices(&vec![]), Vec::<u32>::new());
}

#[test]
fn features_and_distribution_agree() {
    // four rows: size 4 as i8, scans rows 0..3 and columns 0..2
    let p: Vec<Vec<i8>> = vec![
        vec![1, 0, 1],
        vec![1, 1, 1],
        vec![0, 1, 1],
        vec![1, 1, 1],
    ];
    let counts = distribution_counts(&p);
    assert_eq!(counts, vec![2, 2]);
    let features = get_features(&p);
    assert_eq!(features.len() as u32, counts.iter().sum::<u32>());
    assert!(features.iter().all(|&f| f == 1));
}

#[test]
fn single_column_population() {
    let p: Vec<Vec<i8>> = vec![vec![1]; 300];
    assert_eq!(distribution_counts(&p), Vec::<u32>::new());
    assert_eq!(get_features(&p), Vec::<i8>::new());
}

#[test]
fn marginal_sums_per_column() {
    let p: Vec<Vec<i8>> = vec![vec![1, 0, 1], vec![1, 1, 0], vec![0, 1, -1]];
    assert_eq!(marginal_sums(&p), vec![2, 2, 0]);
}

#[test]
fn zero_buffers() {
    assert!(is_zero(&vec![0; 40]));
    assert!(!is_zero(&vec![0, 0, 3]));
    assert!(is_zero(&vec![]));
}

#[test]
fn uniq_keeps_each_value_once() {
    let mut u = filter_uniq(vec![3, 1, 3, 2, 1, 3]);
    u.sort();
    assert_eq!(u, vec![1, 2, 3]);
    assert_eq!(filter_uniq(vec![]), Vec::<u8>::new());
}

#[test]
fn placing_ones() {
    let mut a = new_binary_array();
    assert_eq!(a.len(), CHROMOSOME_LEN);
    assert!(a.iter().all(|&x| x == 0));
    assert!(place_one(&mut a, 5));
    assert!(!place_one(&mut a, 5));
    assert!(place_one(&mut a, 67));
    assert_eq!(a.iter().filter(|&&x| x == 1).count(), 2);
    assert_eq!(a[5], 1);
}

#[test]
fn scannable_populations() {
    assert!(reductos::population::population_scannable(&vec![vec![1, 0], vec![0, 1]]));
    assert!(!reductos::population::population_scannable(&vec![]));
    assert!(!reductos::population::population_scannable(&vec![vec![]]));
    assert!(reductos::population::population_scannable(&vec![vec![1]; 200]));
    assert!(!reductos::population::population_scannable(&vec![vec![1, 1]; 200]));
    assert!(!reductos::population::population_scannable(&vec![vec![1, 1, 1], vec![1], vec![1, 1, 1]]));
}
