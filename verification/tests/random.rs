use reductos::random::{random_binary_matrix, row_from_draws};

#[test]
fn random_matrix_shape_and_values() {
    let m = random_binary_matrix(50, 7);
    assert_eq!(m.len(), 50);
    for row in m.iter() {
        assert_eq!(row.len(), 7);
        assert!(row.iter().all(|&v| v < 2));
    }
    assert!(random_binary_matrix(0, 3).is_empty());
}

#[test]
fn random_matrix_is_not_constant() {
    let m = random_binary_matrix(40, 40);
    let ones: usize = m.iter().map(|r| r.iter().filter(|&&v| v == 1).count()).sum();
    assert!(ones > 0 && ones < 1600);
}

#[test]
fn chromosome_from_draws() {
    let draws: Vec<u32> = [0.3f32, 0.9, 0.0, 0.5].iter().map(|x| x.to_bits()).collect();
    let dist: Vec<u32> = [0.5f32, 0.5, 0.0, 1.0].iter().map(|x| x.to_bits()).collect();
    assert_eq!(row_from_draws(&draws, &dist), vec![0, 1, 1, 0]);
}

#[test]
fn certain_and_impossible_positions() {
    let draws: Vec<u32> = [0.0f32, 0.99999994, 0.5, 0.5].iter().map(|x| x.to_bits()).collect();
    let dist: Vec<u32> = [1.0f32, 2.0, -0.0, f32::NAN].iter().map(|x| x.to_bits()).collect();
    assert_eq!(row_from_draws(&draws, &dist), vec![0, 0, 1, 1]);
}
