use reductos::columns::{binarize_against, column_maxes, column_middles, column_mins, sort_values, uniform_width, Middle};

fn bits(v: &[f32]) -> Vec<u32> {
    v.iter().map(|x| x.to_bits()).collect()
}

fn matrix(rows: &[&[f32]]) -> Vec<Vec<u32>> {
    rows.iter().map(|r| bits(r)).collect()
}

#[test]
fn maxes_start_at_zero() {
    let m = matrix(&[&[-1.0, 2.0, -5.0], &[-3.0, 7.0]]);
    assert_eq!(column_maxes(&m), bits(&[0.0, 7.0, 0.0]));
}

#[test]
fn mins_and_shape() {
    let m = matrix(&[&[3.0, 2.0], &[1.0, 5.0]]);
    assert_eq!(column_mins(&m), Some(bits(&[1.0, 2.0])));
    assert_eq!(column_mins(&Vec::new()), None);
    assert_eq!(column_mins(&matrix(&[&[1.0], &[1.0, 2.0]])), None);
    assert_eq!(column_mins(&matrix(&[&[f32::INFINITY]])), Some(bits(&[f32::MAX])));
}

#[test]
fn min_is_below_each_value() {
    let m = matrix(&[&[3.0, -2.0], &[1.0, 5.0], &[4.0, 0.0]]);
    let mins = column_mins(&m).unwrap();
    for r in m.iter() {
        for i in 0..2 {
            assert!(f32::from_bits(mins[i]) <= f32::from_bits(r[i]));
        }
    }
}

#[test]
fn width_of_rectangular_matrix() {
    assert_eq!(uniform_width(&matrix(&[&[1.0, 2.0], &[3.0, 4.0]])), Some(2));
    assert_eq!(uniform_width(&matrix(&[&[1.0, 2.0], &[3.0]])), None);
    assert_eq!(uniform_width(&Vec::new()), None);
}

#[test]
fn binarize_rows() {
    let m = matrix(&[&[1.0, 2.0], &[3.0, 0.5]]);
    let t = bits(&[2.0, 1.0]);
    assert_eq!(binarize_against(&m, &t), Some(matrix(&[&[0.0, 1.0], &[1.0, 0.0]])));
    assert_eq!(binarize_against(&matrix(&[&[1.0]]), &t), None);
}

#[test]
fn stable_sorting() {
    let s = sort_values(&bits(&[3.0, -0.0, 1.0, 0.0, -2.0]));
    assert_eq!(s, bits(&[-2.0, -0.0, 0.0, 1.0, 3.0]));
    let s = sort_values(&bits(&[0.0, -0.0]));
    assert_eq!(s, bits(&[0.0, -0.0]));
}

#[test]
fn middles_odd_and_even() {
    let m = matrix(&[&[3.0, 4.0], &[1.0, 1.0], &[2.0, 8.0]]);
    assert_eq!(
        column_middles(&m),
        Some(vec![Middle::Single(2.0f32.to_bits()), Middle::Single(4.0f32.to_bits())])
    );
    let m = matrix(&[&[3.0], &[1.0]]);
    assert_eq!(column_middles(&m), Some(vec![Middle::Pair(1.0f32.to_bits(), 3.0f32.to_bits())]));
    assert_eq!(column_middles(&Vec::new()), None);
}

#[test]
fn max_is_above_each_value_and_zero() {
    let m = matrix(&[&[-3.0, 2.0], &[1.0, 5.0], &[4.0, f32::NAN]]);
    let maxes = column_maxes(&m);
    assert_eq!(maxes, bits(&[4.0, 5.0]));
    for r in m.iter() {
        for i in 0..2 {
            let v = f32::from_bits(r[i]);
            if !v.is_nan() {
                assert!(v <= f32::from_bits(maxes[i]));
            }
        }
    }
}

#[test]
fn medians_defined_without_nan() {
    assert!(reductos::columns::medians_defined(&Vec::new()));
    assert!(reductos::columns::medians_defined(&matrix(&[&[f32::NAN]])));
    assert!(!reductos::columns::medians_defined(&matrix(&[&[f32::NAN], &[1.0]])));
    assert!(!reductos::columns::medians_defined(&matrix(&[&[1.0, 2.0], &[1.0]])));
    assert!(reductos::columns::medians_defined(&matrix(&[&[1.0], &[1.0, f32::NAN]])));
}
