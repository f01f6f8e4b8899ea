use contention::matrix::{
    checked_dot, checked_entry, column_of, dot, generate_matrix, matrix_from_draws,
    multiply_matrices, products_fit, COLS, ENTRY_BOUND, ROWS,
};

fn filled(value: u32) -> Vec<Vec<u32>> {
    vec![vec![value; COLS]; ROWS]
}

fn identity() -> Vec<Vec<u32>> {
    let mut m = filled(0);
    for i in 0..ROWS {
        m[i][i] = 1;
    }
    m
}

fn counting() -> Vec<Vec<u32>> {
    let mut m = filled(0);
    for i in 0..ROWS {
        for j in 0..COLS {
            m[i][j] = (i * COLS + j) as u32 % 997;
        }
    }
    m
}

#[test]
fn dot_of_small_vectors() {
    assert_eq!(dot(&[1, 2, 3], &[4, 5, 6], 3), 32);
    assert_eq!(dot(&[1, 2, 3], &[4, 5, 6, 7], 2), 14);
    assert_eq!(dot(&[], &[], 0), 0);
}

#[test]
fn checked_dot_reports_overflow() {
    assert_eq!(checked_dot(&[1, 2, 3], &[4, 5, 6], 3), Some(32));
    assert_eq!(checked_dot(&[u32::MAX], &[1], 1), Some(u32::MAX));
    assert_eq!(checked_dot(&[u32::MAX, 1], &[1, 1], 2), None);
    assert_eq!(checked_dot(&[u32::MAX, 1], &[1, 1], 1), Some(u32::MAX));
    assert_eq!(checked_dot(&[65536], &[65536], 1), None);
}

#[test]
fn column_picks_one_entry_per_row() {
    let m = vec![vec![1, 2, 3], vec![4, 5, 6]];
    assert_eq!(column_of(&m, 1), vec![2, 5]);
    assert_eq!(column_of(&m, 2), vec![3, 6]);
}

#[test]
fn identity_leaves_a_matrix_unchanged() {
    let m = counting();
    assert_eq!(multiply_matrices(&identity(), &m), m);
    assert_eq!(multiply_matrices(&m, &identity()), m);
}

#[test]
fn product_of_constant_matrices() {
    let p = multiply_matrices(&filled(2), &filled(3));
    assert_eq!(p.len(), ROWS);
    for row in &p {
        assert_eq!(row.len(), COLS);
        assert!(row.iter().all(|&v| v == 600));
    }
}

#[test]
fn product_entry_is_row_times_column() {
    let a = counting();
    let b = filled(1);
    let p = multiply_matrices(&a, &b);
    let expected: u32 = a[7].iter().sum();
    assert_eq!(p[7][42], expected);
    assert_eq!(p[7][42], dot(&a[7], &column_of(&b, 42), COLS));
    assert_eq!(checked_entry(&a, &b, 7, 42), Some(expected));
}

#[test]
fn products_fit_detects_overflow() {
    assert!(products_fit(&filled(999), &filled(999)));
    assert!(!products_fit(&filled(10000), &filled(10000)));
}

#[test]
fn generated_matrix_has_shape_and_bound() {
    let m = generate_matrix();
    assert_eq!(m.len(), ROWS);
    for row in &m {
        assert_eq!(row.len(), COLS);
        assert!(row.iter().all(|&v| v < ENTRY_BOUND));
    }
    let other = generate_matrix();
    assert!(products_fit(&m, &other));
    assert_ne!(m, other);
}

fn widened(m: &[Vec<u32>], extra: u32) -> Vec<Vec<u32>> {
    let mut w: Vec<Vec<u32>> = m.iter().map(|row| {
        let mut r = row.clone();
        r.extend(vec![extra; 7]);
        r
    }).collect();
    w.extend(vec![vec![extra; COLS + 7]; 5]);
    w
}

#[test]
fn entries_beyond_the_window_are_ignored() {
    let m = counting();
    let big1 = widened(&m, 123456);
    let big2 = widened(&identity(), 654321);
    assert!(products_fit(&big1, &big2));
    assert_eq!(multiply_matrices(&big1, &big2), m);
    assert_eq!(multiply_matrices(&big1, &widened(&filled(0), 9)), filled(0));
    assert_eq!(multiply_matrices(&widened(&filled(0), 9), &big1), filled(0));
}

#[test]
fn zero_matrix_absorbs() {
    assert_eq!(multiply_matrices(&counting(), &filled(0)), filled(0));
    assert_eq!(multiply_matrices(&filled(0), &counting()), filled(0));
}

#[test]
fn checked_entry_reports_overflow() {
    let mut a = filled(0);
    let b = filled(70000);
    a[3][0] = 70000;
    assert_eq!(checked_entry(&a, &b, 3, 5), None);
    assert_eq!(checked_entry(&a, &b, 2, 5), Some(0));
    assert!(!products_fit(&a, &b));
}

#[test]
fn draws_fill_rows_in_order() {
    let draws: Vec<u32> = (0..(ROWS * COLS) as u32).collect();
    let m = matrix_from_draws(&draws);
    assert_eq!(m.len(), ROWS);
    assert_eq!(m[0][0], 0);
    assert_eq!(m[0][99], 99);
    assert_eq!(m[1][0], 100);
    assert_eq!(m[37][5], 3705);
    assert_eq!(m[99][99], 9999);
}
