use lau_symplectic_geometry::structure::{canonical_j_entries, half_dim_of_square, ShapeError};

fn product(a: &[Vec<i8>], b: &[Vec<i8>]) -> Vec<Vec<i64>> {
    let dim = a.len();
    (0..dim)
        .map(|r| {
            (0..dim)
                .map(|c| (0..dim).map(|k| a[r][k] as i64 * b[k][c] as i64).sum())
                .collect()
        })
        .collect()
}

fn transpose(a: &[Vec<i8>]) -> Vec<Vec<i8>> {
    let dim = a.len();
    (0..dim).map(|r| (0..dim).map(|c| a[c][r]).collect()).collect()
}

fn narrow(a: &[Vec<i64>]) -> Vec<Vec<i8>> {
    a.iter().map(|row| row.iter().map(|&x| x as i8).collect()).collect()
}

#[test]
fn test_canonical_form_is_skew_symmetric() {
    let m = canonical_j_entries(2);
    assert_eq!(m[0][2], 1);
    assert_eq!(m[2][0], -1);
    assert_eq!(m[1][3], 1);
    assert_eq!(m[3][1], -1);
}

#[test]
fn test_j_squared_is_minus_identity() {
    let j = canonical_j_entries(2);
    let j2 = product(&j, &j);
    for i in 0..4 {
        for k in 0..4 {
            assert_eq!(j2[i][k], if i == k { -1 } else { 0 });
        }
    }
}

#[test]
fn test_canonical_j_is_symplectic() {
    let j = canonical_j_entries(2);
    let jt_j = narrow(&product(&transpose(&j), &j));
    let jt_j_j = product(&jt_j, &j);
    for r in 0..4 {
        for c in 0..4 {
            assert_eq!(jt_j_j[r][c], j[r][c] as i64);
        }
    }
}

#[test]
fn test_from_matrix_odd_dimension_rejected() {
    assert_eq!(half_dim_of_square(3, 3), Err(ShapeError::OddDimension));
}

#[test]
fn test_from_matrix_non_square_rejected() {
    assert_eq!(half_dim_of_square(2, 3), Err(ShapeError::NotSquare));
}

#[test]
fn square_even_shape_gives_half_dimension() {
    assert_eq!(half_dim_of_square(4, 4), Ok(2));
    assert_eq!(half_dim_of_square(0, 0), Ok(0));
    assert_eq!(half_dim_of_square(3, 4), Err(ShapeError::NotSquare));
}

#[test]
fn canonical_j_one_degree_of_freedom() {
    assert_eq!(canonical_j_entries(1), vec![vec![0, 1], vec![-1, 0]]);
}

#[test]
fn canonical_j_of_zero_is_empty() {
    assert!(canonical_j_entries(0).is_empty());
}

#[test]
fn canonical_j_block_structure() {
    let n = 3;
    let j = canonical_j_entries(n);
    assert_eq!(j.len(), 2 * n);
    for r in 0..2 * n {
        assert_eq!(j[r].len(), 2 * n);
        for c in 0..2 * n {
            let expected = if r < n && c == r + n {
                1
            } else if r >= n && c + n == r {
                -1
            } else {
                0
            };
            assert_eq!(j[r][c], expected);
            assert_eq!(j[c][r], -j[r][c]);
        }
    }
}

#[test]
fn canonical_j_is_orthogonal() {
    let j = canonical_j_entries(3);
    let jt_j = product(&transpose(&j), &j);
    for r in 0..6 {
        for c in 0..6 {
            assert_eq!(jt_j[r][c], if r == c { 1 } else { 0 });
        }
    }
}
