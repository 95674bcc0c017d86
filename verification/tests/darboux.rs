use lau_symplectic_geometry::darboux::{symplectic_pairs, DarbouxError};

fn pattern(dim: usize, edges: &[(usize, usize)]) -> Vec<Vec<bool>> {
    let mut m = vec![vec![false; dim]; dim];
    for &(i, j) in edges {
        m[i][j] = true;
        m[j][i] = true;
    }
    m
}

#[test]
fn canonical_pattern_pairs_q_with_p() {
    let nz = pattern(4, &[(0, 2), (1, 3)]);
    assert_eq!(symplectic_pairs(&nz, 2), Ok(vec![(0, 2), (1, 3)]));
}

#[test]
fn block_diagonal_pattern_pairs_neighbours() {
    let nz = pattern(6, &[(0, 1), (2, 3), (4, 5)]);
    assert_eq!(symplectic_pairs(&nz, 3), Ok(vec![(0, 1), (2, 3), (4, 5)]));
}

#[test]
fn least_partner_is_chosen() {
    let nz = pattern(4, &[(0, 3), (0, 1), (1, 2), (2, 3)]);
    assert_eq!(symplectic_pairs(&nz, 2), Ok(vec![(0, 1), (2, 3)]));
}

#[test]
fn degenerate_pattern_has_no_pair() {
    let nz = pattern(2, &[]);
    assert_eq!(symplectic_pairs(&nz, 1), Err(DarbouxError::NoSymplecticPair));
}

#[test]
fn greedy_search_can_get_stuck() {
    // A perfect pairing (0,3), (1,2) exists, but the greedy search takes (0,1)
    // first and then finds no partner for 2.
    let nz = pattern(4, &[(0, 1), (0, 3), (1, 2)]);
    assert_eq!(symplectic_pairs(&nz, 2), Err(DarbouxError::NoSymplecticPair));
}

#[test]
fn zero_dimension_needs_no_pairs() {
    let nz: Vec<Vec<bool>> = Vec::new();
    assert_eq!(symplectic_pairs(&nz, 0), Ok(vec![]));
}
