use lau_symplectic_geometry::PoissonBracket;

#[test]
fn test_canonical_qq_bracket() {
    let pb = PoissonBracket::new(2);
    let cb = pb.canonical_brackets();
    assert_eq!(cb.qq(0, 1), 0);
    assert_eq!(cb.qq(0, 0), 0);
}

#[test]
fn test_canonical_pp_bracket() {
    let pb = PoissonBracket::new(2);
    let cb = pb.canonical_brackets();
    assert_eq!(cb.pp(0, 1), 0);
}

#[test]
fn test_canonical_qp_bracket() {
    let pb = PoissonBracket::new(2);
    let cb = pb.canonical_brackets();
    assert_eq!(cb.qp(0, 0), 1);
    assert_eq!(cb.qp(0, 1), 0);
    assert_eq!(cb.qp(1, 1), 1);
}

#[test]
fn poisson_bracket_keeps_half_dimension() {
    let pb = PoissonBracket::new(7);
    assert_eq!(pb.n, 7);
}

#[test]
fn canonical_qp_is_symmetric_kronecker_delta() {
    let cb = PoissonBracket::new(3).canonical_brackets();
    for i in 0..3 {
        for j in 0..3 {
            assert_eq!(cb.qp(i, j), cb.qp(j, i));
            assert_eq!(cb.qp(i, j), if i == j { 1 } else { 0 });
            assert_eq!(cb.qq(i, j), 0);
            assert_eq!(cb.pp(i, j), 0);
        }
    }
}
