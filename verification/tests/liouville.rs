use lau_symplectic_geometry::LiouvilleTheorem;

#[test]
fn volume_normalization_small_values() {
    assert_eq!(LiouvilleTheorem::volume_normalization(0), Some(1));
    assert_eq!(LiouvilleTheorem::volume_normalization(1), Some(1));
    assert_eq!(LiouvilleTheorem::volume_normalization(2), Some(2));
    assert_eq!(LiouvilleTheorem::volume_normalization(10), Some(3628800));
}

#[test]
fn volume_normalization_overflow_is_none() {
    assert_eq!(LiouvilleTheorem::volume_normalization(usize::MAX), None);
    assert_eq!(LiouvilleTheorem::volume_normalization(100), None);
}

#[test]
fn canonical_volume_form_in_four_dimensions() {
    // det J = 1 for the canonical form on R^4, so Ω^2 / 2! = 1/2.
    let factorial = LiouvilleTheorem::volume_normalization(2).unwrap();
    let volume: f64 = 1.0 / factorial as f64;
    assert!((volume - 0.5).abs() < 1e-10);
}
