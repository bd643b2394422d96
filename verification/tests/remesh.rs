use eqiora_numerics::remesh::{dense_zeroed, integer_sqrt};
use eqiora_numerics::Diagnostic;

#[test]
fn dense_reference_allocation_fails_before_shape_overflow() {
    assert!(dense_zeroed::<f64>(usize::MAX).is_err());
}

#[test]
fn dense_reference_allocation_is_zeroed_square() {
    let matrix = dense_zeroed::<f64>(3).unwrap();
    assert_eq!(matrix.len(), 9);
    assert!(matrix.iter().all(|value| *value == 0.0));
    assert_eq!(dense_zeroed::<f64>(0).unwrap().len(), 0);
    assert_eq!(dense_zeroed::<f64>(usize::MAX), Err(Diagnostic::DenseShapeOverflow));
}

#[test]
fn integer_sqrt_accepts_only_positive_squares() {
    assert_eq!(integer_sqrt(1), Ok(1));
    assert_eq!(integer_sqrt(16), Ok(4));
    assert_eq!(integer_sqrt(4_294_967_296), Ok(65_536));
    assert_eq!(integer_sqrt(0), Err(Diagnostic::DenseShapeNotSquare));
    assert_eq!(integer_sqrt(15), Err(Diagnostic::DenseShapeNotSquare));
    assert_eq!(integer_sqrt(17), Err(Diagnostic::DenseShapeNotSquare));
    assert_eq!(integer_sqrt(usize::MAX), Err(Diagnostic::DenseShapeNotSquare));
    let big: usize = 4_294_967_295;
    assert_eq!(integer_sqrt(big * big), Ok(big));
    assert_eq!(integer_sqrt(big * big - 1), Err(Diagnostic::DenseShapeNotSquare));
}
