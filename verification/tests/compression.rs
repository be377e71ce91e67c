use unipoly::field::Fe;
use unipoly::poly::{CompressedUniPoly, UniPoly};

fn fe(x: u64) -> Fe {
    Fe::from_u64(x).unwrap()
}

#[test]
fn test_compress_drops_linear_term() {
    let poly = UniPoly::from_coeff(vec![fe(1), fe(3), fe(2)]);
    let compressed = poly.compress();
    assert_eq!(compressed.as_vec(), vec![fe(1), fe(2)]);

    let quadratic_free = UniPoly::from_coeff(vec![fe(9), fe(4)]);
    assert_eq!(quadratic_free.compress().as_vec(), vec![fe(9)]);
}

#[test]
fn test_compress_then_decompress_with_true_hint() {
    // scenario: 2x^2 + 3x + 1, whose evaluations at 0 and 1 are 1 and 6
    let poly = UniPoly::from_coeff(vec![fe(1), fe(3), fe(2)]);
    let hint = poly.eval_at_zero().add(poly.eval_at_one());
    assert_eq!(hint, fe(7));
    let decompressed = poly.compress().decompress(&hint);
    assert_eq!(decompressed.as_vec(), vec![fe(1), fe(3), fe(2)]);
}

#[test]
fn test_decompress_with_wrong_hint() {
    // a wrong hint changes only the linear coefficient
    let poly = UniPoly::from_coeff(vec![fe(1), fe(3), fe(2)]);
    let wrong_hint = fe(8);
    let decompressed = poly.compress().decompress(&wrong_hint);
    let coeffs = decompressed.as_vec();
    assert_eq!(coeffs[0], fe(1));
    assert_eq!(coeffs[2], fe(2));
    assert_ne!(coeffs[1], fe(3));
    assert_eq!(coeffs[1], fe(4));
}

#[test]
fn test_decompress_formula() {
    // linear = hint - 2*constant - (degree >= 2 coefficients)
    let compressed = CompressedUniPoly::from_coeffs_except_linear_term(vec![fe(10), fe(20), fe(30)]);
    let hint = fe(100);
    let dense = compressed.decompress(&hint);
    // 100 - 20 - 20 - 30 = 30
    assert_eq!(dense.as_vec(), vec![fe(10), fe(30), fe(20), fe(30)]);
}

#[test]
fn test_decompress_hint_wraps() {
    let compressed = CompressedUniPoly::from_coeffs_except_linear_term(vec![fe(1000)]);
    let hint = Fe::zero();
    let dense = compressed.decompress(&hint);
    // 0 - 2000 is congruent to 18 modulo 1009
    assert_eq!(dense.as_vec(), vec![fe(1000), fe(18)]);
}

#[test]
fn test_round_trip_cubic() {
    let poly = UniPoly::from_coeff(vec![fe(1), fe(3), fe(2), fe(1)]);
    let hint = poly.eval_at_zero().add(poly.eval_at_one());
    let decompressed = poly.compress().decompress(&hint);
    assert_eq!(decompressed.as_vec(), poly.as_vec());
}
