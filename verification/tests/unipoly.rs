use unipoly::field::Fe;
use unipoly::poly::{InterpolationError, UniPoly};

fn fe(x: u64) -> Fe {
    Fe::from_u64(x).unwrap()
}

#[test]
fn test_from_evals_quad() {
    // polynomial is 2x^2 + 3x + 1
    let e0 = Fe::one();
    let e1 = fe(6);
    let e2 = fe(15);
    let evals = vec![e0, e1, e2];
    let poly = UniPoly::from_evals(&evals).unwrap();

    assert_eq!(poly.eval_at_zero(), e0);
    assert_eq!(poly.eval_at_one(), e1);
    let coeffs = poly.as_vec();
    assert_eq!(coeffs.len(), 3);
    assert_eq!(coeffs[0], Fe::one());
    assert_eq!(coeffs[1], fe(3));
    assert_eq!(coeffs[2], fe(2));

    let hint = e0.add(e1);
    let compressed_poly = poly.compress();
    let decompressed_poly = compressed_poly.decompress(&hint);
    let decompressed = decompressed_poly.as_vec();
    for i in 0..decompressed.len() {
        assert_eq!(decompressed[i], coeffs[i]);
    }

    let e3 = fe(28);
    assert_eq!(poly.evaluate(&fe(3)), e3);
}

#[test]
fn test_from_evals_cubic() {
    // polynomial is x^3 + 2x^2 + 3x + 1
    let e0 = Fe::one();
    let e1 = fe(7);
    let e2 = fe(23);
    let e3 = fe(55);
    let evals = vec![e0, e1, e2, e3];
    let poly = UniPoly::from_evals(&evals).unwrap();

    assert_eq!(poly.eval_at_zero(), e0);
    assert_eq!(poly.eval_at_one(), e1);
    let coeffs = poly.as_vec();
    assert_eq!(coeffs.len(), 4);
    assert_eq!(coeffs[0], Fe::one());
    assert_eq!(coeffs[1], fe(3));
    assert_eq!(coeffs[2], fe(2));
    assert_eq!(coeffs[3], Fe::one());

    let hint = e0.add(e1);
    let compressed_poly = poly.compress();
    let decompressed_poly = compressed_poly.decompress(&hint);
    let decompressed = decompressed_poly.as_vec();
    for i in 0..decompressed.len() {
        assert_eq!(decompressed[i], coeffs[i]);
    }

    let e4 = fe(109);
    assert_eq!(poly.evaluate(&fe(4)), e4);
}

#[test]
fn test_from_evals_matches_every_point() {
    // P(0..4) for 3x^2 + 7x + 11 over the field
    let mut evals = Vec::new();
    for x in 0u64..5 {
        evals.push(fe((3 * x * x + 7 * x + 11) % 1009));
    }
    let poly = UniPoly::from_evals(&evals).unwrap();
    assert_eq!(poly.as_vec().len(), 5);
    for x in 0u64..5 {
        assert_eq!(poly.evaluate(&fe(x)), evals[x as usize]);
    }
}

#[test]
fn test_from_evals_single_point() {
    let evals = vec![fe(5)];
    let poly = UniPoly::from_evals(&evals).unwrap();
    assert_eq!(poly.as_vec(), vec![fe(5)]);
    assert_eq!(poly.eval_at_zero(), fe(5));
    assert_eq!(poly.evaluate(&fe(7)), fe(5));
}

#[test]
fn test_from_evals_arbitrary_values_succeed() {
    // every value sequence is the evaluation table of some polynomial of
    // degree < n, so interpolation succeeds and reproduces each entry
    let evals = vec![fe(17), fe(0), fe(993), fe(4), fe(4), fe(250), fe(777), fe(1)];
    let poly = UniPoly::from_evals(&evals).unwrap();
    assert_eq!(poly.as_vec().len(), evals.len());
    for (x, want) in evals.iter().enumerate() {
        assert_eq!(poly.evaluate(&fe(x as u64)), *want);
    }
}

#[test]
fn test_from_evals_too_many_points() {
    let evals = vec![Fe::zero(); 1010];
    assert_eq!(
        UniPoly::from_evals(&evals).unwrap_err(),
        InterpolationError::FieldTooSmall
    );
}

#[test]
fn test_eval_at_one_is_coefficient_sum() {
    let poly = UniPoly::from_coeff(vec![fe(1), fe(2), fe(3)]);
    assert_eq!(poly.eval_at_one(), fe(6));
    // a sum that wraps around the modulus
    let poly = UniPoly::from_coeff(vec![fe(1000), fe(10)]);
    assert_eq!(poly.eval_at_one(), fe(1));
    // the empty polynomial sums to zero
    let poly = UniPoly::from_coeff(Vec::new());
    assert_eq!(poly.eval_at_one(), Fe::zero());
}

#[test]
fn test_degree_and_as_vec() {
    let poly = UniPoly::from_coeff(vec![fe(4), fe(0), fe(9)]);
    assert_eq!(poly.degree(), 2);
    assert_eq!(poly.as_vec(), vec![fe(4), fe(0), fe(9)]);
}
