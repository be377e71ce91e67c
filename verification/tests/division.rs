use unipoly::field::Fe;
use unipoly::poly::UniPoly;

fn fe(x: u64) -> Fe {
    Fe::from_u64(x).unwrap()
}

fn poly_mul(a: &[Fe], b: &[Fe]) -> Vec<Fe> {
    if a.is_empty() || b.is_empty() {
        return Vec::new();
    }
    let mut out = vec![Fe::zero(); a.len() + b.len() - 1];
    for i in 0..a.len() {
        for j in 0..b.len() {
            out[i + j] = out[i + j].add(a[i].mul(b[j]));
        }
    }
    out
}

fn coeff_at(v: &[Fe], i: usize) -> Fe {
    if i < v.len() {
        v[i]
    } else {
        Fe::zero()
    }
}

/// dividend == quotient * divisor + remainder, coefficient by coefficient.
fn check_reconstruction(dividend: &[Fe], quotient: &[Fe], divisor: &[Fe], remainder: &[Fe]) {
    let product = poly_mul(quotient, divisor);
    let width = dividend
        .len()
        .max(product.len())
        .max(remainder.len());
    for i in 0..width {
        let rebuilt = coeff_at(&product, i).add(coeff_at(remainder, i));
        assert_eq!(coeff_at(dividend, i), rebuilt);
    }
}

#[test]
fn test_divide_exact() {
    // (x + 1)(x + 2) = x^2 + 3x + 2
    let dividend = UniPoly::from_coeff(vec![fe(2), fe(3), fe(1)]);
    let divisor = UniPoly::from_coeff(vec![fe(1), fe(1)]);
    let (q, r) = dividend.divide_with_q_and_r(&divisor).unwrap();
    assert_eq!(q.as_vec(), vec![fe(2), fe(1)]);
    assert_eq!(r.as_vec(), Vec::<Fe>::new());
    check_reconstruction(
        &dividend.as_vec(),
        &q.as_vec(),
        &divisor.as_vec(),
        &r.as_vec(),
    );
}

#[test]
fn test_divide_with_remainder() {
    // x^2 + 1 = (x - 1)(x + 1) + 2
    let dividend = UniPoly::from_coeff(vec![fe(1), fe(0), fe(1)]);
    let divisor = UniPoly::from_coeff(vec![fe(1), fe(1)]);
    let (q, r) = dividend.divide_with_q_and_r(&divisor).unwrap();
    assert_eq!(q.as_vec(), vec![fe(1008), fe(1)]);
    assert_eq!(r.as_vec(), vec![fe(2)]);
    assert!(r.as_vec().len() < divisor.as_vec().len());
    check_reconstruction(
        &dividend.as_vec(),
        &q.as_vec(),
        &divisor.as_vec(),
        &r.as_vec(),
    );
}

#[test]
fn test_divide_by_constant() {
    // 5 * 202 = 1010, which is 1 in the field
    let dividend = UniPoly::from_coeff(vec![fe(1), fe(2)]);
    let divisor = UniPoly::from_coeff(vec![fe(5)]);
    let (q, r) = dividend.divide_with_q_and_r(&divisor).unwrap();
    assert_eq!(q.as_vec(), vec![fe(202), fe(404)]);
    assert_eq!(r.as_vec(), Vec::<Fe>::new());
    check_reconstruction(
        &dividend.as_vec(),
        &q.as_vec(),
        &divisor.as_vec(),
        &r.as_vec(),
    );
}

#[test]
fn test_divide_by_zero_polynomial() {
    let dividend = UniPoly::from_coeff(vec![fe(1), fe(2), fe(3)]);
    let empty_divisor = UniPoly::from_coeff(Vec::new());
    assert!(dividend.divide_with_q_and_r(&empty_divisor).is_none());
    // all-zero coefficients also denote the zero polynomial
    let zero_divisor = UniPoly::from_coeff(vec![fe(0), fe(0)]);
    assert!(dividend.divide_with_q_and_r(&zero_divisor).is_none());
}

#[test]
fn test_divide_zero_dividend() {
    let dividend = UniPoly::from_coeff(Vec::new());
    let divisor = UniPoly::from_coeff(vec![fe(3), fe(4)]);
    let (q, r) = dividend.divide_with_q_and_r(&divisor).unwrap();
    assert!(q.as_vec().is_empty());
    assert!(r.as_vec().is_empty());
    // an all-zero dividend divides the same way, even by the zero divisor
    let dividend = UniPoly::from_coeff(vec![fe(0), fe(0), fe(0)]);
    let zero_divisor = UniPoly::from_coeff(Vec::new());
    let (q, r) = dividend.divide_with_q_and_r(&zero_divisor).unwrap();
    assert!(q.as_vec().is_empty());
    assert!(r.as_vec().is_empty());
}

#[test]
fn test_divide_zero_dividend_untrimmed_divisor() {
    // a zero dividend divides by any divisor, stored trailing zeros or not
    let dividend = UniPoly::from_coeff(vec![fe(0), fe(0)]);
    let divisor = UniPoly::from_coeff(vec![fe(1), fe(0)]);
    let (q, r) = dividend.divide_with_q_and_r(&divisor).unwrap();
    assert!(q.as_vec().is_empty());
    assert!(r.as_vec().is_empty());
}

#[test]
fn test_divide_smaller_degree_untrimmed_divisor() {
    // a shorter dividend is returned unchanged, untrimmed divisor or not
    let dividend = UniPoly::from_coeff(vec![fe(9)]);
    let divisor = UniPoly::from_coeff(vec![fe(4), fe(0)]);
    let (q, r) = dividend.divide_with_q_and_r(&divisor).unwrap();
    assert!(q.as_vec().is_empty());
    assert_eq!(r.as_vec(), vec![fe(9)]);
}

#[test]
fn test_divide_remainder_is_trimmed() {
    // 2x + 2 = 2 * (x + 1) exactly: the remainder comes back empty, with no
    // trailing zero coefficients left behind
    let dividend = UniPoly::from_coeff(vec![fe(2), fe(2)]);
    let divisor = UniPoly::from_coeff(vec![fe(1), fe(1)]);
    let (q, r) = dividend.divide_with_q_and_r(&divisor).unwrap();
    assert_eq!(q.as_vec(), vec![fe(2)]);
    assert!(r.as_vec().is_empty());
}

#[test]
fn test_divide_smaller_degree() {
    let dividend = UniPoly::from_coeff(vec![fe(7), fe(8)]);
    let divisor = UniPoly::from_coeff(vec![fe(1), fe(2), fe(3)]);
    let (q, r) = dividend.divide_with_q_and_r(&divisor).unwrap();
    assert!(q.as_vec().is_empty());
    assert_eq!(r.as_vec(), vec![fe(7), fe(8)]);
}

#[test]
fn test_divide_dividend_with_trailing_zeros() {
    // [2, 3, 1, 0] is x^2 + 3x + 2 with a padded high coefficient
    let dividend = UniPoly::from_coeff(vec![fe(2), fe(3), fe(1), fe(0)]);
    let divisor = UniPoly::from_coeff(vec![fe(1), fe(1)]);
    let (q, r) = dividend.divide_with_q_and_r(&divisor).unwrap();
    assert_eq!(r.as_vec(), Vec::<Fe>::new());
    check_reconstruction(
        &dividend.as_vec(),
        &q.as_vec(),
        &divisor.as_vec(),
        &r.as_vec(),
    );
}

#[test]
fn test_divide_cubic_by_quadratic() {
    // x^3 + 2x^2 + 3x + 1 by x^2 + 1
    let dividend = UniPoly::from_coeff(vec![fe(1), fe(3), fe(2), fe(1)]);
    let divisor = UniPoly::from_coeff(vec![fe(1), fe(0), fe(1)]);
    let (q, r) = dividend.divide_with_q_and_r(&divisor).unwrap();
    assert!(r.as_vec().is_empty() || r.as_vec().len() < divisor.as_vec().len());
    check_reconstruction(
        &dividend.as_vec(),
        &q.as_vec(),
        &divisor.as_vec(),
        &r.as_vec(),
    );
}
