use unipoly::field::{Fe, MODULUS};

fn fe(x: u64) -> Fe {
    Fe::from_u64(x).unwrap()
}

#[test]
fn test_from_u64_bounds() {
    assert_eq!(Fe::from_u64(0), Some(Fe::zero()));
    assert_eq!(Fe::from_u64(MODULUS - 1).unwrap().val, MODULUS - 1);
    assert_eq!(Fe::from_u64(MODULUS), None);
    assert_eq!(Fe::from_u64(u64::MAX), None);
}

#[test]
fn test_add_wraps_at_modulus() {
    assert_eq!(fe(3).add(fe(4)), fe(7));
    assert_eq!(fe(1000).add(fe(10)), fe(1));
    assert_eq!(fe(1008).add(fe(1)), Fe::zero());
}

#[test]
fn test_sub_wraps_at_zero() {
    assert_eq!(fe(7).sub(fe(3)), fe(4));
    assert_eq!(fe(3).sub(fe(5)), fe(1007));
    assert_eq!(fe(0).sub(fe(1)), fe(1008));
}

#[test]
fn test_mul_reduces() {
    assert_eq!(fe(20).mul(fe(30)), fe(600));
    assert_eq!(fe(100).mul(fe(100)), fe(919));
    assert_eq!(fe(1008).mul(fe(1008)), fe(1));
}

#[test]
fn test_inverse_of_zero_is_absent() {
    assert_eq!(Fe::zero().inverse(), None);
}

#[test]
fn test_inverse_multiplies_to_one() {
    for x in [1u64, 2, 5, 202, 500, 1008] {
        let a = fe(x);
        let inv = a.inverse().unwrap();
        assert_eq!(a.mul(inv), Fe::one());
    }
    assert_eq!(fe(5).inverse().unwrap(), fe(202));
}
