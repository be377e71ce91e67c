//! The coefficient field: integers modulo a small prime.
//!
//! Every element is a canonical representative in `[0, MODULUS)`.  The module
//! also provides the congruence toolkit the polynomial proofs are built on,
//! the primality facts for the modulus, and the existence of multiplicative
//! inverses that exact polynomial division relies on.

use vstd::prelude::*;
use vstd::arithmetic::div_mod::{
    lemma_fundamental_div_mod, lemma_mod_bound, lemma_mod_multiples_basic, lemma_small_mod,
};

verus! {

/// The prime modulus of the coefficient field.
pub const MODULUS: u64 = 1009;

/// A field element, stored as its canonical representative.
#[derive(Clone, Copy, PartialEq, Eq, Structural, Debug)]
pub struct Fe {
    pub val: u64,
}

/// Congruence modulo the field's prime.
pub open spec fn congruent(a: int, b: int) -> bool {
    (a - b) % (MODULUS as int) == 0
}

/// Every sequence element is a canonical field representative.
pub open spec fn seq_valid(s: Seq<Fe>) -> bool {
    forall|i: int| 0 <= i < s.len() ==> (#[trigger] s[i]).valid()
}

/// A congruence yields an exact multiple of the modulus.
pub proof fn lemma_cong_witness(a: int, b: int) -> (k: int)
    requires
        congruent(a, b),
    ensures
        a - b == (MODULUS as int) * k,
{
    lemma_fundamental_div_mod(a - b, MODULUS as int);
    (a - b) / (MODULUS as int)
}

/// An exact multiple of the modulus yields a congruence.
pub proof fn lemma_cong_from_witness(a: int, b: int, k: int)
    requires
        a - b == (MODULUS as int) * k,
    ensures
        congruent(a, b),
{
    lemma_mod_multiples_basic(k, MODULUS as int);
}

/// Reducing modulo the prime preserves the congruence class.
pub proof fn lemma_cong_mod(a: int)
    ensures
        congruent(a % (MODULUS as int), a),
{
    lemma_fundamental_div_mod(a, MODULUS as int);
    lemma_cong_from_witness(a % (MODULUS as int), a, -(a / (MODULUS as int)));
}

pub proof fn lemma_cong_refl(a: int)
    ensures
        congruent(a, a),
{
    lemma_cong_from_witness(a, a, 0);
}

/// Congruent values reduce to the same canonical representative.
pub proof fn lemma_cong_mod_eq(a: int, b: int)
    requires
        congruent(a, b),
    ensures
        a % (MODULUS as int) == b % (MODULUS as int),
{
    lemma_mod_bound(a, MODULUS as int);
    lemma_cong_mod(a);
    lemma_cong_trans(a % (MODULUS as int), a, b);
    lemma_cong_canon(a % (MODULUS as int), b);
}

pub proof fn lemma_cong_sym(a: int, b: int)
    requires
        congruent(a, b),
    ensures
        congruent(b, a),
{
    let k = lemma_cong_witness(a, b);
    lemma_cong_from_witness(b, a, -k);
}

pub proof fn lemma_cong_trans(a: int, b: int, c: int)
    requires
        congruent(a, b),
        congruent(b, c),
    ensures
        congruent(a, c),
{
    let k1 = lemma_cong_witness(a, b);
    let k2 = lemma_cong_witness(b, c);
    lemma_cong_from_witness(a, c, k1 + k2);
}

pub proof fn lemma_cong_add(a1: int, b1: int, a2: int, b2: int)
    requires
        congruent(a1, b1),
        congruent(a2, b2),
    ensures
        congruent(a1 + a2, b1 + b2),
{
    let k1 = lemma_cong_witness(a1, b1);
    let k2 = lemma_cong_witness(a2, b2);
    lemma_cong_from_witness(a1 + a2, b1 + b2, k1 + k2);
}

pub proof fn lemma_cong_sub(a1: int, b1: int, a2: int, b2: int)
    requires
        congruent(a1, b1),
        congruent(a2, b2),
    ensures
        congruent(a1 - a2, b1 - b2),
{
    let k1 = lemma_cong_witness(a1, b1);
    let k2 = lemma_cong_witness(a2, b2);
    lemma_cong_from_witness(a1 - a2, b1 - b2, k1 - k2);
}

pub proof fn lemma_cong_mul(a1: int, b1: int, a2: int, b2: int)
    requires
        congruent(a1, b1),
        congruent(a2, b2),
    ensures
        congruent(a1 * a2, b1 * b2),
{
    let k1 = lemma_cong_witness(a1, b1);
    let k2 = lemma_cong_witness(a2, b2);
    let m = MODULUS as int;
    assert(a1 * a2 - b1 * b2 == m * (a2 * k1 + b1 * k2)) by (nonlinear_arith)
        requires
            a1 - b1 == m * k1,
            a2 - b2 == m * k2,
    ;
    lemma_cong_from_witness(a1 * a2, b1 * b2, a2 * k1 + b1 * k2);
}

/// Congruent values that are both canonical representatives are equal.
pub proof fn lemma_cong_small(a: int, b: int)
    requires
        congruent(a, b),
        0 <= a < MODULUS as int,
        0 <= b < MODULUS as int,
    ensures
        a == b,
{
    let k = lemma_cong_witness(a, b);
    if k >= 1 {
        assert(a - b >= MODULUS as int);
    } else if k <= -1 {
        assert(a - b <= -(MODULUS as int));
    }
}

/// A canonical representative congruent to `b` is exactly `b % MODULUS`.
pub proof fn lemma_cong_canon(a: int, b: int)
    requires
        congruent(a, b),
        0 <= a < MODULUS as int,
    ensures
        a == b % (MODULUS as int),
{
    lemma_cong_mod(b);
    lemma_cong_sym(b % (MODULUS as int), b);
    lemma_cong_trans(a, b, b % (MODULUS as int));
    lemma_mod_bound(b, MODULUS as int);
    lemma_cong_small(a, b % (MODULUS as int));
}

/// The modulus has no divisor among the candidates up to its square root.
proof fn lemma_modulus_no_small_divisor(a: int)
    requires
        2 <= a <= 31,
    ensures
        (MODULUS as int) % a != 0,
{
    if a == 2 { assert((MODULUS as int) % a != 0); }
    else if a == 3 { assert((MODULUS as int) % a != 0); }
    else if a == 4 { assert((MODULUS as int) % a != 0); }
    else if a == 5 { assert((MODULUS as int) % a != 0); }
    else if a == 6 { assert((MODULUS as int) % a != 0); }
    else if a == 7 { assert((MODULUS as int) % a != 0); }
    else if a == 8 { assert((MODULUS as int) % a != 0); }
    else if a == 9 { assert((MODULUS as int) % a != 0); }
    else if a == 10 { assert((MODULUS as int) % a != 0); }
    else if a == 11 { assert((MODULUS as int) % a != 0); }
    else if a == 12 { assert((MODULUS as int) % a != 0); }
    else if a == 13 { assert((MODULUS as int) % a != 0); }
    else if a == 14 { assert((MODULUS as int) % a != 0); }
    else if a == 15 { assert((MODULUS as int) % a != 0); }
    else if a == 16 { assert((MODULUS as int) % a != 0); }
    else if a == 17 { assert((MODULUS as int) % a != 0); }
    else if a == 18 { assert((MODULUS as int) % a != 0); }
    else if a == 19 { assert((MODULUS as int) % a != 0); }
    else if a == 20 { assert((MODULUS as int) % a != 0); }
    else if a == 21 { assert((MODULUS as int) % a != 0); }
    else if a == 22 { assert((MODULUS as int) % a != 0); }
    else if a == 23 { assert((MODULUS as int) % a != 0); }
    else if a == 24 { assert((MODULUS as int) % a != 0); }
    else if a == 25 { assert((MODULUS as int) % a != 0); }
    else if a == 26 { assert((MODULUS as int) % a != 0); }
    else if a == 27 { assert((MODULUS as int) % a != 0); }
    else if a == 28 { assert((MODULUS as int) % a != 0); }
    else if a == 29 { assert((MODULUS as int) % a != 0); }
    else if a == 30 { assert((MODULUS as int) % a != 0); }
    else { assert((MODULUS as int) % a != 0); }
}

/// Primality of the modulus: no proper divisor exists.
pub proof fn lemma_modulus_prime(a: int)
    requires
        1 < a < MODULUS as int,
    ensures
        (MODULUS as int) % a != 0,
{
    let m = MODULUS as int;
    if m % a == 0 {
        lemma_fundamental_div_mod(m, a);
        let b = m / a;
        assert(m == a * b);
        assert(b >= 2 && b < m) by (nonlinear_arith)
            requires
                m == a * b,
                1 < a < m,
                m == 1009,
        ;
        if a <= 31 {
            lemma_modulus_no_small_divisor(a);
            assert(false);
        } else {
            assert(b <= 31) by (nonlinear_arith)
                requires
                    m == a * b,
                    a >= 32,
                    b >= 2,
                    m == 1009,
            ;
            lemma_modulus_no_small_divisor(b);
            lemma_mod_multiples_basic(a, b);
            assert(false);
        }
    }
}

/// Every non-zero field element has a multiplicative inverse.
pub proof fn lemma_inverse_exists(a: int) -> (b: int)
    requires
        0 < a < MODULUS as int,
    ensures
        0 < b < MODULUS as int,
        (a * b) % (MODULUS as int) == 1,
    decreases a,
{
    let m = MODULUS as int;
    if a == 1 {
        assert((1int * 1int) % m == 1);
        1
    } else {
        lemma_fundamental_div_mod(m, a);
        lemma_mod_bound(m, a);
        let q = m / a;
        let r = m % a;
        lemma_modulus_prime(a);
        assert(0 < r < a);
        let c = lemma_inverse_exists(r);
        let b = (-(q * c)) % m;
        lemma_mod_bound(-(q * c), m);
        // a * b is congruent to a * (-(q*c)) which equals (r - m) * c,
        // congruent to r * c, congruent to 1.
        lemma_cong_mod(-(q * c));
        lemma_cong_mul(a, a, b, -(q * c));
        assert(a * (-(q * c)) == (r - m) * c) by (nonlinear_arith)
            requires
                m == a * q + r,
        ;
        assert((r - m) * c - r * c == m * (-c)) by (nonlinear_arith);
        lemma_cong_from_witness((r - m) * c, r * c, -c);
        lemma_cong_mod(r * c);
        lemma_cong_trans(a * b, (r - m) * c, r * c);
        lemma_cong_trans(a * b, r * c, (r * c) % m);
        lemma_cong_canon((r * c) % m, a * b);
        assert(b != 0) by {
            if b == 0 {
                assert((a * 0) % m == 0) by {
                    assert(a * 0 == 0);
                    lemma_small_mod(0, MODULUS as nat);
                }
            }
        }
        b
    }
}

/// The field has no zero divisors: a product of two non-zero canonical
/// representatives does not reduce to zero.
pub proof fn lemma_nonzero_product(a: int, b: int)
    requires
        0 < a < MODULUS as int,
        0 < b < MODULUS as int,
    ensures
        (a * b) % (MODULUS as int) != 0,
{
    let m = MODULUS as int;
    let u = lemma_inverse_exists(a);
    if (a * b) % m == 0 {
        // b is congruent to b*(a*u), which equals (a*b)*u, congruent to zero
        lemma_cong_mod(a * b);
        lemma_cong_sym((a * b) % m, a * b);
        lemma_cong_refl(u);
        lemma_cong_mul(a * b, 0, u, u);
        lemma_cong_mod(a * u);
        lemma_cong_refl(b);
        lemma_cong_mul(b, b, (a * u) % m, a * u);
        assert(b * (a * u) == (a * b) * u) by (nonlinear_arith);
        lemma_cong_trans(b * ((a * u) % m), b * (a * u), 0 * u);
        assert(b * ((a * u) % m) == b * 1);
        lemma_cong_small(b, 0);
        assert(false);
    }
}

impl Fe {
    /// Well-formedness: the representative lies below the modulus.
    pub open spec fn valid(self) -> bool {
        self.val < MODULUS
    }

    /// The additive identity.
    pub fn zero() -> (r: Fe)
        ensures
            r.val == 0,
            r.valid(),
    {
        Fe { val: 0 }
    }

    /// The multiplicative identity.
    pub fn one() -> (r: Fe)
        ensures
            r.val == 1,
            r.valid(),
    {
        Fe { val: 1 }
    }

    /// Exact embedding of a small non-negative integer; refused whenever the
    /// value is not representable, so the embedding never wraps.
    pub fn from_u64(x: u64) -> (r: Option<Fe>)
        ensures
            x < MODULUS ==> r == Some(Fe { val: x }),
            x >= MODULUS ==> r is None,
    {
        if x < MODULUS {
            Some(Fe { val: x })
        } else {
            None
        }
    }

    /// Field addition.
    pub fn add(self, other: Fe) -> (r: Fe)
        requires
            self.valid(),
            other.valid(),
        ensures
            r.valid(),
            r.val == (self.val + other.val) % (MODULUS as int),
            congruent(r.val as int, self.val + other.val),
    {
        proof {
            lemma_cong_mod(self.val + other.val);
        }
        Fe { val: (self.val + other.val) % MODULUS }
    }

    /// Field subtraction.
    pub fn sub(self, other: Fe) -> (r: Fe)
        requires
            self.valid(),
            other.valid(),
        ensures
            r.valid(),
            r.val == (self.val + MODULUS - other.val) % (MODULUS as int),
            congruent(r.val as int, self.val - other.val),
    {
        proof {
            lemma_cong_mod(self.val + MODULUS - other.val);
            lemma_cong_from_witness(
                self.val + MODULUS - other.val,
                self.val - other.val,
                1,
            );
            lemma_cong_trans(
                (self.val + MODULUS - other.val) % (MODULUS as int),
                self.val + MODULUS - other.val,
                self.val - other.val,
            );
        }
        Fe { val: (self.val + MODULUS - other.val) % MODULUS }
    }

    /// Field multiplication.
    pub fn mul(self, other: Fe) -> (r: Fe)
        requires
            self.valid(),
            other.valid(),
        ensures
            r.valid(),
            r.val == (self.val * other.val) % (MODULUS as int),
            congruent(r.val as int, self.val * other.val),
    {
        proof {
            lemma_cong_mod(self.val * other.val);
            assert(self.val * other.val < 1009 * 1009) by (nonlinear_arith)
                requires
                    self.val < 1009,
                    other.val < 1009,
            ;
        }
        Fe { val: (self.val * other.val) % MODULUS }
    }

    /// Multiplicative inverse; absent exactly for the zero element.
    pub fn inverse(self) -> (r: Option<Fe>)
        requires
            self.valid(),
        ensures
            r is None <==> self.val == 0,
            r matches Some(b) ==> b.valid() && (self.val * b.val) % (MODULUS as int) == 1,
    {
        if self.val == 0 {
            return None;
        }
        proof {
            let w = lemma_inverse_exists(self.val as int);
        }
        let mut b: u64 = 1;
        while b < MODULUS
            invariant
                1 <= b <= MODULUS,
                self.val < MODULUS,
                self.val != 0,
                exists|w: int|
                    0 < w < MODULUS as int && #[trigger] ((self.val * w) % (MODULUS as int))
                        == 1,
                forall|j: int|
                    1 <= j < b ==> #[trigger] ((self.val * j) % (MODULUS as int)) != 1,
            decreases MODULUS - b,
        {
            proof {
                assert(self.val * b < 1009 * 1009) by (nonlinear_arith)
                    requires
                        self.val < 1009,
                        b < 1009,
                ;
            }
            if (self.val * b) % MODULUS == 1 {
                return Some(Fe { val: b });
            }
            b = b + 1;
        }
        proof {
            let w = choose|w: int|
                0 < w < MODULUS as int && #[trigger] ((self.val * w) % (MODULUS as int)) == 1;
            assert((self.val * w) % (MODULUS as int) != 1);
        }
        None
    }
}

} // verus!
