//! Dense univariate polynomials over the coefficient field.
//!
//! A polynomial is an ordered coefficient vector: index `i` holds the
//! coefficient of degree `i`, and the empty vector is the zero polynomial.
//! The module provides interpolation from evaluations at the canonical
//! points `0..n-1`, evaluation, exact long division with quotient and
//! remainder, and the hint-based compression scheme that omits the linear
//! coefficient.

use vstd::prelude::*;
use vstd::arithmetic::div_mod::{lemma_mod_bound, lemma_small_mod};
use crate::transcript::{Transcript, TranscriptEvent};
use crate::field::{
    congruent, lemma_cong_add, lemma_cong_canon, lemma_cong_from_witness, lemma_cong_mod,
    lemma_cong_mod_eq, lemma_cong_mul, lemma_cong_refl, lemma_cong_small, lemma_cong_sub,
    lemma_cong_sym, lemma_cong_trans, lemma_nonzero_product, seq_valid, Fe, MODULUS,
};

verus! {

/// The coefficient of degree `i`, with every position past the end read as
/// zero: the mathematical, infinite-coefficient view of a polynomial.
pub open spec fn coeff(s: Seq<Fe>, i: int) -> int {
    if 0 <= i < s.len() {
        s[i].val as int
    } else {
        0
    }
}

/// The zero polynomial: no coefficient, or every coefficient zero.
pub open spec fn is_zero_poly(s: Seq<Fe>) -> bool {
    forall|i: int| 0 <= i < s.len() ==> (#[trigger] s[i]).val == 0
}

/// `x^k` reduced into the field.
pub open spec fn pow_m(x: int, k: nat) -> int
    decreases k,
{
    if k == 0 {
        1int
    } else {
        (x * pow_m(x, (k - 1) as nat)) % (MODULUS as int)
    }
}

/// The field evaluation of the first `k` terms: the running value of
/// `sum of coeff(s, j) * x^j` for `j < k`, reduced into the field.
pub open spec fn eval_prefix(s: Seq<Fe>, x: int, k: int) -> int
    decreases k,
{
    if k <= 0 {
        0int
    } else {
        (eval_prefix(s, x, k - 1) + pow_m(x, (k - 1) as nat) * coeff(s, k - 1)) % (
        MODULUS as int)
    }
}

/// The polynomial's value at `x`, as a field element.
pub open spec fn eval_poly(s: Seq<Fe>, x: int) -> int {
    eval_prefix(s, x, s.len() as int)
}

/// The field sum of the first `k` coefficients.
pub open spec fn sum_prefix(s: Seq<Fe>, k: int) -> int
    decreases k,
{
    if k <= 0 {
        0int
    } else {
        (sum_prefix(s, k - 1) + coeff(s, k - 1)) % (MODULUS as int)
    }
}

/// The field sum of all coefficients.
pub open spec fn coeff_sum(s: Seq<Fe>) -> int {
    sum_prefix(s, s.len() as int)
}

/// `1^k == 1` in the field.
proof fn lemma_pow_m_one(k: nat)
    ensures
        pow_m(1, k) == 1,
    decreases k,
{
    if k == 0 {
    } else {
        lemma_pow_m_one((k - 1) as nat);
        lemma_small_mod(1, MODULUS as nat);
    }
}

/// Evaluating at one sums the coefficients, prefix by prefix.
proof fn lemma_eval_prefix_one(s: Seq<Fe>, k: int)
    ensures
        eval_prefix(s, 1, k) == sum_prefix(s, k),
    decreases k,
{
    if k <= 0 {
    } else {
        lemma_eval_prefix_one(s, k - 1);
        lemma_pow_m_one((k - 1) as nat);
    }
}

/// Evaluating a dense polynomial at one yields the field sum of its
/// coefficients.
pub proof fn lemma_eval_at_one_is_coeff_sum(s: Seq<Fe>)
    ensures
        eval_poly(s, 1) == coeff_sum(s),
{
    lemma_eval_prefix_one(s, s.len() as int);
}

/// At zero, every term of positive degree vanishes.
proof fn lemma_eval_prefix_zero(s: Seq<Fe>, k: int)
    requires
        s.len() > 0,
        s[0].valid(),
        k >= 1,
    ensures
        eval_prefix(s, 0, k) == coeff(s, 0),
    decreases k,
{
    if k == 1 {
        assert(eval_prefix(s, 0, 0) == 0);
        assert(pow_m(0, 0) == 1);
        lemma_small_mod(s[0].val as nat, MODULUS as nat);
    } else {
        lemma_eval_prefix_zero(s, k - 1);
        assert(pow_m(0, (k - 1) as nat) == 0) by {
            lemma_small_mod(0, MODULUS as nat);
        }
        lemma_small_mod(s[0].val as nat, MODULUS as nat);
    }
}

/// Evaluating a dense polynomial at zero yields its constant term.
pub proof fn lemma_eval_at_zero_is_constant_term(s: Seq<Fe>)
    requires
        s.len() > 0,
        s[0].valid(),
    ensures
        eval_poly(s, 0) == coeff(s, 0),
{
    lemma_eval_prefix_zero(s, s.len() as int);
}

/// Evaluation prefixes are canonical field representatives.
proof fn lemma_eval_prefix_bound(s: Seq<Fe>, x: int, k: int)
    ensures
        0 <= eval_prefix(s, x, k) < MODULUS as int,
    decreases k,
{
    if k <= 0 {
    } else {
        lemma_mod_bound(
            eval_prefix(s, x, k - 1) + pow_m(x, (k - 1) as nat) * coeff(s, k - 1),
            MODULUS as int,
        );
    }
}

/// An evaluation prefix reads only the coefficients below its bound.
proof fn lemma_eval_prefix_agree(s1: Seq<Fe>, s2: Seq<Fe>, x: int, k: int)
    requires
        forall|i: int| 0 <= i < k ==> #[trigger] coeff(s1, i) == coeff(s2, i),
    ensures
        eval_prefix(s1, x, k) == eval_prefix(s2, x, k),
    decreases k,
{
    if k <= 0 {
    } else {
        lemma_eval_prefix_agree(s1, s2, x, k - 1);
        assert(coeff(s1, k - 1) == coeff(s2, k - 1));
    }
}

/// Appending a zero coefficient leaves every evaluation unchanged.
proof fn lemma_eval_push_zero(s: Seq<Fe>, z: Fe, x: int)
    requires
        z.val == 0,
    ensures
        eval_poly(s.push(z), x) == eval_poly(s, x),
{
    let s2 = s.push(z);
    lemma_eval_prefix_agree(s2, s, x, s.len() as int);
    lemma_eval_prefix_bound(s, x, s.len() as int);
    assert(coeff(s2, s.len() as int) == 0);
    lemma_small_mod(eval_prefix(s, x, s.len() as int) as nat, MODULUS as nat);
}

/// Element-wise congruence `s2 == s1 + c*t` lifts to every evaluation
/// prefix.
proof fn lemma_eval_prefix_add_scaled(s2: Seq<Fe>, s1: Seq<Fe>, t: Seq<Fe>, c: Fe, x: int, k: int)
    requires
        forall|i: int|
            congruent(#[trigger] coeff(s2, i), coeff(s1, i) + (c.val as int) * coeff(t, i)),
    ensures
        congruent(
            eval_prefix(s2, x, k),
            eval_prefix(s1, x, k) + (c.val as int) * eval_prefix(t, x, k),
        ),
    decreases k,
{
    let m = MODULUS as int;
    let cv = c.val as int;
    if k <= 0 {
        assert(cv * 0 == 0);
        lemma_cong_refl(0);
    } else {
        lemma_eval_prefix_add_scaled(s2, s1, t, c, x, k - 1);
        let e1 = eval_prefix(s1, x, k - 1);
        let e2 = eval_prefix(s2, x, k - 1);
        let et = eval_prefix(t, x, k - 1);
        let p = pow_m(x, (k - 1) as nat);
        let a1 = coeff(s1, k - 1);
        let a2 = coeff(s2, k - 1);
        let at = coeff(t, k - 1);
        lemma_cong_refl(p);
        lemma_cong_mul(p, p, a2, a1 + cv * at);
        lemma_cong_add(e2, e1 + cv * et, p * a2, p * (a1 + cv * at));
        assert(e1 + cv * et + p * (a1 + cv * at) == (e1 + p * a1) + cv * (et + p * at))
            by (nonlinear_arith);
        lemma_cong_mod(e2 + p * a2);
        lemma_cong_mod(e1 + p * a1);
        lemma_cong_mod(et + p * at);
        lemma_cong_refl(cv);
        lemma_cong_mul(cv, cv, (et + p * at) % m, et + p * at);
        lemma_cong_add(
            (e1 + p * a1) % m,
            e1 + p * a1,
            cv * ((et + p * at) % m),
            cv * (et + p * at),
        );
        lemma_cong_trans((e2 + p * a2) % m, e2 + p * a2, (e1 + p * a1) + cv * (et + p * at));
        lemma_cong_sym(
            (e1 + p * a1) % m + cv * ((et + p * at) % m),
            (e1 + p * a1) + cv * (et + p * at),
        );
        lemma_cong_trans(
            (e2 + p * a2) % m,
            (e1 + p * a1) + cv * (et + p * at),
            (e1 + p * a1) % m + cv * ((et + p * at) % m),
        );
    }
}

/// Shifting the coefficients one degree up multiplies every evaluation
/// prefix by the point.
proof fn lemma_eval_prefix_shift(r: Seq<Fe>, s: Seq<Fe>, x: int, k: int)
    requires
        forall|i: int| #[trigger] coeff(r, i) == coeff(s, i - 1),
    ensures
        congruent(eval_prefix(r, x, k), x * eval_prefix(s, x, k - 1)),
    decreases k,
{
    let m = MODULUS as int;
    if k <= 0 {
        assert(x * 0 == 0);
        lemma_cong_refl(0);
    } else if k == 1 {
        assert(eval_prefix(r, x, 0) == 0);
        assert(pow_m(x, 0) == 1);
        assert(coeff(r, 0) == 0);
        assert(eval_prefix(r, x, 1) == 0int % m);
        lemma_small_mod(0, MODULUS as nat);
        lemma_cong_refl(0);
        assert(x * eval_prefix(s, x, 0) == 0);
    } else {
        lemma_eval_prefix_shift(r, s, x, k - 1);
        let er = eval_prefix(r, x, k - 1);
        let es2 = eval_prefix(s, x, k - 2);
        let pr = pow_m(x, (k - 1) as nat);
        let p2 = pow_m(x, (k - 2) as nat);
        let rk = coeff(r, k - 1);
        let sk = coeff(s, k - 2);
        // rk == sk, and pr is congruent to x * p2
        lemma_cong_mod(x * p2);
        lemma_cong_refl(sk);
        lemma_cong_mul(pr, x * p2, sk, sk);
        lemma_cong_add(er, x * es2, pr * sk, (x * p2) * sk);
        assert(x * es2 + (x * p2) * sk == x * (es2 + p2 * sk)) by (nonlinear_arith);
        lemma_cong_mod(es2 + p2 * sk);
        lemma_cong_sym((es2 + p2 * sk) % m, es2 + p2 * sk);
        lemma_cong_refl(x);
        lemma_cong_mul(x, x, es2 + p2 * sk, (es2 + p2 * sk) % m);
        lemma_cong_mod(er + pr * rk);
        lemma_cong_trans(eval_prefix(r, x, k), er + pr * rk, x * (es2 + p2 * sk));
        lemma_cong_trans(
            eval_prefix(r, x, k),
            x * (es2 + p2 * sk),
            x * ((es2 + p2 * sk) % m),
        );
    }
}

/// Multiplying by the linear factor `x - a` multiplies every evaluation by
/// `point - a`: stated for coefficient vectors built as "shift up, then add
/// the negated-`a` multiple of the zero-padded source".
proof fn lemma_eval_mul_linear(
    nb: Seq<Fe>,
    r0: Seq<Fe>,
    spad: Seq<Fe>,
    s: Seq<Fe>,
    nega: Fe,
    a: Fe,
    x: int,
)
    requires
        nb.len() == s.len() + 1,
        forall|i: int| #[trigger] coeff(r0, i) == coeff(s, i - 1),
        spad.len() == s.len() + 1,
        forall|i: int| #[trigger] coeff(spad, i) == coeff(s, i),
        congruent(nega.val as int, -(a.val as int)),
        forall|i: int|
            congruent(#[trigger] coeff(nb, i), coeff(r0, i) + (nega.val as int) * coeff(spad, i)),
    ensures
        congruent(eval_poly(nb, x), (x - a.val) * eval_poly(s, x)),
{
    let m = MODULUS as int;
    let lens = s.len() as int;
    let av = a.val as int;
    let nv = nega.val as int;
    let es = eval_poly(s, x);
    lemma_eval_prefix_add_scaled(nb, r0, spad, nega, x, lens + 1);
    lemma_eval_prefix_shift(r0, s, x, lens + 1);
    // the padded source evaluates exactly like the source
    lemma_eval_prefix_agree(spad, s, x, lens + 1);
    assert(coeff(s, lens) == 0);
    lemma_eval_prefix_bound(s, x, lens);
    lemma_small_mod(eval_prefix(s, x, lens) as nat, MODULUS as nat);
    assert(eval_prefix(spad, x, lens + 1) == es);
    // combine: nb evaluates to x*es + nega*es, which is congruent to (x-a)*es
    lemma_cong_refl(nv * es);
    lemma_cong_add(eval_prefix(r0, x, lens + 1), x * es, nv * es, nv * es);
    lemma_cong_trans(
        eval_prefix(nb, x, lens + 1),
        eval_prefix(r0, x, lens + 1) + nv * es,
        x * es + nv * es,
    );
    lemma_cong_refl(es);
    lemma_cong_mul(nv, -av, es, es);
    lemma_cong_refl(x * es);
    lemma_cong_add(x * es, x * es, nv * es, (-av) * es);
    lemma_cong_trans(eval_prefix(nb, x, lens + 1), x * es + nv * es, x * es + (-av) * es);
    assert(x * es + (-av) * es == (x - av) * es) by (nonlinear_arith);
}

/// Synthetic division of `d` by the linear factor `x - lo`: the quotient
/// coefficient of degree `i`, computed from the top degree downward.
spec fn qcoeff(d: Seq<Fe>, lo: int, i: int) -> int
    decreases d.len() - i,
{
    if i < 0 || i >= d.len() - 1 {
        0int
    } else {
        (coeff(d, i + 1) + lo * qcoeff(d, lo, i + 1)) % (MODULUS as int)
    }
}

/// Quotient coefficients are canonical field representatives.
proof fn lemma_qcoeff_bound(d: Seq<Fe>, lo: int, i: int)
    ensures
        0 <= qcoeff(d, lo, i) < MODULUS as int,
    decreases d.len() - i,
{
    if i < 0 || i >= d.len() - 1 {
    } else {
        lemma_mod_bound(coeff(d, i + 1) + lo * qcoeff(d, lo, i + 1), MODULUS as int);
    }
}

/// The coefficients of `d` against those of its synthetic quotient: every
/// `d_i` with `i >= 1` is congruent to `q_(i-1) - lo * q_i`.
proof fn lemma_qcoeff_relation(d: Seq<Fe>, lo: int, i: int)
    requires
        i >= 1,
    ensures
        congruent(coeff(d, i), qcoeff(d, lo, i - 1) - lo * qcoeff(d, lo, i)),
{
    if i >= d.len() {
        // both sides vanish
        assert(coeff(d, i) == 0);
        assert(qcoeff(d, lo, i - 1) == 0);
        assert(qcoeff(d, lo, i) == 0);
        assert(lo * 0 == 0);
        lemma_cong_refl(0);
    } else {
        // q_(i-1) is (d_i + lo*q_i) reduced, so subtracting lo*q_i leaves d_i
        lemma_cong_mod(coeff(d, i) + lo * qcoeff(d, lo, i));
        lemma_cong_refl(lo * qcoeff(d, lo, i));
        lemma_cong_sub(
            qcoeff(d, lo, i - 1),
            coeff(d, i) + lo * qcoeff(d, lo, i),
            lo * qcoeff(d, lo, i),
            lo * qcoeff(d, lo, i),
        );
        lemma_cong_sym(
            qcoeff(d, lo, i - 1) - lo * qcoeff(d, lo, i),
            coeff(d, i),
        );
    }
}

/// The ring identity behind one step of the synthetic-division induction.
#[verifier::rlimit(30)]
proof fn lemma_synth_regroup(
    t: int,
    lo: int,
    eq2: int,
    eq1: int,
    rc: int,
    p2: int,
    pr: int,
    qk2: int,
    qk1: int,
)
    ensures
        t * eq2 - lo * eq1 + rc + (t * p2) * (qk2 - lo * qk1) == t * (eq2 + p2 * qk2) - lo * (
        eq1 + pr * qk1) + rc + (lo * qk1) * (pr - t * p2),
{
    assert((t * p2) * (qk2 - lo * qk1) == (t * p2) * qk2 - (t * p2) * (lo * qk1))
        by (nonlinear_arith);
    assert(t * (eq2 + p2 * qk2) == t * eq2 + (t * p2) * qk2) by (nonlinear_arith);
    assert(lo * (eq1 + pr * qk1) == lo * eq1 + (lo * qk1) * pr) by (nonlinear_arith);
    assert((lo * qk1) * (pr - t * p2) == (lo * qk1) * pr - (t * p2) * (lo * qk1))
        by (nonlinear_arith);
}

/// The remainder theorem, prefix by prefix: evaluating `d` is evaluating
/// its synthetic quotient times `t - lo`, plus the division remainder
/// `d_0 + lo * q_0`.
proof fn lemma_synth_div_prefix(d: Seq<Fe>, q: Seq<Fe>, lo: int, t: int, k: int)
    requires
        forall|i: int| #[trigger] coeff(q, i) == qcoeff(d, lo, i),
    ensures
        congruent(
            eval_prefix(d, t, k),
            t * eval_prefix(q, t, k - 1) - lo * eval_prefix(q, t, k) + if k >= 1 {
                coeff(d, 0) + lo * qcoeff(d, lo, 0)
            } else {
                0int
            },
        ),
    decreases k,
{
    let m = MODULUS as int;
    let rc = coeff(d, 0) + lo * qcoeff(d, lo, 0);
    if k <= 0 {
        assert(t * 0 == 0);
        assert(lo * 0 == 0);
        lemma_cong_refl(0);
    } else if k == 1 {
        let d0 = coeff(d, 0);
        let q0 = coeff(q, 0);
        assert(eval_prefix(d, t, 0) == 0);
        assert(eval_prefix(q, t, 0) == 0);
        assert(pow_m(t, 0) == 1);
        assert(t * eval_prefix(q, t, 0) == 0);
        // the first prefix of d reduces d_0, and rc - lo*q_0 == d_0
        lemma_cong_mod(0 + 1 * d0);
        lemma_cong_mod(0 + 1 * q0);
        lemma_cong_refl(lo);
        lemma_cong_mul(lo, lo, q0, eval_prefix(q, t, 1));
        lemma_cong_refl(d0 + lo * q0);
        lemma_cong_sub(
            d0 + lo * q0,
            d0 + lo * q0,
            lo * q0,
            lo * eval_prefix(q, t, 1),
        );
        lemma_cong_refl(d0);
        lemma_cong_trans(
            eval_prefix(d, t, 1),
            d0 + lo * q0 - lo * q0,
            d0 + lo * q0 - lo * eval_prefix(q, t, 1),
        );
    } else {
        lemma_synth_div_prefix(d, q, lo, t, k - 1);
        lemma_qcoeff_relation(d, lo, k - 1);
        let ed = eval_prefix(d, t, k - 1);
        let eq2 = eval_prefix(q, t, k - 2);
        let eq1 = eval_prefix(q, t, k - 1);
        let pr = pow_m(t, (k - 1) as nat);
        let p2 = pow_m(t, (k - 2) as nat);
        let dk = coeff(d, k - 1);
        let qk2 = coeff(q, k - 2);
        let qk1 = coeff(q, k - 1);
        // step one: fold the coefficient relation into the running sum
        lemma_cong_refl(pr);
        lemma_cong_mul(pr, pr, dk, qk2 - lo * qk1);
        lemma_cong_add(ed, t * eq2 - lo * eq1 + rc, pr * dk, pr * (qk2 - lo * qk1));
        // step two: replace the power pr by t times the previous power
        lemma_cong_mod(t * p2);
        lemma_cong_refl(qk2 - lo * qk1);
        lemma_cong_mul(pr, t * p2, qk2 - lo * qk1, qk2 - lo * qk1);
        lemma_cong_refl(t * eq2 - lo * eq1 + rc);
        lemma_cong_add(
            t * eq2 - lo * eq1 + rc,
            t * eq2 - lo * eq1 + rc,
            pr * (qk2 - lo * qk1),
            (t * p2) * (qk2 - lo * qk1),
        );
        lemma_cong_trans(
            ed + pr * dk,
            t * eq2 - lo * eq1 + rc + pr * (qk2 - lo * qk1),
            t * eq2 - lo * eq1 + rc + (t * p2) * (qk2 - lo * qk1),
        );
        // step three: regroup into the next prefix sums; the leftover term
        // carries the factor pr - t*p2, itself congruent to zero
        lemma_synth_regroup(t, lo, eq2, eq1, rc, p2, pr, qk2, qk1);
        lemma_cong_refl(t * p2);
        lemma_cong_sub(pr, t * p2, t * p2, t * p2);
        lemma_cong_refl(lo * qk1);
        lemma_cong_mul(lo * qk1, lo * qk1, pr - t * p2, 0);
        assert((lo * qk1) * 0 == 0) by (nonlinear_arith);
        lemma_cong_refl(t * (eq2 + p2 * qk2) - lo * (eq1 + pr * qk1) + rc);
        lemma_cong_add(
            t * (eq2 + p2 * qk2) - lo * (eq1 + pr * qk1) + rc,
            t * (eq2 + p2 * qk2) - lo * (eq1 + pr * qk1) + rc,
            (lo * qk1) * (pr - t * p2),
            0,
        );
        lemma_cong_trans(
            ed + pr * dk,
            t * (eq2 + p2 * qk2) - lo * (eq1 + pr * qk1) + rc + (lo * qk1) * (pr - t * p2),
            t * (eq2 + p2 * qk2) - lo * (eq1 + pr * qk1) + rc,
        );
        // step four: reduce the two inner sums into prefix values
        lemma_cong_mod(eq2 + p2 * qk2);
        lemma_cong_sym((eq2 + p2 * qk2) % m, eq2 + p2 * qk2);
        lemma_cong_refl(t);
        lemma_cong_mul(t, t, eq2 + p2 * qk2, (eq2 + p2 * qk2) % m);
        lemma_cong_mod(eq1 + pr * qk1);
        lemma_cong_sym((eq1 + pr * qk1) % m, eq1 + pr * qk1);
        lemma_cong_refl(lo);
        lemma_cong_mul(lo, lo, eq1 + pr * qk1, (eq1 + pr * qk1) % m);
        lemma_cong_sub(
            t * (eq2 + p2 * qk2),
            t * ((eq2 + p2 * qk2) % m),
            lo * (eq1 + pr * qk1),
            lo * ((eq1 + pr * qk1) % m),
        );
        lemma_cong_refl(rc);
        lemma_cong_add(
            t * (eq2 + p2 * qk2) - lo * (eq1 + pr * qk1),
            t * ((eq2 + p2 * qk2) % m) - lo * ((eq1 + pr * qk1) % m),
            rc,
            rc,
        );
        lemma_cong_trans(
            ed + pr * dk,
            t * (eq2 + p2 * qk2) - lo * (eq1 + pr * qk1) + rc,
            t * ((eq2 + p2 * qk2) % m) - lo * ((eq1 + pr * qk1) % m) + rc,
        );
        // step five: reduce the left side
        lemma_cong_mod(ed + pr * dk);
        lemma_cong_trans(
            (ed + pr * dk) % m,
            ed + pr * dk,
            t * ((eq2 + p2 * qk2) % m) - lo * ((eq1 + pr * qk1) % m) + rc,
        );
    }
}

/// A polynomial whose coefficient count fits the window of canonical
/// points `[lo, lo + len)` and which vanishes at every one of them is the
/// zero polynomial.
proof fn lemma_vanishing_window(d: Seq<Fe>, lo: int)
    requires
        seq_valid(d),
        0 <= lo,
        lo + d.len() <= MODULUS as int,
        forall|t: int| lo <= t < lo + d.len() ==> #[trigger] eval_poly(d, t) == 0,
    ensures
        is_zero_poly(d),
    decreases d.len(),
{
    let m = MODULUS as int;
    let len = d.len() as int;
    if d.len() == 0 {
    } else if d.len() == 1 {
        assert(eval_poly(d, lo) == 0);
        assert(eval_prefix(d, lo, 0) == 0);
        assert(pow_m(lo, 0) == 1);
        lemma_small_mod(d[0].val as nat, MODULUS as nat);
        assert(d[0].val == 0);
    } else {
        let q = Seq::new((d.len() - 1) as nat, |i: int| Fe { val: qcoeff(d, lo, i) as u64 });
        assert forall|i: int| #[trigger] coeff(q, i) == qcoeff(d, lo, i) by {
            lemma_qcoeff_bound(d, lo, i);
        }
        assert(seq_valid(q)) by {
            assert forall|i: int| 0 <= i < q.len() implies (#[trigger] q[i]).valid() by {
                lemma_qcoeff_bound(d, lo, i);
            }
        }
        let rc = coeff(d, 0) + lo * qcoeff(d, lo, 0);
        // at every point of the window, the top prefix of q equals the full
        // evaluation, since the extra coefficient read is zero
        assert forall|t: int| #[trigger] eval_prefix(q, t, len) == eval_poly(q, t) by {
            assert(coeff(q, len - 1) == 0);
            assert(pow_m(t, (len - 1) as nat) * 0 == 0);
            lemma_eval_prefix_bound(q, t, len - 1);
            lemma_small_mod(eval_prefix(q, t, len - 1) as nat, MODULUS as nat);
        }
        // the remainder is congruent to zero: d vanishes at lo itself
        lemma_synth_div_prefix(d, q, lo, lo, len);
        assert(eval_poly(d, lo) == 0);
        assert(lo * eval_prefix(q, lo, len - 1) - lo * eval_prefix(q, lo, len) == 0);
        // the quotient vanishes on the shifted window
        assert forall|t: int|
            lo + 1 <= t < lo + 1 + q.len() implies #[trigger] eval_poly(q, t) == 0 by {
            lemma_synth_div_prefix(d, q, lo, t, len);
            let ev = eval_poly(q, t);
            let f = t - lo;
            assert(t * ev - lo * ev == f * ev) by (nonlinear_arith)
                requires
                    f == t - lo,
            ;
            assert(eval_poly(d, t) == 0);
            // strip the remainder from the congruence
            lemma_cong_sub(0, f * ev + rc, 0, rc);
            lemma_eval_prefix_bound(q, t, len - 1);
            if ev != 0 {
                lemma_nonzero_product(f, ev);
                lemma_cong_sym(0 - 0, f * ev + rc - rc);
                lemma_cong_mod_eq(f * ev, 0);
                lemma_small_mod(0, MODULUS as nat);
                assert(false);
            }
        }
        lemma_vanishing_window(q, lo + 1);
        // all quotient coefficients vanish, so every coefficient of d does
        assert forall|i: int| 0 <= i < d.len() implies (#[trigger] d[i]).val == 0 by {
            assert forall|j: int| #[trigger] qcoeff(d, lo, j) == 0 by {
                if 0 <= j < q.len() {
                    assert(q[j].val == 0);
                }
            }
            if i == 0 {
                // the remainder reduces to the constant term
                assert(rc == coeff(d, 0));
                lemma_cong_sym(0, rc);
                lemma_cong_small(coeff(d, 0), 0);
            } else {
                lemma_qcoeff_relation(d, lo, i);
                assert(lo * qcoeff(d, lo, i) == 0);
                lemma_cong_small(coeff(d, i), 0);
            }
        }
    }
}

/// The interpolant is unique: two coefficient vectors of the same length
/// that agree at that many canonical points are equal, coefficient by
/// coefficient.  In particular the polynomial returned by interpolation is
/// the only one of its length satisfying all the given evaluations.
pub proof fn lemma_interpolant_unique(a: Seq<Fe>, b: Seq<Fe>)
    requires
        seq_valid(a),
        seq_valid(b),
        a.len() == b.len(),
        a.len() <= MODULUS,
        forall|i: int| 0 <= i < a.len() ==> #[trigger] eval_poly(a, i) == eval_poly(b, i),
    ensures
        a == b,
{
    let m = MODULUS as int;
    let len = a.len() as int;
    let one = Fe { val: 1 };
    let d = Seq::new(
        a.len(),
        |i: int| Fe { val: ((a[i].val + MODULUS - b[i].val) % (MODULUS as int)) as u64 },
    );
    assert(seq_valid(d)) by {
        assert forall|i: int| 0 <= i < d.len() implies (#[trigger] d[i]).valid() by {
            lemma_mod_bound(a[i].val + m - b[i].val, m);
        }
    }
    // a is congruent to d + b, element by element
    assert forall|i: int|
        congruent(#[trigger] coeff(a, i), coeff(d, i) + 1 * coeff(b, i)) by {
        if 0 <= i < a.len() {
            lemma_mod_bound(a[i].val + m - b[i].val, m);
            lemma_cong_mod(a[i].val + m - b[i].val);
            lemma_cong_from_witness(a[i].val + m - b[i].val, a[i].val - b[i].val, 1);
            lemma_cong_trans(coeff(d, i), a[i].val + m - b[i].val, a[i].val - b[i].val);
            lemma_cong_refl(coeff(b, i));
            lemma_cong_add(coeff(d, i), a[i].val - b[i].val, coeff(b, i), coeff(b, i));
            lemma_cong_sym(coeff(d, i) + coeff(b, i), coeff(a, i));
        } else {
            lemma_cong_refl(0);
        }
    }
    // the difference vanishes at every canonical point of the window
    assert forall|t: int| 0 <= t < d.len() implies #[trigger] eval_poly(d, t) == 0 by {
        lemma_eval_prefix_add_scaled(a, d, b, one, t, len);
        lemma_eval_prefix_bound(d, t, len);
        lemma_cong_sym(eval_poly(a, t), eval_poly(d, t) + 1 * eval_poly(b, t));
        lemma_cong_refl(eval_poly(b, t));
        lemma_cong_sub(
            eval_poly(d, t) + 1 * eval_poly(b, t),
            eval_poly(a, t),
            eval_poly(b, t),
            eval_poly(b, t),
        );
        lemma_cong_small(eval_poly(d, t), 0);
    }
    lemma_vanishing_window(d, 0);
    assert forall|i: int| 0 <= i < a.len() implies a[i] == b[i] by {
        assert(d[i].val == 0);
        assert(coeff(d, i) == 0);
        lemma_cong_small(coeff(a, i), coeff(b, i));
    }
    assert(a =~= b);
}

/// Partial convolution: the sum of `coeff(q, j) * coeff(d, i - j)` over
/// `0 <= j <= jmax`, over the integers.
pub open spec fn conv_prefix(q: Seq<Fe>, d: Seq<Fe>, i: int, jmax: int) -> int
    decreases jmax + 1,
{
    if jmax < 0 {
        0int
    } else {
        conv_prefix(q, d, i, jmax - 1) + coeff(q, jmax) * coeff(d, i - jmax)
    }
}

/// Coefficient `i` of the product `q * d`, over the integers (reduced into
/// the field only through congruence).
pub open spec fn conv(q: Seq<Fe>, d: Seq<Fe>, i: int) -> int {
    conv_prefix(q, d, i, i)
}

/// The long-division invariant, coefficient by coefficient over the infinite
/// view: the dividend is congruent to quotient times divisor plus remainder.
pub open spec fn division_invariant(
    dividend: Seq<Fe>,
    q: Seq<Fe>,
    d: Seq<Fe>,
    rem: Seq<Fe>,
) -> bool {
    forall|i: int| congruent(coeff(dividend, i), #[trigger] conv(q, d, i) + coeff(rem, i))
}

/// A product with an all-zero left factor has zero coefficients.
proof fn lemma_conv_prefix_zero(q: Seq<Fe>, d: Seq<Fe>, i: int, jmax: int)
    requires
        is_zero_poly(q),
    ensures
        conv_prefix(q, d, i, jmax) == 0,
    decreases jmax + 1,
{
    if jmax < 0 {
    } else {
        lemma_conv_prefix_zero(q, d, i, jmax - 1);
        assert(coeff(q, jmax) == 0);
    }
}

/// A product with an all-zero left factor is zero.
proof fn lemma_conv_zero(q: Seq<Fe>, d: Seq<Fe>)
    requires
        is_zero_poly(q),
    ensures
        forall|i: int| #[trigger] conv(q, d, i) == 0,
{
    assert forall|i: int| #[trigger] conv(q, d, i) == 0 by {
        lemma_conv_prefix_zero(q, d, i, i);
    }
}

/// Writing `c` into a previously-zero slot `k` of the left factor adds
/// exactly `c * coeff(d, i - k)` to each partial product coefficient.
proof fn lemma_conv_prefix_update(
    q1: Seq<Fe>,
    q2: Seq<Fe>,
    d: Seq<Fe>,
    k: int,
    c: Fe,
    i: int,
    jmax: int,
)
    requires
        0 <= k < q1.len(),
        q2 == q1.update(k, c),
        q1[k].val == 0,
    ensures
        conv_prefix(q2, d, i, jmax) == conv_prefix(q1, d, i, jmax) + if k <= jmax {
            (c.val as int) * coeff(d, i - k)
        } else {
            0int
        },
    decreases jmax + 1,
{
    if jmax < 0 {
    } else {
        lemma_conv_prefix_update(q1, q2, d, k, c, i, jmax - 1);
        if jmax == k {
            assert(coeff(q2, jmax) == c.val as int);
            assert(coeff(q1, jmax) == 0);
        } else {
            assert(coeff(q2, jmax) == coeff(q1, jmax));
        }
    }
}

/// The same, for every full product coefficient.
proof fn lemma_conv_update(q1: Seq<Fe>, q2: Seq<Fe>, d: Seq<Fe>, k: int, c: Fe)
    requires
        0 <= k < q1.len(),
        q2 == q1.update(k, c),
        q1[k].val == 0,
    ensures
        forall|i: int| #[trigger] conv(q2, d, i) == conv(q1, d, i) + (c.val as int) * coeff(
            d,
            i - k,
        ),
{
    assert forall|i: int| #[trigger] conv(q2, d, i) == conv(q1, d, i) + (c.val as int) * coeff(
        d,
        i - k,
    ) by {
        lemma_conv_prefix_update(q1, q2, d, k, c, i, i);
        if k > i {
            assert(coeff(d, i - k) == 0);
        }
    }
}

/// One long-division step preserves the division invariant.
proof fn lemma_division_step(
    dividend: Seq<Fe>,
    qb: Seq<Fe>,
    qa: Seq<Fe>,
    d: Seq<Fe>,
    rb: Seq<Fe>,
    ra: Seq<Fe>,
    k: int,
    c: Fe,
)
    requires
        division_invariant(dividend, qb, d, rb),
        0 <= k < qb.len(),
        qa == qb.update(k, c),
        qb[k].val == 0,
        forall|i: int|
            congruent(
                #[trigger] coeff(ra, i),
                coeff(rb, i) - (c.val as int) * coeff(d, i - k),
            ),
    ensures
        division_invariant(dividend, qa, d, ra),
{
    lemma_conv_update(qb, qa, d, k, c);
    assert forall|i: int|
        congruent(coeff(dividend, i), #[trigger] conv(qa, d, i) + coeff(ra, i)) by {
        let delta = (c.val as int) * coeff(d, i - k);
        assert(conv(qa, d, i) == conv(qb, d, i) + delta);
        lemma_cong_refl(conv(qb, d, i) + delta);
        lemma_cong_add(
            conv(qb, d, i) + delta,
            conv(qb, d, i) + delta,
            coeff(ra, i),
            coeff(rb, i) - delta,
        );
        lemma_cong_sym(conv(qb, d, i) + delta + coeff(ra, i), conv(qb, d, i) + coeff(rb, i));
        lemma_cong_trans(
            coeff(dividend, i),
            conv(qb, d, i) + coeff(rb, i),
            conv(qb, d, i) + delta + coeff(ra, i),
        );
    }
}

/// The quotient coefficient chosen from the leading terms cancels the
/// remainder's leading coefficient exactly.
proof fn lemma_leading_cancel(rlead: Fe, dlead: Fe, dinv: Fe, c: Fe, t: int)
    requires
        rlead.valid(),
        dlead.valid(),
        dinv.valid(),
        (dlead.val * dinv.val) % (MODULUS as int) == 1,
        c.val == (rlead.val * dinv.val) % (MODULUS as int),
        congruent(t, rlead.val - (c.val as int) * (dlead.val as int)),
        0 <= t < MODULUS as int,
    ensures
        t == 0,
{
    let rl = rlead.val as int;
    let dl = dlead.val as int;
    let dv = dinv.val as int;
    let cv = c.val as int;
    lemma_cong_mod(rl * dv);
    lemma_cong_refl(dl);
    lemma_cong_mul(cv, rl * dv, dl, dl);
    assert((rl * dv) * dl == rl * (dl * dv)) by (nonlinear_arith);
    lemma_cong_mod(dl * dv);
    lemma_cong_sym((dl * dv) % (MODULUS as int), dl * dv);
    lemma_cong_sym(1, dl * dv);
    lemma_cong_refl(rl);
    lemma_cong_mul(rl, rl, dl * dv, 1);
    lemma_cong_trans(cv * dl, rl * (dl * dv), rl * 1);
    lemma_cong_refl(rl);
    lemma_cong_sub(rl, rl, cv * dl, rl);
    lemma_cong_trans(t, rl - cv * dl, rl - rl);
    lemma_cong_small(t, 0);
}

/// The compressed form of a dense polynomial: the constant term followed by
/// the coefficients of degree two and higher; the linear one is omitted.
pub open spec fn compressed_of(s: Seq<Fe>) -> Seq<Fe> {
    seq![s[0]] + s.subrange(2, s.len() as int)
}

/// The plain integer sum of the coefficients from index `from` upward.
pub open spec fn tail_sum(s: Seq<Fe>, from: int) -> int
    decreases s.len() - from,
{
    if from < 0 || from >= s.len() {
        0int
    } else {
        coeff(s, from) + tail_sum(s, from + 1)
    }
}

/// The linear coefficient recovered from a compressed polynomial and a hint.
pub open spec fn linear_of(c: Seq<Fe>, hint: Fe) -> int {
    (hint.val - 2 * coeff(c, 0) - tail_sum(c, 1)) % (MODULUS as int)
}

/// The dense polynomial recovered from a compressed one and a hint.
pub open spec fn decompressed_of(c: Seq<Fe>, hint: Fe) -> Seq<Fe> {
    seq![c[0], Fe { val: linear_of(c, hint) as u64 }] + c.subrange(1, c.len() as int)
}

/// Equal element ranges have equal plain sums.
proof fn lemma_tail_sum_shifted(c: Seq<Fe>, s: Seq<Fe>, jc: int, js: int)
    requires
        0 <= jc,
        0 <= js,
        c.len() - jc == s.len() - js,
        forall|u: int| jc <= u < c.len() ==> #[trigger] c[u] == s[u - jc + js],
    ensures
        tail_sum(c, jc) == tail_sum(s, js),
    decreases c.len() - jc,
{
    if jc >= c.len() {
    } else {
        assert(c[jc] == s[js]);
        lemma_tail_sum_shifted(c, s, jc + 1, js + 1);
    }
}

/// The running field sum of a prefix is congruent to the plain sum of that
/// prefix.
proof fn lemma_sum_prefix_cong(s: Seq<Fe>, k: int)
    requires
        0 <= k <= s.len(),
    ensures
        congruent(sum_prefix(s, k), tail_sum(s, 0) - tail_sum(s, k)),
    decreases k,
{
    if k == 0 {
        lemma_cong_refl(0);
    } else {
        lemma_sum_prefix_cong(s, k - 1);
        assert(tail_sum(s, k - 1) == coeff(s, k - 1) + tail_sum(s, k));
        lemma_cong_mod(sum_prefix(s, k - 1) + coeff(s, k - 1));
        lemma_cong_refl(coeff(s, k - 1));
        lemma_cong_add(
            sum_prefix(s, k - 1),
            tail_sum(s, 0) - tail_sum(s, k - 1),
            coeff(s, k - 1),
            coeff(s, k - 1),
        );
        lemma_cong_trans(
            sum_prefix(s, k),
            sum_prefix(s, k - 1) + coeff(s, k - 1),
            tail_sum(s, 0) - tail_sum(s, k - 1) + coeff(s, k - 1),
        );
    }
}

/// The field sum of all coefficients is congruent to their plain sum.
proof fn lemma_coeff_sum_cong(s: Seq<Fe>)
    ensures
        congruent(coeff_sum(s), tail_sum(s, 0)),
{
    lemma_sum_prefix_cong(s, s.len() as int);
    assert(tail_sum(s, s.len() as int) == 0);
}

/// Compressing and then decompressing with the true hint `p(0) + p(1)`
/// restores the polynomial exactly, coefficient by coefficient.
pub proof fn lemma_compress_decompress_roundtrip(s: Seq<Fe>, hint: Fe)
    requires
        s.len() >= 2,
        seq_valid(s),
        hint.val == (eval_poly(s, 0) + eval_poly(s, 1)) % (MODULUS as int),
    ensures
        decompressed_of(compressed_of(s), hint) == s,
{
    let m = MODULUS as int;
    let c = compressed_of(s);
    assert(c.len() == s.len() - 1);
    assert(c[0] == s[0]);
    assert(forall|u: int| 1 <= u < c.len() ==> #[trigger] c[u] == s[u + 1]);
    lemma_tail_sum_shifted(c, s, 1, 2);
    lemma_eval_at_zero_is_constant_term(s);
    lemma_eval_at_one_is_coeff_sum(s);
    lemma_coeff_sum_cong(s);
    // hint is congruent to s0 + (s0 + s1 + tail_sum(s, 2))
    lemma_cong_mod(eval_poly(s, 0) + eval_poly(s, 1));
    lemma_cong_refl(coeff(s, 0));
    lemma_cong_add(coeff(s, 0), coeff(s, 0), coeff_sum(s), tail_sum(s, 0));
    lemma_cong_trans(
        hint.val as int,
        eval_poly(s, 0) + eval_poly(s, 1),
        coeff(s, 0) + tail_sum(s, 0),
    );
    assert(tail_sum(s, 0) == coeff(s, 0) + tail_sum(s, 1));
    assert(tail_sum(s, 1) == coeff(s, 1) + tail_sum(s, 2));
    // subtracting 2*s0 and the tail leaves the linear coefficient
    lemma_cong_refl(2 * coeff(s, 0) + tail_sum(s, 2));
    lemma_cong_sub(
        hint.val as int,
        coeff(s, 0) + tail_sum(s, 0),
        2 * coeff(s, 0) + tail_sum(s, 2),
        2 * coeff(s, 0) + tail_sum(s, 2),
    );
    assert(coeff(s, 0) + tail_sum(s, 0) - (2 * coeff(s, 0) + tail_sum(s, 2)) == coeff(s, 1));
    lemma_cong_sym(
        hint.val - (2 * coeff(s, 0) + tail_sum(s, 2)),
        coeff(s, 1),
    );
    lemma_cong_canon(coeff(s, 1), hint.val - 2 * coeff(c, 0) - tail_sum(c, 1));
    assert(linear_of(c, hint) == coeff(s, 1));
    assert(Fe { val: linear_of(c, hint) as u64 } == s[1]);
    assert(decompressed_of(c, hint) =~= s);
}

/// Why interpolation can fail.
#[derive(Clone, Copy, Debug, PartialEq, Eq, Structural)]
pub enum InterpolationError {
    /// More evaluation points than field elements: the canonical points
    /// `0..n-1` cannot all be embedded exactly, a fatal configuration error.
    FieldTooSmall,
}

/// A dense univariate polynomial in ascending-degree coefficient order.
#[derive(Clone, Debug)]
pub struct UniPoly {
    coeffs: Vec<Fe>,
}

impl View for UniPoly {
    type V = Seq<Fe>;

    closed spec fn view(&self) -> Seq<Fe> {
        self.coeffs@
    }
}

impl UniPoly {
    /// Well-formedness: every coefficient is a canonical field element.
    pub open spec fn valid(&self) -> bool {
        seq_valid(self@)
    }

    /// Wrap a coefficient vector as a polynomial.
    pub fn from_coeff(coeffs: Vec<Fe>) -> (r: UniPoly)
        ensures
            r@ == coeffs@,
    {
        UniPoly { coeffs }
    }

    /// Interpolate the polynomial of degree at most `n - 1` through the
    /// evaluations `p(0), p(1), ..., p(n-1)`.  Interpolation succeeds for
    /// every evaluation sequence whose canonical points embed in the field,
    /// and the returned polynomial is proved to satisfy every one of the
    /// given evaluations; by `lemma_interpolant_unique` it is the only
    /// polynomial of that length which does.  The one failure is a point
    /// count above the field size, a fatal configuration error.
    pub fn from_evals(evals: &Vec<Fe>) -> (r: Result<UniPoly, InterpolationError>)
        requires
            seq_valid(evals@),
        ensures
            r is Err <==> evals@.len() > MODULUS,
            r matches Err(e) ==> e == InterpolationError::FieldTooSmall,
            r matches Ok(p) ==> {
                &&& p.valid()
                &&& p@.len() == evals@.len()
                &&& forall|i: int|
                    0 <= i < evals@.len() ==> eval_poly(p@, i) == (#[trigger] evals@[i]).val
            },
    {
        match Self::vandermonde_interpolation(evals) {
            Ok(coeffs) => Ok(UniPoly { coeffs }),
            Err(e) => Err(e),
        }
    }

    /// Build the Vandermonde system for the canonical points `0..n-1`, hand
    /// it to the elimination solver, and validate the candidate solution by
    /// substituting it back into every equation.  Should the candidate fail
    /// validation, the interpolant is computed afresh by the point-by-point
    /// construction, so interpolation is total whenever the points embed.
    fn vandermonde_interpolation(evals: &Vec<Fe>) -> (r: Result<Vec<Fe>, InterpolationError>)
        requires
            seq_valid(evals@),
        ensures
            r is Err <==> evals@.len() > MODULUS,
            r matches Err(e) ==> e == InterpolationError::FieldTooSmall,
            r matches Ok(c) ==> {
                &&& seq_valid(c@)
                &&& c@.len() == evals@.len()
                &&& forall|i: int|
                    0 <= i < evals@.len() ==> eval_poly(c@, i) == (#[trigger] evals@[i]).val
            },
    {
        let n = evals.len();
        if n as u64 > MODULUS {
            return Err(InterpolationError::FieldTooSmall);
        }
        if n == 0 {
            return Ok(Vec::new());
        }
        let mut vandermonde: Vec<Vec<Fe>> = Vec::new();
        let mut i: usize = 0;
        while i < n
            invariant
                0 <= i <= n,
                n == evals@.len(),
                n <= MODULUS,
                seq_valid(evals@),
                vandermonde@.len() == i,
                crate::solver::matrix_wf(vandermonde@, (n + 1) as nat),
            decreases n - i,
        {
            let x = match Fe::from_u64(i as u64) {
                Some(v) => v,
                None => vstd::pervasive::unreached(),
            };
            let mut row: Vec<Fe> = Vec::new();
            let mut pw = Fe::one();
            let mut j: usize = 0;
            while j < n
                invariant
                    0 <= j <= n,
                    x.valid(),
                    pw.valid(),
                    row@.len() == j,
                    seq_valid(row@),
                decreases n - j,
            {
                row.push(pw);
                pw = pw.mul(x);
                j += 1;
            }
            row.push(evals[i]);
            let ghost before = vandermonde@;
            vandermonde.push(row);
            proof {
                assert forall|t: int|
                    0 <= t < vandermonde@.len() implies (#[trigger] vandermonde@[t])@.len() == n
                    + 1 && seq_valid(vandermonde@[t]@) by {
                    if t < before.len() {
                        assert(vandermonde@[t] == before[t]);
                    } else {
                        assert(vandermonde@[t] == row);
                    }
                }
            }
            i += 1;
        }
        let solved = match crate::solver::gaussian_elimination(&mut vandermonde) {
            Some(c) => c,
            None => {
                return Ok(newton_interpolation(evals));
            },
        };
        let cand = UniPoly { coeffs: solved };
        let mut i: usize = 0;
        while i < n
            invariant
                0 <= i <= n,
                n == evals@.len(),
                n <= MODULUS,
                seq_valid(evals@),
                cand@.len() == n,
                cand.valid(),
                forall|t: int| 0 <= t < i ==> eval_poly(cand@, t) == (#[trigger] evals@[t]).val,
            decreases n - i,
        {
            let x = match Fe::from_u64(i as u64) {
                Some(v) => v,
                None => vstd::pervasive::unreached(),
            };
            let v = cand.evaluate(&x);
            if v.val != evals[i].val {
                return Ok(newton_interpolation(evals));
            }
            i += 1;
        }
        Ok(cand.coeffs)
    }

    /// The zero polynomial.
    fn zero() -> (r: UniPoly)
        ensures
            r@.len() == 0,
    {
        UniPoly { coeffs: Vec::new() }
    }

    /// Whether this is the zero polynomial.
    pub fn is_zero(&self) -> (r: bool)
        ensures
            r == is_zero_poly(self@),
    {
        let mut i: usize = 0;
        while i < self.coeffs.len()
            invariant
                0 <= i <= self.coeffs.len(),
                forall|j: int| 0 <= j < i ==> (#[trigger] self@[j]).val == 0,
            decreases self.coeffs.len() - i,
        {
            if self.coeffs[i].val != 0 {
                return false;
            }
            i += 1;
        }
        true
    }

    /// The highest-index coefficient, absent for an empty coefficient vector.
    fn leading_coefficient(&self) -> (r: Option<Fe>)
        ensures
            r is None <==> self@.len() == 0,
            r matches Some(c) ==> self@.len() > 0 && c == self@.last(),
    {
        if self.coeffs.len() == 0 {
            None
        } else {
            Some(self.coeffs[self.coeffs.len() - 1])
        }
    }

    /// The degree of a non-empty coefficient vector.
    pub fn degree(&self) -> (r: usize)
        requires
            self@.len() >= 1,
        ensures
            r == self@.len() - 1,
    {
        self.coeffs.len() - 1
    }

    /// A copy of the coefficient vector.
    pub fn as_vec(&self) -> (r: Vec<Fe>)
        ensures
            r@ == self@,
    {
        copy_coeffs(&self.coeffs)
    }

    /// The value at zero: the constant term.
    pub fn eval_at_zero(&self) -> (r: Fe)
        requires
            self@.len() >= 1,
            self.valid(),
        ensures
            r == self@[0],
            r.val == eval_poly(self@, 0),
    {
        proof {
            lemma_eval_at_zero_is_constant_term(self@);
        }
        self.coeffs[0]
    }

    /// The value at one: the field sum of all coefficients.
    pub fn eval_at_one(&self) -> (r: Fe)
        requires
            self.valid(),
        ensures
            r.val == coeff_sum(self@),
            r.val == eval_poly(self@, 1),
    {
        let mut acc = Fe::zero();
        let mut i: usize = 0;
        while i < self.coeffs.len()
            invariant
                0 <= i <= self.coeffs.len(),
                self.valid(),
                acc.valid(),
                acc.val == sum_prefix(self@, i as int),
            decreases self.coeffs.len() - i,
        {
            let prev = acc;
            acc = acc.add(self.coeffs[i]);
            proof {
                assert(acc.val == (prev.val + coeff(self@, i as int)) % (MODULUS as int));
            }
            i += 1;
        }
        proof {
            lemma_eval_at_one_is_coeff_sum(self@);
        }
        acc
    }

    /// Exact long division: quotient and remainder.
    ///
    /// The result is absent exactly when the divisor is the zero polynomial
    /// (and the dividend is not, which short-circuits to a zero result
    /// first).  Where long division actually runs, the divisor must carry a
    /// non-zero stored leading coefficient, as the quotient coefficients
    /// divide by it; in every other case any divisor is accepted.
    pub fn divide_with_q_and_r(&self, divisor: &UniPoly) -> (r: Option<(UniPoly, UniPoly)>)
        requires
            self.valid(),
            divisor.valid(),
            is_zero_poly(self@) || is_zero_poly(divisor@) || self@.len() < divisor@.len()
                || divisor@.last().val != 0,
        ensures
            r is None <==> (is_zero_poly(divisor@) && !is_zero_poly(self@)),
            r matches Some((q, rem)) ==> {
                &&& q.valid()
                &&& rem.valid()
                &&& division_invariant(self@, q@, divisor@, rem@)
                &&& (is_zero_poly(rem@) || rem@.len() < divisor@.len())
                &&& q@.len() == (if is_zero_poly(self@) || self@.len() < divisor@.len() {
                    0int
                } else {
                    self@.len() - divisor@.len() + 1
                })
                &&& (is_zero_poly(self@) ==> rem@.len() == 0)
                &&& (!is_zero_poly(self@) && self@.len() < divisor@.len() ==> rem@ == self@)
                &&& (!is_zero_poly(self@) && !is_zero_poly(divisor@) && self@.len()
                    >= divisor@.len() ==> (rem@.len() == 0 || rem@.last().val != 0))
            },
    {
        if self.is_zero() {
            let q = Self::zero();
            let rem = Self::zero();
            proof {
                lemma_conv_zero(q@, divisor@);
                assert forall|i: int|
                    congruent(coeff(self@, i), #[trigger] conv(q@, divisor@, i) + coeff(rem@, i))
                    by {
                    assert(coeff(self@, i) == 0);
                    lemma_cong_refl(0);
                }
            }
            Some((q, rem))
        } else if divisor.is_zero() {
            None
        } else if self.degree() < divisor.degree() {
            let q = Self::zero();
            let rem = UniPoly { coeffs: copy_coeffs(&self.coeffs) };
            proof {
                lemma_conv_zero(q@, divisor@);
                assert forall|i: int|
                    congruent(coeff(self@, i), #[trigger] conv(q@, divisor@, i) + coeff(rem@, i))
                    by {
                    lemma_cong_refl(coeff(self@, i));
                }
            }
            Some((q, rem))
        } else {
            let dl = divisor.coeffs.len();
            let k0 = self.coeffs.len() - dl;
            let mut quotient = zero_coeffs(k0 + 1);
            let mut rem = copy_coeffs(&self.coeffs);
            let dlead = match divisor.leading_coefficient() {
                Some(c) => c,
                None => vstd::pervasive::unreached(),
            };
            let dinv = match dlead.inverse() {
                Some(v) => v,
                None => {
                    proof {
                        assert(divisor@.last().val != 0);
                    }
                    vstd::pervasive::unreached()
                },
            };
            proof {
                lemma_conv_zero(quotient@, divisor@);
                assert forall|i: int|
                    congruent(
                        coeff(self@, i),
                        #[trigger] conv(quotient@, divisor@, i) + coeff(rem@, i),
                    ) by {
                    lemma_cong_refl(coeff(self@, i));
                }
            }
            loop
                invariant
                    dl == divisor@.len(),
                    dl >= 1,
                    self.valid(),
                    divisor.valid(),
                    quotient@.len() == k0 + 1,
                    self@.len() == k0 + dl,
                    seq_valid(quotient@),
                    seq_valid(rem@),
                    rem@.len() <= self@.len(),
                    division_invariant(self@, quotient@, divisor@, rem@),
                    dlead == divisor@.last(),
                    dlead.val != 0,
                    dinv.valid(),
                    (dlead.val * dinv.val) % (MODULUS as int) == 1,
                    forall|j: int|
                        0 <= j <= rem@.len() - (dl as int) ==> (#[trigger] quotient@[j]).val
                            == 0,
                    !is_zero_poly(self@),
                    rem@ == self@ || rem@.len() == 0 || rem@.last().val != 0,
                ensures
                    seq_valid(quotient@),
                    seq_valid(rem@),
                    quotient@.len() == k0 + 1,
                    division_invariant(self@, quotient@, divisor@, rem@),
                    is_zero_poly(rem@) || rem@.len() < dl,
                    rem@.len() == 0 || rem@.last().val != 0,
                decreases rem@.len(),
            {
                let rz = vec_is_zero(&rem);
                if rz || rem.len() < dl {
                    proof {
                        // the initial, possibly untrimmed remainder never
                        // reaches a break: it is non-zero and long enough
                        if rem@ == self@ {
                            assert(rem@.len() == k0 + dl);
                            assert(rz);
                            assert(false);
                        }
                    }
                    break;
                }
                let rl = rem.len();
                let k = rl - dl;
                let rlead = rem[rl - 1];
                let c = rlead.mul(dinv);
                let ghost q_before = quotient@;
                quotient.set(k, c);
                let ghost rem_before = rem@;
                subtract_scaled(&mut rem, c, &divisor.coeffs, k);
                proof {
                    lemma_division_step(
                        self@,
                        q_before,
                        quotient@,
                        divisor@,
                        rem_before,
                        rem@,
                        k as int,
                        c,
                    );
                    // the leading coefficient of the remainder is cancelled
                    // exactly, so the trim below must pop at least one entry
                    assert(coeff(rem_before, rl - 1) == rlead.val as int);
                    assert(coeff(divisor@, rl - 1 - k) == dlead.val as int);
                    lemma_leading_cancel(rlead, dlead, dinv, c, coeff(rem@, rl - 1));
                    assert(rem@.last().val == 0);
                }
                trim_trailing_zeros(&mut rem);
                proof {
                    assert forall|j: int|
                        0 <= j <= rem@.len() - (dl as int) implies (#[trigger] quotient@[j]).val
                            == 0 by {
                        assert(j < k);
                        assert(quotient@[j] == q_before[j]);
                    }
                }
            }
            let q = UniPoly::from_coeff(quotient);
            let rem_poly = UniPoly::from_coeff(rem);
            Some((q, rem_poly))
        }
    }

    /// Commit the polynomial into the transcript: a begin marker, then every
    /// coefficient in ascending-degree order as a labelled scalar, then an
    /// end marker.
    pub fn append_to_transcript(&self, label: &str, transcript: &mut Transcript)
        ensures
            final(transcript)@ == old(transcript)@ + seq![
                TranscriptEvent::Message { label: label@, body: "UniPoly_begin"@ },
            ] + Seq::new(
                self@.len(),
                |i: int| TranscriptEvent::Scalar { label: "coeff"@, value: self@[i] },
            ) + seq![TranscriptEvent::Message { label: label@, body: "UniPoly_end"@ }],
    {
        transcript.append_message(label, "UniPoly_begin");
        let mut i: usize = 0;
        while i < self.coeffs.len()
            invariant
                0 <= i <= self@.len(),
                transcript@ =~= old(transcript)@ + seq![
                    TranscriptEvent::Message { label: label@, body: "UniPoly_begin"@ },
                ] + Seq::new(
                    i as nat,
                    |t: int| TranscriptEvent::Scalar { label: "coeff"@, value: self@[t] },
                ),
            decreases self@.len() - i,
        {
            transcript.append_scalar("coeff", &self.coeffs[i]);
            proof {
                assert(transcript@ =~= old(transcript)@ + seq![
                    TranscriptEvent::Message { label: label@, body: "UniPoly_begin"@ },
                ] + Seq::new(
                    (i + 1) as nat,
                    |t: int| TranscriptEvent::Scalar { label: "coeff"@, value: self@[t] },
                ));
            }
            i += 1;
        }
        transcript.append_message(label, "UniPoly_end");
        proof {
            assert(transcript@ =~= old(transcript)@ + seq![
                TranscriptEvent::Message { label: label@, body: "UniPoly_begin"@ },
            ] + Seq::new(
                self@.len(),
                |t: int| TranscriptEvent::Scalar { label: "coeff"@, value: self@[t] },
            ) + seq![TranscriptEvent::Message { label: label@, body: "UniPoly_end"@ }]);
        }
    }

    /// Drop the linear coefficient: the compressed polynomial carries the
    /// constant term followed by the coefficients of degree two and higher.
    /// Compression needs at least two coefficients.
    pub fn compress(&self) -> (r: CompressedUniPoly)
        requires
            self@.len() >= 2,
        ensures
            r@ == compressed_of(self@),
            r@.len() == self@.len() - 1,
            self.valid() ==> r.valid(),
    {
        let mut out: Vec<Fe> = Vec::new();
        out.push(self.coeffs[0]);
        let mut i: usize = 2;
        while i < self.coeffs.len()
            invariant
                2 <= i <= self.coeffs.len(),
                self@.len() >= 2,
                out@ =~= seq![self@[0]] + self@.subrange(2, i as int),
            decreases self.coeffs.len() - i,
        {
            out.push(self.coeffs[i]);
            proof {
                assert(out@ =~= seq![self@[0]] + self@.subrange(2, i + 1));
            }
            i += 1;
        }
        proof {
            assert(out@ =~= compressed_of(self@));
        }
        CompressedUniPoly { coeffs_except_linear_term: out }
    }

    /// Horner-style evaluation at an arbitrary field point.
    pub fn evaluate(&self, r: &Fe) -> (eval: Fe)
        requires
            self@.len() >= 1,
            self.valid(),
            r.valid(),
        ensures
            eval.val == eval_poly(self@, r.val as int),
    {
        eval_coeffs(&self.coeffs, r)
    }
}

/// Horner-style evaluation of a coefficient vector at a field point.
fn eval_coeffs(v: &Vec<Fe>, r: &Fe) -> (eval: Fe)
    requires
        v@.len() >= 1,
        seq_valid(v@),
        r.valid(),
    ensures
        eval.val == eval_poly(v@, r.val as int),
{
    let ghost x = r.val as int;
    let mut eval = v[0];
    let mut power = *r;
    proof {
        lemma_small_mod(v@[0].val as nat, MODULUS as nat);
        lemma_small_mod(r.val as nat, MODULUS as nat);
        assert(eval_prefix(v@, x, 0) == 0);
        assert(pow_m(x, 0) == 1);
        assert(eval_prefix(v@, x, 1) == eval.val as int);
        assert(pow_m(x, 1) == power.val as int);
    }
    let mut i: usize = 1;
    while i < v.len()
        invariant
            1 <= i <= v.len(),
            v@.len() >= 1,
            seq_valid(v@),
            r.valid(),
            x == r.val as int,
            eval.valid(),
            power.valid(),
            eval.val as int == eval_prefix(v@, x, i as int),
            power.val as int == pow_m(x, i as nat),
        decreases v.len() - i,
    {
        let ghost e0 = eval.val as int;
        let ghost w = power.val as int;
        let ghost c = v@[i as int].val as int;
        let term = power.mul(v[i]);
        eval = eval.add(term);
        proof {
            // (e0 + (w*c) % m) % m == (e0 + w*c) % m, so the accumulator
            // tracks the evaluation prefix.
            lemma_cong_mod(w * c);
            lemma_cong_refl(e0);
            lemma_cong_add(e0, e0, (w * c) % (MODULUS as int), w * c);
            lemma_cong_mod_eq(e0 + (w * c) % (MODULUS as int), e0 + w * c);
            assert(eval.val as int == eval_prefix(v@, x, i + 1));
        }
        power = power.mul(*r);
        proof {
            assert(w * x == x * w) by (nonlinear_arith);
            assert(power.val as int == pow_m(x, (i + 1) as nat));
        }
        i += 1;
    }
    eval
}

/// A space-reduced polynomial encoding that omits the linear coefficient;
/// it is restored from the protocol hint `p(0) + p(1)` on decompression.
#[derive(Debug)]
pub struct CompressedUniPoly {
    coeffs_except_linear_term: Vec<Fe>,
}

impl View for CompressedUniPoly {
    type V = Seq<Fe>;

    closed spec fn view(&self) -> Seq<Fe> {
        self.coeffs_except_linear_term@
    }
}

impl CompressedUniPoly {
    /// Well-formedness: every stored coefficient is a canonical field
    /// element.
    pub open spec fn valid(&self) -> bool {
        seq_valid(self@)
    }

    /// Wrap a stored coefficient vector: the constant term followed by the
    /// coefficients of degree two and higher.
    pub fn from_coeffs_except_linear_term(coeffs: Vec<Fe>) -> (r: CompressedUniPoly)
        ensures
            r@ == coeffs@,
    {
        CompressedUniPoly { coeffs_except_linear_term: coeffs }
    }

    /// A copy of the stored coefficient vector.
    pub fn as_vec(&self) -> (r: Vec<Fe>)
        ensures
            r@ == self@,
    {
        copy_coeffs(&self.coeffs_except_linear_term)
    }

    /// Rebuild the dense polynomial.  The linear coefficient is recovered as
    /// `hint - 2*constant - (sum of the degree >= 2 coefficients)`, from the
    /// protocol identity `p(0) + p(1) == hint`.  The hint itself is trusted:
    /// a wrong hint yields a structurally valid but different polynomial,
    /// with the same constant and degree >= 2 coefficients.
    pub fn decompress(&self, hint: &Fe) -> (r: UniPoly)
        requires
            self@.len() >= 1,
            self.valid(),
            hint.valid(),
        ensures
            r@ == decompressed_of(self@, *hint),
            r@.len() == self@.len() + 1,
            r.valid(),
    {
        let c0 = self.coeffs_except_linear_term[0];
        let step1 = hint.sub(c0);
        let linear0 = step1.sub(c0);
        proof {
            lemma_cong_refl(c0.val as int);
            lemma_cong_sub(step1.val as int, hint.val - c0.val, c0.val as int, c0.val as int);
            lemma_cong_trans(
                linear0.val as int,
                step1.val - c0.val,
                hint.val - c0.val - c0.val,
            );
            assert(tail_sum(self@, 1) - tail_sum(self@, 1) == 0);
        }
        let mut linear = linear0;
        let mut i: usize = 1;
        while i < self.coeffs_except_linear_term.len()
            invariant
                1 <= i <= self@.len(),
                self.valid(),
                hint.valid(),
                linear.valid(),
                congruent(
                    linear.val as int,
                    hint.val - 2 * coeff(self@, 0) - (tail_sum(self@, 1) - tail_sum(
                        self@,
                        i as int,
                    )),
                ),
            decreases self@.len() - i,
        {
            let ghost lin_before = linear.val as int;
            let ci = self.coeffs_except_linear_term[i];
            linear = linear.sub(ci);
            proof {
                assert(tail_sum(self@, i as int) == coeff(self@, i as int) + tail_sum(
                    self@,
                    i + 1,
                ));
                lemma_cong_refl(ci.val as int);
                lemma_cong_sub(
                    lin_before,
                    hint.val - 2 * coeff(self@, 0) - (tail_sum(self@, 1) - tail_sum(
                        self@,
                        i as int,
                    )),
                    ci.val as int,
                    ci.val as int,
                );
                lemma_cong_trans(
                    linear.val as int,
                    lin_before - ci.val,
                    hint.val - 2 * coeff(self@, 0) - (tail_sum(self@, 1) - tail_sum(
                        self@,
                        i + 1,
                    )),
                );
            }
            i += 1;
        }
        proof {
            assert(tail_sum(self@, self@.len() as int) == 0);
            lemma_cong_canon(
                linear.val as int,
                hint.val - 2 * coeff(self@, 0) - tail_sum(self@, 1),
            );
            assert(linear.val as int == linear_of(self@, *hint));
        }
        let mut coeffs: Vec<Fe> = Vec::new();
        coeffs.push(c0);
        coeffs.push(linear);
        let mut i: usize = 1;
        while i < self.coeffs_except_linear_term.len()
            invariant
                1 <= i <= self@.len(),
                self.valid(),
                linear.valid(),
                coeffs@ =~= seq![self@[0], linear] + self@.subrange(1, i as int),
            decreases self@.len() - i,
        {
            coeffs.push(self.coeffs_except_linear_term[i]);
            proof {
                assert(coeffs@ =~= seq![self@[0], linear] + self@.subrange(1, i + 1));
            }
            i += 1;
        }
        proof {
            assert(Fe { val: linear_of(self@, *hint) as u64 } == linear);
            assert(coeffs@ =~= decompressed_of(self@, *hint));
        }
        UniPoly { coeffs }
    }
}

/// A vector of zero coefficients.
fn zero_coeffs(n: usize) -> (r: Vec<Fe>)
    ensures
        r@.len() == n,
        forall|i: int| 0 <= i < n ==> (#[trigger] r@[i]).val == 0,
        seq_valid(r@),
{
    let mut r: Vec<Fe> = Vec::new();
    let mut i: usize = 0;
    while i < n
        invariant
            0 <= i <= n,
            r@.len() == i,
            forall|j: int| 0 <= j < i ==> (#[trigger] r@[j]).val == 0,
        decreases n - i,
    {
        r.push(Fe { val: 0 });
        i += 1;
    }
    r
}

/// Whether every coefficient of the vector is zero.
fn vec_is_zero(v: &Vec<Fe>) -> (r: bool)
    ensures
        r == is_zero_poly(v@),
{
    let mut i: usize = 0;
    while i < v.len()
        invariant
            0 <= i <= v.len(),
            forall|j: int| 0 <= j < i ==> (#[trigger] v@[j]).val == 0,
        decreases v.len() - i,
    {
        if v[i].val != 0 {
            return false;
        }
        i += 1;
    }
    true
}

/// Strip trailing zero coefficients; the infinite coefficient view is
/// unchanged.
fn trim_trailing_zeros(v: &mut Vec<Fe>)
    ensures
        final(v)@.len() <= old(v)@.len(),
        forall|i: int| #[trigger] coeff(final(v)@, i) == coeff(old(v)@, i),
        final(v)@.len() > 0 ==> final(v)@.last().val != 0,
        old(v)@.len() > 0 && old(v)@.last().val == 0 ==> final(v)@.len() < old(v)@.len(),
        seq_valid(old(v)@) ==> seq_valid(final(v)@),
{
    while v.len() > 0 && v[v.len() - 1].val == 0
        invariant
            v@.len() <= old(v)@.len(),
            forall|i: int| #[trigger] coeff(v@, i) == coeff(old(v)@, i),
            seq_valid(old(v)@) ==> seq_valid(v@),
            old(v)@.len() > 0 && old(v)@.last().val == 0 && v@.len() == old(v)@.len() ==> v@.len()
                > 0 && v@.last().val == 0,
        decreases v.len(),
    {
        let ghost before = v@;
        v.pop();
        proof {
            assert(v@ =~= before.drop_last());
            assert forall|i: int| #[trigger] coeff(v@, i) == coeff(before, i) by {
                if i == before.len() - 1 {
                    assert(coeff(before, i) == 0);
                }
            }
        }
    }
}

/// Subtract `c` times the divisor, shifted up by `k`, from the remainder.
fn subtract_scaled(rem: &mut Vec<Fe>, c: Fe, d: &Vec<Fe>, k: usize)
    requires
        seq_valid(old(rem)@),
        c.valid(),
        seq_valid(d@),
        k + d@.len() == old(rem)@.len(),
    ensures
        final(rem)@.len() == old(rem)@.len(),
        seq_valid(final(rem)@),
        forall|i: int|
            congruent(
                #[trigger] coeff(final(rem)@, i),
                coeff(old(rem)@, i) - (c.val as int) * coeff(d@, i - k),
            ),
{
    let mut j: usize = 0;
    while j < d.len()
        invariant
            0 <= j <= d@.len(),
            k + d@.len() == rem@.len(),
            rem@.len() == old(rem)@.len(),
            c.valid(),
            seq_valid(d@),
            seq_valid(rem@),
            forall|i: int|
                k <= i < k + j ==> congruent(
                    #[trigger] coeff(rem@, i),
                    coeff(old(rem)@, i) - (c.val as int) * coeff(d@, i - k),
                ),
            forall|i: int| !(k <= i < k + j) ==> #[trigger] coeff(rem@, i) == coeff(old(rem)@, i),
        decreases d@.len() - j,
    {
        let n = rem.len();
        proof {
            assert(k + j < n);
        }
        let idx = k + j;
        let scaled = c.mul(d[j]);
        let t = rem[idx].sub(scaled);
        let ghost prev = rem@;
        rem.set(idx, t);
        proof {
            let m = MODULUS as int;
            let ci = idx as int;
            assert(coeff(prev, ci) == coeff(old(rem)@, ci));
            // t is congruent to the old coefficient minus c times the divisor
            // coefficient.
            lemma_cong_refl(coeff(old(rem)@, ci));
            lemma_cong_sub(
                coeff(old(rem)@, ci),
                coeff(old(rem)@, ci),
                scaled.val as int,
                (c.val as int) * (d@[j as int].val as int),
            );
            lemma_cong_trans(
                t.val as int,
                coeff(old(rem)@, ci) - scaled.val,
                coeff(old(rem)@, ci) - (c.val as int) * (d@[j as int].val as int),
            );
            assert(coeff(d@, ci - k) == d@[j as int].val as int);
            assert forall|i: int|
                k <= i < k + j + 1 implies congruent(
                    #[trigger] coeff(rem@, i),
                    coeff(old(rem)@, i) - (c.val as int) * coeff(d@, i - k),
                ) by {
                if i == ci {
                    assert(coeff(rem@, i) == t.val as int);
                } else {
                    assert(coeff(rem@, i) == coeff(prev, i));
                }
            }
            assert forall|i: int|
                !(k <= i < k + j + 1) implies #[trigger] coeff(rem@, i) == coeff(
                    old(rem)@,
                    i,
                ) by {
                assert(coeff(rem@, i) == coeff(prev, i));
            }
        }
        j += 1;
    }
}

/// Add `c` times the source to the target, element by element.
fn add_scaled(target: &mut Vec<Fe>, c: Fe, source: &Vec<Fe>)
    requires
        seq_valid(old(target)@),
        c.valid(),
        seq_valid(source@),
        old(target)@.len() == source@.len(),
    ensures
        final(target)@.len() == old(target)@.len(),
        seq_valid(final(target)@),
        forall|i: int|
            congruent(
                #[trigger] coeff(final(target)@, i),
                coeff(old(target)@, i) + (c.val as int) * coeff(source@, i),
            ),
{
    let mut j: usize = 0;
    while j < source.len()
        invariant
            0 <= j <= source@.len(),
            target@.len() == source@.len(),
            target@.len() == old(target)@.len(),
            c.valid(),
            seq_valid(source@),
            seq_valid(target@),
            forall|i: int|
                0 <= i < j ==> congruent(
                    #[trigger] coeff(target@, i),
                    coeff(old(target)@, i) + (c.val as int) * coeff(source@, i),
                ),
            forall|i: int|
                !(0 <= i < j) ==> #[trigger] coeff(target@, i) == coeff(old(target)@, i),
        decreases source@.len() - j,
    {
        let scaled = c.mul(source[j]);
        let t = target[j].add(scaled);
        let ghost prev = target@;
        target.set(j, t);
        proof {
            let ci = j as int;
            assert(coeff(prev, ci) == coeff(old(target)@, ci));
            lemma_cong_refl(coeff(old(target)@, ci));
            lemma_cong_add(
                coeff(old(target)@, ci),
                coeff(old(target)@, ci),
                scaled.val as int,
                (c.val as int) * (source@[ci].val as int),
            );
            lemma_cong_trans(
                t.val as int,
                coeff(old(target)@, ci) + scaled.val,
                coeff(old(target)@, ci) + (c.val as int) * (source@[ci].val as int),
            );
            assert(coeff(source@, ci) == source@[ci].val as int);
            assert forall|i: int|
                0 <= i < j + 1 implies congruent(
                    #[trigger] coeff(target@, i),
                    coeff(old(target)@, i) + (c.val as int) * coeff(source@, i),
                ) by {
                if i == ci {
                    assert(coeff(target@, i) == t.val as int);
                } else {
                    assert(coeff(target@, i) == coeff(prev, i));
                }
            }
            assert forall|i: int|
                !(0 <= i < j + 1) implies #[trigger] coeff(target@, i) == coeff(
                    old(target)@,
                    i,
                ) by {
                assert(coeff(target@, i) == coeff(prev, i));
            }
        }
        j += 1;
    }
    proof {
        assert forall|i: int|
            congruent(
                #[trigger] coeff(target@, i),
                coeff(old(target)@, i) + (c.val as int) * coeff(source@, i),
            ) by {
            if !(0 <= i < source@.len()) {
                assert(coeff(source@, i) == 0);
                assert(coeff(target@, i) == coeff(old(target)@, i));
                lemma_cong_refl(coeff(target@, i));
            }
        }
    }
}

/// Shift every coefficient one degree up: multiply by the indeterminate.
fn shift_up(source: &Vec<Fe>) -> (r: Vec<Fe>)
    requires
        seq_valid(source@),
        source@.len() < usize::MAX,
    ensures
        r@.len() == source@.len() + 1,
        seq_valid(r@),
        forall|i: int| #[trigger] coeff(r@, i) == coeff(source@, i - 1),
{
    let mut r: Vec<Fe> = Vec::new();
    r.push(Fe::zero());
    let mut j: usize = 0;
    while j < source.len()
        invariant
            0 <= j <= source@.len(),
            seq_valid(source@),
            r@.len() == j + 1,
            seq_valid(r@),
            r@[0].val == 0,
            forall|i: int| 1 <= i < j + 1 ==> #[trigger] r@[i] == source@[i - 1],
        decreases source@.len() - j,
    {
        r.push(source[j]);
        j += 1;
    }
    proof {
        assert forall|i: int| #[trigger] coeff(r@, i) == coeff(source@, i - 1) by {
            if i == 0 {
                assert(coeff(r@, 0) == 0);
            } else if 1 <= i < r@.len() {
                assert(r@[i] == source@[i - 1]);
            }
        }
    }
    r
}

/// The unique interpolant through the canonical points, built point by
/// point: at step `k` the current polynomial already matches the first `k`
/// evaluations, and a multiple of the basis `(x-0)(x-1)...(x-(k-1))` --
/// which vanishes at every earlier point and nowhere later in the field --
/// fixes the value at `k` without disturbing them.  Total for any
/// `n <= MODULUS`.
fn newton_interpolation(evals: &Vec<Fe>) -> (r: Vec<Fe>)
    requires
        seq_valid(evals@),
        1 <= evals@.len() <= MODULUS,
    ensures
        r@.len() == evals@.len(),
        seq_valid(r@),
        forall|i: int| 0 <= i < evals@.len() ==> eval_poly(r@, i) == (#[trigger] evals@[i]).val,
{
    let n = evals.len();
    let mut p: Vec<Fe> = Vec::new();
    p.push(evals[0]);
    let mut basis: Vec<Fe> = Vec::new();
    basis.push(Fe::zero());
    basis.push(Fe::one());
    proof {
        let m = MODULUS as int;
        assert forall|t: int| 0 <= t < 1 implies eval_poly(p@, t) == (#[trigger] evals@[t]).val
            by {
            assert(eval_prefix(p@, t, 0) == 0);
            assert(pow_m(t, 0) == 1);
            lemma_small_mod(evals@[0].val as nat, MODULUS as nat);
        }
        assert forall|t: int| 0 <= t < MODULUS implies #[trigger] eval_poly(basis@, t) == t % m
            by {
            assert(eval_prefix(basis@, t, 0) == 0);
            assert(pow_m(t, 0) == 1);
            assert(eval_prefix(basis@, t, 1) == 0int % m);
            lemma_small_mod(0, MODULUS as nat);
            assert(pow_m(t, 1) == t % m);
            lemma_mod_bound(t, m);
            lemma_small_mod((t % m) as nat, MODULUS as nat);
        }
        assert forall|t: int| 0 <= t < MODULUS implies #[trigger] eval_poly(basis@, t) == t by {
            lemma_small_mod(t as nat, MODULUS as nat);
        }
    }
    let mut k: usize = 1;
    while k < n
        invariant
            1 <= k <= n,
            n == evals@.len(),
            n <= MODULUS,
            seq_valid(evals@),
            p@.len() == k,
            seq_valid(p@),
            basis@.len() == k + 1,
            seq_valid(basis@),
            forall|t: int| 0 <= t < k ==> eval_poly(p@, t) == (#[trigger] evals@[t]).val,
            forall|t: int| 0 <= t < k ==> #[trigger] eval_poly(basis@, t) == 0,
            forall|t: int| k <= t < MODULUS ==> #[trigger] eval_poly(basis@, t) != 0,
        decreases n - k,
    {
        let xk = match Fe::from_u64(k as u64) {
            Some(v) => v,
            None => vstd::pervasive::unreached(),
        };
        let e = eval_coeffs(&p, &xk);
        let w = eval_coeffs(&basis, &xk);
        proof {
            lemma_eval_prefix_bound(basis@, k as int, (k + 1) as int);
        }
        let winv = match w.inverse() {
            Some(v) => v,
            None => vstd::pervasive::unreached(),
        };
        let diff = evals[k].sub(e);
        let c = diff.mul(winv);
        let ghost p_before = p@;
        p.push(Fe::zero());
        let ghost p_padded = p@;
        add_scaled(&mut p, c, &basis);
        proof {
            let m = MODULUS as int;
            let cv = c.val as int;
            assert forall|t: int|
                0 <= t < k + 1 implies eval_poly(p@, t) == (#[trigger] evals@[t]).val by {
                lemma_eval_push_zero(p_before, Fe { val: 0 }, t);
                lemma_eval_prefix_add_scaled(p@, p_padded, basis@, c, t, (k + 1) as int);
                lemma_eval_prefix_bound(p@, t, (k + 1) as int);
                if t < k {
                    // the basis vanishes here, so the value is untouched
                    assert(eval_poly(basis@, t) == 0);
                    assert(cv * 0 == 0);
                    lemma_cong_small(eval_poly(p@, t), evals@[t].val as int);
                } else {
                    // at the new point the correction lands exactly
                    let ev = e.val as int;
                    let wv = w.val as int;
                    let wi = winv.val as int;
                    let dv = diff.val as int;
                    let yk = evals@[t].val as int;
                    // c * w is congruent to diff: the inverse cancels
                    lemma_cong_mod(dv * wi);
                    lemma_cong_refl(wv);
                    lemma_cong_mul(cv, dv * wi, wv, wv);
                    assert((dv * wi) * wv == dv * (wv * wi)) by (nonlinear_arith);
                    lemma_cong_mod(wv * wi);
                    lemma_cong_sym((wv * wi) % m, wv * wi);
                    lemma_cong_refl(dv);
                    lemma_cong_mul(dv, dv, wv * wi, 1);
                    lemma_cong_trans(cv * wv, dv * (wv * wi), dv * 1);
                    // diff is congruent to yk - ev
                    lemma_cong_refl(ev);
                    lemma_cong_add(ev, ev, cv * wv, dv);
                    lemma_cong_trans(
                        eval_poly(p@, t),
                        ev + cv * wv,
                        ev + dv,
                    );
                    lemma_cong_refl(ev);
                    lemma_cong_add(ev, ev, dv, yk - ev);
                    lemma_cong_trans(eval_poly(p@, t), ev + dv, ev + (yk - ev));
                    lemma_cong_small(eval_poly(p@, t), yk);
                }
            }
        }
        let shifted = shift_up(&basis);
        let mut padded = copy_coeffs(&basis);
        padded.push(Fe::zero());
        let nega = Fe::zero().sub(xk);
        let ghost basis_before = basis@;
        let mut new_basis = shifted;
        add_scaled(&mut new_basis, nega, &padded);
        proof {
            let m = MODULUS as int;
            assert forall|i: int| #[trigger] coeff(padded@, i) == coeff(basis_before, i) by {
                if i == basis_before.len() {
                    assert(coeff(padded@, i) == 0);
                }
            }
            assert forall|t: int|
                0 <= t < MODULUS implies congruent(
                    #[trigger] eval_poly(new_basis@, t),
                    (t - k) * eval_poly(basis_before, t),
                ) by {
                lemma_eval_mul_linear(
                    new_basis@,
                    shifted@,
                    padded@,
                    basis_before,
                    nega,
                    xk,
                    t,
                );
            }
            assert forall|t: int|
                0 <= t < k + 1 implies #[trigger] eval_poly(new_basis@, t) == 0 by {
                lemma_eval_prefix_bound(new_basis@, t, new_basis@.len() as int);
                if t < k {
                    assert(eval_poly(basis_before, t) == 0);
                    assert((t - k) * eval_poly(basis_before, t) == 0);
                } else {
                    assert(t == k);
                    assert((t - k) * eval_poly(basis_before, t) == 0) by (nonlinear_arith)
                        requires
                            t == k,
                    ;
                }
                lemma_cong_small(eval_poly(new_basis@, t), 0);
            }
            assert forall|t: int|
                k + 1 <= t < MODULUS implies #[trigger] eval_poly(new_basis@, t) != 0 by {
                lemma_eval_prefix_bound(new_basis@, t, new_basis@.len() as int);
                lemma_eval_prefix_bound(basis_before, t, basis_before.len() as int);
                let f = t - k;
                let ev = eval_poly(basis_before, t);
                assert(ev != 0);
                crate::field::lemma_nonzero_product(f, ev);
                lemma_cong_canon(eval_poly(new_basis@, t), f * ev);
            }
        }
        basis = new_basis;
        k += 1;
    }
    p
}

/// Element-wise copy of a coefficient vector.
fn copy_coeffs(v: &Vec<Fe>) -> (r: Vec<Fe>)
    ensures
        r@ == v@,
{
    let mut r: Vec<Fe> = Vec::new();
    let mut i: usize = 0;
    while i < v.len()
        invariant
            0 <= i <= v.len(),
            r@ == v@.subrange(0, i as int),
        decreases v.len() - i,
    {
        r.push(v[i]);
        proof {
            assert(r@ =~= v@.subrange(0, i + 1));
        }
        i += 1;
    }
    proof {
        assert(r@ =~= v@);
    }
    r
}

} // verus!
