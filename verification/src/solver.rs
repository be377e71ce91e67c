//! A linear-system solver: Gauss-Jordan elimination over the coefficient
//! field, on an augmented matrix.
//!
//! The solver is deliberately modest about what it promises: it returns a
//! well-formed candidate solution (or nothing, when no non-zero pivot can be
//! found), and the interpolator validates the candidate by substituting it
//! back into the system.  Correctness of the interpolated polynomial
//! therefore never rests on the elimination itself.

use vstd::prelude::*;
use crate::field::{seq_valid, Fe};

verus! {

/// Every row has the expected width and canonical entries.
pub open spec fn matrix_wf(m: Seq<Vec<Fe>>, cols: nat) -> bool {
    forall|i: int| 0 <= i < m.len() ==> (#[trigger] m[i])@.len() == cols && seq_valid(m[i]@)
}

/// Element-wise copy of a row.
fn copy_row(v: &Vec<Fe>) -> (r: Vec<Fe>)
    ensures
        r@ == v@,
{
    let mut r: Vec<Fe> = Vec::new();
    let mut i: usize = 0;
    while i < v.len()
        invariant
            0 <= i <= v.len(),
            r@ == v@.subrange(0, i as int),
        decreases v.len() - i,
    {
        r.push(v[i]);
        proof {
            assert(r@ =~= v@.subrange(0, i + 1));
        }
        i += 1;
    }
    proof {
        assert(r@ =~= v@);
    }
    r
}

/// `target - factor * source`, element by element.
fn row_axpy(target: &Vec<Fe>, factor: Fe, source: &Vec<Fe>) -> (r: Vec<Fe>)
    requires
        target@.len() == source@.len(),
        seq_valid(target@),
        seq_valid(source@),
        factor.valid(),
    ensures
        r@.len() == target@.len(),
        seq_valid(r@),
{
    let mut r: Vec<Fe> = Vec::new();
    let mut i: usize = 0;
    while i < target.len()
        invariant
            0 <= i <= target@.len(),
            target@.len() == source@.len(),
            seq_valid(target@),
            seq_valid(source@),
            factor.valid(),
            r@.len() == i,
            seq_valid(r@),
        decreases target@.len() - i,
    {
        r.push(target[i].sub(factor.mul(source[i])));
        i += 1;
    }
    r
}

/// `factor * row`, element by element.
fn scale_row(row: &Vec<Fe>, factor: Fe) -> (r: Vec<Fe>)
    requires
        seq_valid(row@),
        factor.valid(),
    ensures
        r@.len() == row@.len(),
        seq_valid(r@),
{
    let mut r: Vec<Fe> = Vec::new();
    let mut i: usize = 0;
    while i < row.len()
        invariant
            0 <= i <= row@.len(),
            seq_valid(row@),
            factor.valid(),
            r@.len() == i,
            seq_valid(r@),
        decreases row@.len() - i,
    {
        r.push(row[i].mul(factor));
        i += 1;
    }
    r
}

/// Gauss-Jordan elimination on an augmented matrix of `n` rows and `n + 1`
/// columns.  On success the candidate solution vector is read off the last
/// column; the result is absent when some pivot column holds only zeros.
pub fn gaussian_elimination(m: &mut Vec<Vec<Fe>>) -> (r: Option<Vec<Fe>>)
    requires
        old(m)@.len() < usize::MAX,
        matrix_wf(old(m)@, (old(m)@.len() + 1) as nat),
    ensures
        r matches Some(x) ==> x@.len() == old(m)@.len() && seq_valid(x@),
{
    let n = m.len();
    let mut k: usize = 0;
    while k < n
        invariant
            0 <= k <= n,
            n < usize::MAX,
            m@.len() == n,
            matrix_wf(m@, (n + 1) as nat),
        decreases n - k,
    {
        // find a row with a non-zero entry in the pivot column
        let mut piv: usize = n;
        let mut i = k;
        while i < n
            invariant
                k <= i <= n,
                m@.len() == n,
                matrix_wf(m@, (n + 1) as nat),
                k < n,
                piv == n || (k <= piv < n && m@[piv as int]@[k as int].val != 0),
            decreases n - i,
        {
            if piv == n && m[i][k].val != 0 {
                piv = i;
            }
            i += 1;
        }
        if piv == n {
            return None;
        }
        // move the pivot row into place
        if piv != k {
            let rowp = copy_row(&m[piv]);
            let rowk = copy_row(&m[k]);
            let ghost before = m@;
            m.set(piv, rowk);
            m.set(k, rowp);
            proof {
                assert forall|t: int|
                    0 <= t < m@.len() implies (#[trigger] m@[t])@.len() == n + 1 && seq_valid(
                    m@[t]@,
                ) by {
                    assert(m@[t]@ == before[t]@ || m@[t]@ == rowp@ || m@[t]@ == rowk@);
                }
            }
        }
        proof {
            assert(m@[k as int]@[k as int].val != 0);
        }
        // normalize the pivot row
        let pivot = m[k][k];
        let pinv = match pivot.inverse() {
            Some(v) => v,
            None => {
                proof {
                    assert(pivot.val != 0);
                }
                vstd::pervasive::unreached()
            },
        };
        let newk = scale_row(&m[k], pinv);
        let ghost before_scale = m@;
        m.set(k, newk);
        proof {
            assert forall|t: int|
                0 <= t < m@.len() implies (#[trigger] m@[t])@.len() == n + 1 && seq_valid(m@[t]@)
                by {
                assert(m@[t]@ == before_scale[t]@ || m@[t]@ == newk@);
            }
        }
        // clear the pivot column everywhere else
        let mut rix: usize = 0;
        while rix < n
            invariant
                0 <= rix <= n,
                k < n,
                m@.len() == n,
                matrix_wf(m@, (n + 1) as nat),
            decreases n - rix,
        {
            if rix != k {
                let f = m[rix][k];
                let newr = row_axpy(&m[rix], f, &m[k]);
                let ghost before_row = m@;
                m.set(rix, newr);
                proof {
                    assert forall|t: int|
                        0 <= t < m@.len() implies (#[trigger] m@[t])@.len() == n + 1
                        && seq_valid(m@[t]@) by {
                        assert(m@[t]@ == before_row[t]@ || m@[t]@ == newr@);
                    }
                }
            }
            rix += 1;
        }
        k += 1;
    }
    // the solution candidate is the augmented column
    let mut x: Vec<Fe> = Vec::new();
    let mut j: usize = 0;
    while j < n
        invariant
            0 <= j <= n,
            m@.len() == n,
            matrix_wf(m@, (n + 1) as nat),
            x@.len() == j,
            seq_valid(x@),
        decreases n - j,
    {
        x.push(m[j][n]);
        j += 1;
    }
    Some(x)
}

} // verus!
