//! The diagonal: its check before a column is reduced, and the diagonal
//! pass of a solve.

use crate::arith::{answers, deterministic, Operation};
use crate::binary64::{finite, is_finite, le, le_spec};
use crate::error::LaError;
use crate::matrix::Matrix;
use vstd::prelude::*;

verus! {

/// What the check of the diagonal entry of column `j` must answer: an
/// entry that is not finite is reported before it is compared; a finite
/// entry at or below `tol` is singular, there being no row exchange to
/// recover with.
pub open spec fn diagonal_failure<const D: usize>(m: Matrix<D>, j: int, tol: u64) -> Option<
    LaError,
> {
    if !finite(m.at(j, j)) {
        Some(LaError::NonFinite { pivot_col: j as usize })
    } else if le_spec(m.at(j, j), tol) {
        Some(LaError::Singular { pivot_col: j as usize })
    } else {
        None
    }
}

/// Examine the diagonal entry of column `j`: fails exactly as
/// `diagonal_failure` says, and otherwise returns the entry.
pub fn check_diagonal<const D: usize>(m: &Matrix<D>, j: usize, tol: u64) -> (r: Result<
    u64,
    LaError,
>)
    requires
        j < D,
    ensures
        match r {
            Ok(d) => diagonal_failure(*m, j as int, tol) is None && d == m.at(j as int, j as int),
            Err(e) => diagonal_failure(*m, j as int, tol) == Some(e),
        },
{
    let d: u64 = m.rows[j][j];
    if !is_finite(d) {
        return Err(LaError::NonFinite { pivot_col: j });
    }
    if le(d, tol) {
        return Err(LaError::Singular { pivot_col: j });
    }
    Ok(d)
}

/// The failure that the first diagonal entry alone decides, before any
/// arithmetic has been done.
pub open spec fn first_check<const D: usize>(a: Matrix<D>, tol: u64) -> Option<LaError> {
    if D == 0 {
        None
    } else {
        diagonal_failure(a, 0, tol)
    }
}

/// A first diagonal entry that is not finite decides the factorization
/// whatever the tolerance: `NonFinite` at column 0, before any comparison.
pub proof fn lemma_first_diagonal_not_finite<const D: usize>(a: Matrix<D>, tol: u64)
    requires
        D > 0,
        !finite(a.at(0, 0)),
    ensures
        first_check(a, tol) == Some(LaError::NonFinite { pivot_col: 0 }),
{
}

/// Rows `0..n` of `D z = y` are solved, D being the diagonal of `m`: `z[i]`
/// is a finite quotient of `y[i]` by `m[i][i]`.
pub open spec fn diagonal_solved<F: Fn(Operation) -> u64, const D: usize>(
    ops: &F,
    m: Matrix<D>,
    y: Seq<u64>,
    z: Seq<u64>,
    n: int,
) -> bool {
    forall|i: int|
        0 <= i < n ==> finite(#[trigger] z[i]) && answers(
            ops,
            Operation::Quotient(y[i], m.at(i, i)),
            z[i],
        )
}

/// The diagonal pass stops at row `i`: the rows above are solved, and a
/// quotient of `y[i]` by `m[i][i]` is not finite.
pub open spec fn diagonal_stops<F: Fn(Operation) -> u64, const D: usize>(
    ops: &F,
    m: Matrix<D>,
    y: Seq<u64>,
    i: int,
) -> bool {
    exists|z: Seq<u64>, q: u64|
        {
            &&& #[trigger] diagonal_solved(ops, m, y, z, i)
            &&& #[trigger] answers(ops, Operation::Quotient(y[i], m.at(i, i)), q)
            &&& !finite(q)
        }
}

/// With a unit that gives one result per operation, the diagonal pass has
/// one solution: two solutions of the first `n` rows, from right-hand sides
/// that agree, agree there.
pub proof fn lemma_diagonal_unique<F: Fn(Operation) -> u64, const D: usize>(
    ops: &F,
    m: Matrix<D>,
    y1: Seq<u64>,
    y2: Seq<u64>,
    z1: Seq<u64>,
    z2: Seq<u64>,
    n: int,
)
    requires
        deterministic(ops),
        0 <= n <= D,
        forall|i: int| 0 <= i < D ==> y1[i] == y2[i],
        diagonal_solved(ops, m, y1, z1, n),
        diagonal_solved(ops, m, y2, z2, n),
    ensures
        forall|i: int| 0 <= i < n ==> z1[i] == z2[i],
{
    assert forall|i: int| 0 <= i < n implies z1[i] == z2[i] by {
        assert(finite(z1[i]) && finite(z2[i]));
    }
}

/// With a unit that gives one result per operation, a diagonal pass that
/// solves the first `n` rows stops at none of them.
pub proof fn lemma_diagonal_excludes<F: Fn(Operation) -> u64, const D: usize>(
    ops: &F,
    m: Matrix<D>,
    y: Seq<u64>,
    other: Seq<u64>,
    z: Seq<u64>,
    n: int,
    i: int,
)
    requires
        deterministic(ops),
        0 <= i < n <= D,
        forall|r: int| 0 <= r < D ==> y[r] == other[r],
        diagonal_solved(ops, m, y, z, n),
    ensures
        !diagonal_stops(ops, m, other, i),
{
    assert(finite(z[i]));
}

} // verus!
