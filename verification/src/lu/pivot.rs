//! The pivot search of one column.

use crate::binary64::{abs, finite, gt, is_finite, le, le_spec, magnitude};
use crate::error::LaError;
use crate::matrix::Matrix;
use vstd::prelude::*;

verus! {

/// Every entry of column `k` from the diagonal down is finite.
pub open spec fn column_finite<const D: usize>(m: Matrix<D>, k: int) -> bool {
    forall|i: int| k <= i < D ==> finite(#[trigger] m.at(i, k))
}

/// No entry of column `k` from the diagonal down has a magnitude above `tol`.
pub open spec fn column_small<const D: usize>(m: Matrix<D>, k: int, tol: u64) -> bool {
    forall|i: int| k <= i < D ==> le_spec(magnitude(#[trigger] m.at(i, k)), tol)
}

/// Row `p` holds the pivot of column `k`: the entry of largest magnitude
/// from the diagonal down, and of the rows that reach that magnitude the
/// topmost.
pub open spec fn is_pivot_row<const D: usize>(m: Matrix<D>, k: int, p: int) -> bool {
    &&& k <= p < D
    &&& forall|i: int| k <= i < D ==> magnitude(#[trigger] m.at(i, k)) <= magnitude(m.at(p, k))
    &&& forall|i: int| k <= i < p ==> magnitude(#[trigger] m.at(i, k)) < magnitude(m.at(p, k))
}

/// What the pivot search of column `k` must answer.
///
/// A non-finite entry anywhere in the scanned part of the column is reported
/// before any magnitude is trusted; a column whose magnitudes all stay
/// within `tol` is singular; otherwise the search succeeds.
pub open spec fn pivot_failure<const D: usize>(m: Matrix<D>, k: int, tol: u64) -> Option<
    LaError,
> {
    if !column_finite(m, k) {
        Some(LaError::NonFinite { pivot_col: k as usize })
    } else if column_small(m, k, tol) {
        Some(LaError::Singular { pivot_col: k as usize })
    } else {
        None
    }
}

/// Partial pivoting for column `k`: scan rows `k..D` of that column.
///
/// Fails exactly as `pivot_failure` says; otherwise returns the pivot row,
/// whose entry is finite and exceeds `tol` in magnitude.
pub fn select_pivot<const D: usize>(m: &Matrix<D>, k: usize, tol: u64) -> (r: Result<
    usize,
    LaError,
>)
    requires
        k < D,
    ensures
        match r {
            Ok(p) => pivot_failure(*m, k as int, tol) is None && is_pivot_row(
                *m,
                k as int,
                p as int,
            ) && !le_spec(magnitude(m.at(p as int, k as int)), tol),
            Err(e) => pivot_failure(*m, k as int, tol) == Some(e),
        },
{
    let mut pivot_row: usize = k;
    let mut pivot_abs: u64 = abs(m.rows[k][k]);
    if !is_finite(pivot_abs) {
        assert(!finite(m.at(k as int, k as int)));
        return Err(LaError::NonFinite { pivot_col: k });
    }
    let mut r: usize = k + 1;
    while r < D
        invariant
            k < r <= D,
            k <= pivot_row < r,
            pivot_abs == magnitude(m.at(pivot_row as int, k as int)),
            forall|i: int| k <= i < r ==> finite(#[trigger] m.at(i, k as int)),
            forall|i: int| k <= i < r ==> magnitude(#[trigger] m.at(i, k as int)) <= pivot_abs,
            forall|i: int|
                k <= i < pivot_row ==> magnitude(#[trigger] m.at(i, k as int)) < pivot_abs,
        decreases D - r,
    {
        let v: u64 = abs(m.rows[r][k]);
        if !is_finite(v) {
            assert(!finite(m.at(r as int, k as int)));
            return Err(LaError::NonFinite { pivot_col: k });
        }
        if gt(v, pivot_abs) {
            pivot_abs = v;
            pivot_row = r;
        }
        r += 1;
    }
    if le(pivot_abs, tol) {
        assert(column_small(*m, k as int, tol)) by {
            assert forall|i: int| k <= i < D implies le_spec(
                magnitude(#[trigger] m.at(i, k as int)),
                tol,
            ) by {
                assert(finite(m.at(i, k as int)));
            }
        }
        return Err(LaError::Singular { pivot_col: k });
    }
    assert(!column_small(*m, k as int, tol)) by {
        assert(!le_spec(magnitude(m.at(pivot_row as int, k as int)), tol));
    }
    Ok(pivot_row)
}

/// The failure that the first column alone decides, before any arithmetic
/// has been done.
pub open spec fn first_gate<const D: usize>(a: Matrix<D>, tol: u64) -> Option<LaError> {
    if D == 0 {
        None
    } else {
        pivot_failure(a, 0, tol)
    }
}

/// An entry that is not finite at the first position of the pivot scan
/// decides the factorization whatever the tolerance: the first column's
/// search answers `NonFinite` at column 0, and no magnitude is compared.
pub proof fn lemma_first_pivot_not_finite<const D: usize>(a: Matrix<D>, tol: u64)
    requires
        D > 0,
        !finite(a.at(0, 0)),
    ensures
        first_gate(a, tol) == Some(LaError::NonFinite { pivot_col: 0 }),
{
    assert(!column_finite(a, 0));
}

} // verus!
