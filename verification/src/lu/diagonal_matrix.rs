//! The factorization of diagonal matrices: with a unit that is exact where
//! a zero operand leaves nothing to round, nothing moves, and the
//! determinant is the product of the diagonal.

use crate::arith::{answers, chain, exact_on_zeros, product_steps, Operation};
use crate::binary64::{finite, is_zero, le_spec, magnitude, negated, ONE};
use crate::error::LaError;
use crate::lu::{lu_run, lu_step, lu_stops, Lu};
use crate::lu::elimination::{column_eliminated, elimination_stops, row_stops, update_stops};
use crate::lu::exchange::{identity_order, lemma_no_exchange, rows_exchanged};
use crate::lu::pivot::{is_pivot_row, pivot_failure};
use crate::lu::repeat::{lemma_pivot_row_unique, lu_complete_run, lu_failing_run};
use crate::matrix::{is_diagonal, lemma_same_entries, same_diagonal, Matrix};
use crate::substitution::diagonal;
use vstd::prelude::*;

verus! {

/// Every diagonal entry of `m` is finite, not a zero, and above `tol` in
/// magnitude.
pub open spec fn usable_diagonal<const D: usize>(m: Matrix<D>, tol: u64) -> bool {
    forall|i: int|
        0 <= i < D ==> finite(#[trigger] m.at(i, i)) && !is_zero(m.at(i, i)) && !le_spec(
            magnitude(m.at(i, i)),
            tol,
        )
}

/// The pivot search of a column of a diagonal matrix with a usable diagonal
/// passes, and the pivot stands on the diagonal.
pub proof fn lemma_diagonal_pivot<const D: usize>(m: Matrix<D>, k: int, tol: u64)
    requires
        0 <= k < D,
        is_diagonal(m),
        usable_diagonal(m, tol),
    ensures
        pivot_failure(m, k, tol) is None,
        is_pivot_row(m, k, k),
{
    assert forall|i: int| k <= i < D implies finite(#[trigger] m.at(i, k)) by {
        if i != k {
            assert(is_zero(m.at(i, k)));
        }
    }
    assert(!le_spec(magnitude(m.at(k, k)), tol));
    assert forall|i: int| k <= i < D implies magnitude(#[trigger] m.at(i, k)) <= magnitude(
        m.at(k, k),
    ) by {
        if i != k {
            assert(is_zero(m.at(i, k)));
        }
    }
}

/// A step of the factorization of a diagonal matrix with a usable diagonal
/// exchanges no rows and leaves a diagonal matrix with the same diagonal.
pub proof fn lemma_diagonal_step<F: Fn(Operation) -> u64, const D: usize>(
    ops: &F,
    tol: u64,
    from: Matrix<D>,
    p: int,
    to: Matrix<D>,
    k: int,
)
    requires
        exact_on_zeros(ops),
        0 <= k < D,
        is_diagonal(from),
        usable_diagonal(from, tol),
        lu_step(ops, tol, from, p, to, k),
    ensures
        p == k,
        is_diagonal(to),
        same_diagonal(to, from),
{
    lemma_diagonal_pivot(from, k, tol);
    lemma_pivot_row_unique(from, k, p, k);
    let mid = choose|mid: Matrix<D>|
        (#[trigger] rows_exchanged(from, mid, k, p)) && column_eliminated(ops, mid, to, k);
    lemma_same_entries(mid, from);
    assert forall|r: int| k < r < D implies is_zero(#[trigger] to.at(r, k)) by {
        assert(is_zero(from.at(r, k)));
        assert(finite(from.at(k, k)) && !is_zero(from.at(k, k)));
        assert(finite(to.at(r, k)));
    }
    assert forall|r: int, c: int| 0 <= r < D && 0 <= c < D implies if r == c {
        #[trigger] to.at(r, c) == from.at(r, c)
    } else {
        is_zero(to.at(r, c))
    } by {
        if r <= k || c < k {
            assert(to.at(r, c) == from.at(r, c));
            if r != c {
                assert(is_zero(from.at(r, c)));
            }
        } else if c == k {
            assert(is_zero(to.at(r, k)));
        } else {
            assert(is_zero(to.at(r, k)));
            assert(is_zero(negated(to.at(r, k))));
            assert(is_zero(from.at(k, c)));
            assert(finite(to.at(r, c)));
            if r == c {
                assert(finite(from.at(r, r)) && !is_zero(from.at(r, r)));
            } else {
                assert(is_zero(from.at(r, c)));
            }
        }
    }
}

/// With a unit that is exact on zeros, the factorization of a diagonal
/// matrix with a usable diagonal stops at no column.
pub proof fn lemma_diagonal_never_stops<F: Fn(Operation) -> u64, const D: usize>(
    ops: &F,
    tol: u64,
    from: Matrix<D>,
    k: int,
    e: LaError,
)
    requires
        exact_on_zeros(ops),
        0 <= k < D,
        is_diagonal(from),
        usable_diagonal(from, tol),
    ensures
        !lu_stops(ops, from, k, tol, e),
{
    lemma_diagonal_pivot(from, k, tol);
    if lu_stops(ops, from, k, tol, e) {
        let (p, mid) = choose|p: int, mid: Matrix<D>|
            {
                &&& #[trigger] rows_exchanged(from, mid, k, p)
                &&& is_pivot_row(from, k, p)
                &&& elimination_stops(ops, mid, k)
            };
        lemma_pivot_row_unique(from, k, p, k);
        lemma_same_entries(mid, from);
        let r = choose|r: int| k < r < D && #[trigger] row_stops(ops, from, k, r);
        let mult = choose|mult: u64|
            (#[trigger] answers(ops, Operation::Quotient(from.at(r, k), from.at(k, k)), mult)) && (
            !finite(mult) || update_stops(ops, from, k, r, mult));
        assert(is_zero(from.at(r, k)));
        assert(finite(from.at(k, k)) && !is_zero(from.at(k, k)));
        assert(is_zero(mult));
        let (c, v) = choose|c: int, v: u64|
            k < c < D && (#[trigger] answers(
                ops,
                Operation::FusedMulAdd(negated(mult), from.at(k, c), from.at(r, c)),
                v,
            )) && !finite(v);
        assert(is_zero(negated(mult)));
        assert(is_zero(from.at(k, c)));
        if r == c {
            assert(finite(from.at(r, r)) && !is_zero(from.at(r, r)));
        } else {
            assert(is_zero(from.at(r, c)));
        }
    }
}

/// Every stage of a run from a diagonal matrix with a usable diagonal is
/// diagonal with the same diagonal, and every pivot stands on the diagonal.
pub proof fn lemma_diagonal_run<F: Fn(Operation) -> u64, const D: usize>(
    ops: &F,
    a: Matrix<D>,
    tol: u64,
    stages: Seq<Matrix<D>>,
    choice: Seq<int>,
    n: int,
    upto: int,
)
    requires
        exact_on_zeros(ops),
        is_diagonal(a),
        usable_diagonal(a, tol),
        lu_run(ops, a, tol, stages, choice, n),
        0 <= upto <= n,
    ensures
        is_diagonal(stages[upto]),
        same_diagonal(stages[upto], a),
        forall|k: int| 0 <= k < upto ==> #[trigger] choice[k] == k,
    decreases upto,
{
    if upto > 0 {
        lemma_diagonal_run(ops, a, tol, stages, choice, n, upto - 1);
        let k = upto - 1;
        assert(lu_step(ops, tol, stages[k], choice[k], stages[k + 1], k));
        assert(usable_diagonal(stages[k], tol)) by {
            assert forall|i: int| 0 <= i < D implies finite(#[trigger] stages[k].at(i, i))
                && !is_zero(stages[k].at(i, i)) && !le_spec(magnitude(stages[k].at(i, i)), tol) by {
                assert(stages[k].at(i, i) == a.at(i, i));
            }
        }
        lemma_diagonal_step(ops, tol, stages[k], choice[k], stages[k + 1], k);
        assert forall|i: int| 0 <= i < D implies #[trigger] stages[upto].at(i, i) == a.at(i, i) by {
            assert(stages[upto].at(i, i) == stages[k].at(i, i));
            assert(stages[k].at(i, i) == a.at(i, i));
        }
    }
}

/// With a unit that is exact on zeros, a diagonal matrix whose diagonal
/// entries are finite, not zero and above the tolerance in magnitude is
/// always factored: no rows are exchanged, the sign is plus one, and the
/// diagonal of U is the diagonal of the matrix.
pub proof fn lemma_diagonal_factorization<F: Fn(Operation) -> u64, const D: usize>(
    ops: &F,
    a: Matrix<D>,
    tol: u64,
    r: Result<Lu<D>, LaError>,
)
    requires
        exact_on_zeros(ops),
        is_diagonal(a),
        usable_diagonal(a, tol),
        Lu::factor_outcome(ops, a, tol, r),
    ensures
        match r {
            Ok(lu) => {
                &&& lu.pivots() == identity_order(D as nat)
                &&& lu.sign() == ONE
                &&& same_diagonal(lu.factors(), a)
            },
            Err(_) => false,
        },
{
    match r {
        Ok(lu) => {
            let (stages, choice) = lu_complete_run(ops, a, tol, lu);
            lemma_diagonal_run(ops, a, tol, stages, choice, D as int, D as int);
            lemma_no_exchange(D as nat, choice);
        },
        Err(e) => {
            let (stages, choice) = lu_failing_run(ops, a, tol, e);
            let n = e.column() as int;
            lemma_diagonal_run(ops, a, tol, stages, choice, n, n);
            assert(usable_diagonal(stages[n], tol)) by {
                assert forall|i: int| 0 <= i < D implies finite(#[trigger] stages[n].at(i, i))
                    && !is_zero(stages[n].at(i, i)) && !le_spec(
                    magnitude(stages[n].at(i, i)),
                    tol,
                ) by {
                    assert(stages[n].at(i, i) == a.at(i, i));
                }
            }
            lemma_diagonal_never_stops(ops, tol, stages[n], n, e);
        },
    }
}

/// With a unit that is exact on zeros, the determinant that LU gives for
/// such a diagonal matrix is the product of its diagonal entries, taken
/// first to last from one.
pub proof fn lemma_diagonal_det<F: Fn(Operation) -> u64, const D: usize>(
    ops: &F,
    a: Matrix<D>,
    tol: u64,
    r: Result<u64, LaError>,
)
    requires
        exact_on_zeros(ops),
        is_diagonal(a),
        usable_diagonal(a, tol),
        a.det_outcome(ops, tol, r),
    ensures
        match r {
            Ok(d) => chain(ops, product_steps(diagonal(a)), 0, D as int, ONE, d),
            Err(_) => false,
        },
{
    match r {
        Ok(d) => {
            let lu = choose|lu: Lu<D>|
                (#[trigger] lu.factors_of(ops, a, tol)) && lu.has_det(ops, d);
            lemma_diagonal_factorization(ops, a, tol, Ok(lu));
            assert(diagonal(lu.factors()) =~= diagonal(a));
        },
        Err(e) => {
            lemma_diagonal_factorization(ops, a, tol, Err::<Lu<D>, LaError>(e));
        },
    }
}

} // verus!
