//! The factorization of diagonal matrices: with a unit that is exact where
//! a zero operand leaves nothing to round, the diagonal stays as it is, and
//! the determinant is its product.

use crate::arith::{
    answers, chain, exact_on_zero_products, exact_on_zeros, product_steps, Operation,
};
use crate::binary64::{finite, is_zero, le_spec, negated, ONE};
use crate::error::LaError;
use crate::ldlt::{ldlt_run, ldlt_step_at, ldlt_stops, Ldlt};
use crate::ldlt::reduction::{
    column_reduced, column_reduced_with, entry_stops, multiplier_stops, multipliers_stored,
    trailing_stops,
};
use crate::ldlt::repeat::{ldlt_complete_run, ldlt_failing_run};
use crate::matrix::{is_diagonal, same_diagonal, Matrix};
use crate::substitution::diagonal;
use vstd::prelude::*;

verus! {

/// Every diagonal entry of `m` is finite, not a zero, and above `tol`.
pub open spec fn positive_diagonal<const D: usize>(m: Matrix<D>, tol: u64) -> bool {
    forall|i: int|
        0 <= i < D ==> finite(#[trigger] m.at(i, i)) && !is_zero(m.at(i, i)) && !le_spec(
            m.at(i, i),
            tol,
        )
}

/// The reduction of a column of a diagonal matrix with such a diagonal
/// leaves a diagonal matrix with the same diagonal.
pub proof fn lemma_diagonal_reduction<F: Fn(Operation) -> u64, const D: usize>(
    ops: &F,
    tol: u64,
    from: Matrix<D>,
    to: Matrix<D>,
    j: int,
)
    requires
        exact_on_zeros(ops),
        exact_on_zero_products(ops),
        0 <= j < D,
        is_diagonal(from),
        positive_diagonal(from, tol),
        column_reduced(ops, from, to, j),
    ensures
        is_diagonal(to),
        same_diagonal(to, from),
{
    let scaled = choose|scaled: Seq<u64>| #[trigger]
        column_reduced_with(ops, from, to, j, scaled);
    assert forall|r: int, c: int| 0 <= r < D && 0 <= c < D implies if r == c {
        #[trigger] to.at(r, c) == from.at(r, c)
    } else {
        is_zero(to.at(r, c))
    } by {
        if r <= j || c < j || c > r {
            assert(to.at(r, c) == from.at(r, c));
            if r != c {
                assert(is_zero(from.at(r, c)));
            }
        } else if c == j {
            lemma_zero_multiplier(ops, tol, from, to, j, scaled, r);
        } else {
            lemma_zero_multiplier(ops, tol, from, to, j, scaled, r);
            lemma_zero_multiplier(ops, tol, from, to, j, scaled, c);
            assert(is_zero(negated(scaled[r])));
            assert(finite(to.at(c, j)));
            assert(finite(to.at(r, c)));
            if r == c {
                assert(finite(from.at(r, r)) && !is_zero(from.at(r, r)));
            } else {
                assert(is_zero(from.at(r, c)));
            }
        }
    }
}

/// In the reduction of a column of such a matrix, the multiplier of every
/// row below the diagonal is a zero, and so is its product with the
/// diagonal entry.
pub proof fn lemma_zero_multiplier<F: Fn(Operation) -> u64, const D: usize>(
    ops: &F,
    tol: u64,
    from: Matrix<D>,
    to: Matrix<D>,
    j: int,
    scaled: Seq<u64>,
    i: int,
)
    requires
        exact_on_zeros(ops),
        exact_on_zero_products(ops),
        0 <= j < i < D,
        is_diagonal(from),
        positive_diagonal(from, tol),
        column_reduced_with(ops, from, to, j, scaled),
    ensures
        is_zero(to.at(i, j)),
        is_zero(scaled[i]),
{
    assert(finite(from.at(j, j)) && !is_zero(from.at(j, j)));
    assert(is_zero(from.at(i, j)));
    assert(finite(to.at(i, j)));
}

/// With a unit that is exact on zeros, the factorization of a diagonal
/// matrix with such a diagonal stops at no column.
pub proof fn lemma_diagonal_never_stops<F: Fn(Operation) -> u64, const D: usize>(
    ops: &F,
    tol: u64,
    from: Matrix<D>,
    j: int,
    e: LaError,
)
    requires
        exact_on_zeros(ops),
        exact_on_zero_products(ops),
        0 <= j < D,
        is_diagonal(from),
        positive_diagonal(from, tol),
    ensures
        !ldlt_stops(ops, from, j, tol, e),
{
    assert(finite(from.at(j, j)) && !is_zero(from.at(j, j)) && !le_spec(from.at(j, j), tol));
    if multiplier_stops(ops, from, j) {
        let (i, l) = choose|i: int, l: u64|
            j < i < D && (#[trigger] answers(
                ops,
                Operation::Quotient(from.at(i, j), from.at(j, j)),
                l,
            )) && !finite(l);
        assert(is_zero(from.at(i, j)));
    }
    if trailing_stops(ops, from, j) {
        let (mid, i, k) = choose|mid: Matrix<D>, i: int, k: int|
            {
                &&& #[trigger] entry_stops(ops, from, mid, j, i, k)
                &&& multipliers_stored(ops, from, mid, j)
                &&& j < k <= i < D
            };
        let (t, v) = choose|t: u64, v: u64|
            {
                &&& #[trigger] answers(
                    ops,
                    Operation::FusedMulAdd(negated(t), mid.at(k, j), from.at(i, k)),
                    v,
                )
                &&& answers(ops, Operation::Product(mid.at(i, j), from.at(j, j)), t)
                &&& !finite(v)
            };
        assert(is_zero(from.at(i, j)) && is_zero(from.at(k, j)));
        assert(finite(mid.at(i, j)) && finite(mid.at(k, j)));
        assert(is_zero(mid.at(i, j)) && is_zero(mid.at(k, j)));
        assert(is_zero(t));
        assert(is_zero(negated(t)));
        if i == k {
            assert(finite(from.at(i, i)) && !is_zero(from.at(i, i)));
        } else {
            assert(is_zero(from.at(i, k)));
        }
    }
}

/// Every stage of a run from a diagonal matrix with such a diagonal is
/// diagonal with the same diagonal.
pub proof fn lemma_diagonal_run<F: Fn(Operation) -> u64, const D: usize>(
    ops: &F,
    a: Matrix<D>,
    tol: u64,
    stages: Seq<Matrix<D>>,
    n: int,
    upto: int,
)
    requires
        exact_on_zeros(ops),
        exact_on_zero_products(ops),
        is_diagonal(a),
        positive_diagonal(a, tol),
        ldlt_run(ops, a, tol, stages, n),
        0 <= upto <= n,
    ensures
        is_diagonal(stages[upto]),
        same_diagonal(stages[upto], a),
        positive_diagonal(stages[upto], tol),
    decreases upto,
{
    if upto > 0 {
        lemma_diagonal_run(ops, a, tol, stages, n, upto - 1);
        let j = upto - 1;
        assert(ldlt_step_at(ops, tol, stages, j));
        lemma_diagonal_reduction(ops, tol, stages[j], stages[j + 1], j);
        assert forall|i: int| 0 <= i < D implies #[trigger] stages[upto].at(i, i) == a.at(i, i) by {
            assert(stages[upto].at(i, i) == stages[j].at(i, i));
            assert(stages[j].at(i, i) == a.at(i, i));
        }
    }
    assert forall|i: int| 0 <= i < D implies finite(#[trigger] stages[upto].at(i, i)) && !is_zero(
        stages[upto].at(i, i),
    ) && !le_spec(stages[upto].at(i, i), tol) by {
        assert(stages[upto].at(i, i) == a.at(i, i));
    }
}

/// With a unit that is exact on zeros, a diagonal matrix whose diagonal
/// entries are finite, not zero and above the tolerance is always
/// factored, and D is the diagonal of the matrix.
pub proof fn lemma_diagonal_factorization<F: Fn(Operation) -> u64, const D: usize>(
    ops: &F,
    a: Matrix<D>,
    tol: u64,
    r: Result<Ldlt<D>, LaError>,
)
    requires
        exact_on_zeros(ops),
        exact_on_zero_products(ops),
        is_diagonal(a),
        positive_diagonal(a, tol),
        Ldlt::factor_outcome(ops, a, tol, r),
    ensures
        match r {
            Ok(f) => same_diagonal(f.factors(), a),
            Err(_) => false,
        },
{
    match r {
        Ok(f) => {
            let stages = ldlt_complete_run(ops, a, tol, f);
            lemma_diagonal_run(ops, a, tol, stages, D as int, D as int);
        },
        Err(e) => {
            let stages = ldlt_failing_run(ops, a, tol, e);
            let n = e.column() as int;
            lemma_diagonal_run(ops, a, tol, stages, n, n);
            lemma_diagonal_never_stops(ops, tol, stages[n], n, e);
        },
    }
}

/// With a unit that is exact on zeros, the determinant that LDLT gives for
/// such a diagonal matrix is the product of its diagonal entries, taken
/// first to last from one.
pub proof fn lemma_diagonal_det<F: Fn(Operation) -> u64, const D: usize>(
    ops: &F,
    a: Matrix<D>,
    tol: u64,
    f: Ldlt<D>,
    d: u64,
)
    requires
        exact_on_zeros(ops),
        exact_on_zero_products(ops),
        is_diagonal(a),
        positive_diagonal(a, tol),
        f.factors_of(ops, a, tol),
        f.has_det(ops, d),
    ensures
        chain(ops, product_steps(diagonal(a)), 0, D as int, ONE, d),
{
    lemma_diagonal_factorization(ops, a, tol, Ok(f));
    assert(diagonal(f.factors()) =~= diagonal(a));
}

} // verus!
