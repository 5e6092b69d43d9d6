//! Repeating a factorization, a determinant or a solve reproduces its
//! outcome: with an arithmetic unit that gives one result per operation,
//! each has one outcome, failures included.

use crate::arith::{
    answers, chain, deterministic, fused_steps, lemma_chain_deterministic, product_steps, Operation,
};
use crate::binary64::{finite, negated, ONE};
use crate::error::LaError;
use crate::ldlt::{
    backward_pass_stops, diagonal_pass_stops, ldlt_fails, ldlt_run, ldlt_step_at, ldlt_stops, Ldlt,
};
use crate::ldlt::diagonal::{
    diagonal_solved, diagonal_stops, lemma_diagonal_excludes, lemma_diagonal_unique,
};
use crate::ldlt::reduction::{
    column_reduced, column_reduced_with, entry_stops, multiplier_stops, multipliers_stored,
    reduction_stops, trailing_stops,
};
use crate::ldlt::transpose::{
    lemma_transpose_excludes, lemma_transpose_unique, transpose_solved, transpose_stops,
};
use crate::matrix::{lemma_same_entries, Matrix};
use crate::substitution::{
    diagonal, forward_solved, forward_stops, lemma_forward_excludes, lemma_forward_stop_is_first,
    lemma_forward_unique, neg_column,
};
use crate::vector::Vector;
use vstd::prelude::*;

verus! {

impl<const D: usize> Ldlt<D> {
    /// Repeating `det` reproduces its result bit for bit: with a unit that
    /// gives one result per operation, a factorization has one determinant.
    pub proof fn lemma_det_repeatable<F: Fn(Operation) -> u64>(
        &self,
        ops: &F,
        first: u64,
        second: u64,
    )
        requires
            deterministic(ops),
            self.has_det(ops, first),
            self.has_det(ops, second),
        ensures
            first == second,
    {
        lemma_chain_deterministic(
            ops,
            product_steps(diagonal(self.factors())),
            0,
            D as int,
            ONE,
            first,
            second,
        );
    }

    /// Repeating `solve_vec` on one right-hand side reproduces its solution
    /// bit for bit: with a unit that gives one result per operation, a
    /// factorization and a right-hand side have one solution.
    pub proof fn lemma_solve_repeatable<F: Fn(Operation) -> u64>(
        &self,
        ops: &F,
        b: Seq<u64>,
        first: Seq<u64>,
        second: Seq<u64>,
    )
        requires
            deterministic(ops),
            first.len() == D,
            second.len() == D,
            self.solves(ops, b, first),
            self.solves(ops, b, second),
        ensures
            first == second,
    {
        let (y1, z1) = choose|y: Seq<u64>, z: Seq<u64>|
            {
                &&& #[trigger] diagonal_solved(ops, self.factors(), y, z, D as int)
                &&& forward_solved(ops, self.factors(), b, y, D as int)
                &&& transpose_solved(ops, self.factors(), z, first, 0)
            };
        let (y2, z2) = choose|y: Seq<u64>, z: Seq<u64>|
            {
                &&& #[trigger] diagonal_solved(ops, self.factors(), y, z, D as int)
                &&& forward_solved(ops, self.factors(), b, y, D as int)
                &&& transpose_solved(ops, self.factors(), z, second, 0)
            };
        lemma_forward_unique(ops, self.factors(), b, y1, y2, D as int);
        assert forall|i: int| 0 <= i < D implies z1[i] == z2[i] by {
            assert(finite(z1[i]) && finite(z2[i]));
        }
        lemma_transpose_unique(ops, self.factors(), z1, z2, first, second, 0);
        assert(first =~= second);
    }

    /// Repeating `solve_vec` on one right-hand side reproduces its outcome
    /// bit for bit, failures included: with a unit that gives one result per
    /// operation, `solve_outcome` admits one result.
    pub proof fn lemma_solve_outcome_unique<F: Fn(Operation) -> u64>(
        &self,
        ops: &F,
        b: Seq<u64>,
        first: Result<Vector<D>, LaError>,
        second: Result<Vector<D>, LaError>,
    )
        requires
            deterministic(ops),
            self.solve_outcome(ops, b, first),
            self.solve_outcome(ops, b, second),
        ensures
            first == second,
    {
        match (first, second) {
            (Ok(x1), Ok(x2)) => {
                self.lemma_solve_repeatable(ops, b, x1@, x2@);
                assert(x1.data =~= x2.data);
            },
            (Ok(x), Err(e)) => {
                self.lemma_solution_excludes_stop(ops, b, x@, e.column() as int);
            },
            (Err(e), Ok(x)) => {
                self.lemma_solution_excludes_stop(ops, b, x@, e.column() as int);
            },
            (Err(e1), Err(e2)) => {
                self.lemma_stops_once(ops, b, e1.column() as int, e2.column() as int);
            },
        }
    }

    /// With a unit that gives one result per operation, a solve that has a
    /// solution stops at no row.
    pub proof fn lemma_solution_excludes_stop<F: Fn(Operation) -> u64>(
        &self,
        ops: &F,
        b: Seq<u64>,
        x: Seq<u64>,
        i: int,
    )
        requires
            deterministic(ops),
            0 <= i < D,
            self.solves(ops, b, x),
        ensures
            !self.stops(ops, b, i),
    {
        let m = self.factors();
        let (y, z) = choose|y: Seq<u64>, z: Seq<u64>|
            {
                &&& #[trigger] diagonal_solved(ops, m, y, z, D as int)
                &&& forward_solved(ops, m, b, y, D as int)
                &&& transpose_solved(ops, m, z, x, 0)
            };
        lemma_forward_excludes(ops, m, b, y, D as int, i);
        lemma_passes_exclude_stops(ops, m, b, y, z, i);
        if self.stops(ops, b, i) {
            let (y2, z2) = choose|y2: Seq<u64>, z2: Seq<u64>|
                {
                    &&& #[trigger] diagonal_solved(ops, m, y2, z2, D as int)
                    &&& forward_solved(ops, m, b, y2, D as int)
                    &&& transpose_stops(ops, m, z2, i)
                };
            lemma_forward_unique(ops, m, b, y, y2, D as int);
            lemma_diagonal_unique(ops, m, y, y2, z, z2, D as int);
            lemma_transpose_excludes(ops, m, z, z2, x, 0, i);
        }
    }

    /// With a unit that gives one result per operation, a solve stops at one
    /// row only.
    pub proof fn lemma_stops_once<F: Fn(Operation) -> u64>(
        &self,
        ops: &F,
        b: Seq<u64>,
        i: int,
        j: int,
    )
        requires
            deterministic(ops),
            0 <= i < D,
            0 <= j < D,
            self.stops(ops, b, i),
            self.stops(ops, b, j),
        ensures
            i == j,
    {
        let m = self.factors();
        if forward_stops(ops, m, b, i) {
            lemma_forward_stop_is_first(ops, m, b, i, j);
            lemma_forward_stop_excludes_later(ops, m, b, i, j);
        } else if forward_stops(ops, m, b, j) {
            lemma_forward_stop_excludes_later(ops, m, b, j, i);
        } else if diagonal_pass_stops(ops, m, b, i) {
            lemma_diagonal_stop_is_first(ops, m, b, i, j);
        } else if diagonal_pass_stops(ops, m, b, j) {
            lemma_diagonal_stop_is_first(ops, m, b, j, i);
        } else {
            lemma_transpose_stop_is_only(ops, m, b, i, j);
        }
    }
}

/// With a unit that gives one result per operation, a solve whose forward
/// and diagonal passes have solutions stops in neither of them.
pub proof fn lemma_passes_exclude_stops<F: Fn(Operation) -> u64, const D: usize>(
    ops: &F,
    m: Matrix<D>,
    b: Seq<u64>,
    y: Seq<u64>,
    z: Seq<u64>,
    i: int,
)
    requires
        deterministic(ops),
        0 <= i < D,
        forward_solved(ops, m, b, y, D as int),
        diagonal_solved(ops, m, y, z, D as int),
    ensures
        !forward_stops(ops, m, b, i),
        !diagonal_pass_stops(ops, m, b, i),
{
    lemma_forward_excludes(ops, m, b, y, D as int, i);
    if diagonal_pass_stops(ops, m, b, i) {
        let other = choose|other: Seq<u64>|
            {
                &&& #[trigger] forward_solved(ops, m, b, other, D as int)
                &&& diagonal_stops(ops, m, other, i)
            };
        lemma_forward_unique(ops, m, b, y, other, D as int);
        lemma_diagonal_excludes(ops, m, y, other, z, D as int, i);
    }
}

/// With a unit that gives one result per operation, a solve that stops in
/// the forward pass stops in no later pass.
pub proof fn lemma_forward_stop_excludes_later<F: Fn(Operation) -> u64, const D: usize>(
    ops: &F,
    m: Matrix<D>,
    b: Seq<u64>,
    i: int,
    j: int,
)
    requires
        deterministic(ops),
        0 <= i < D,
        0 <= j < D,
        forward_stops(ops, m, b, i),
    ensures
        !diagonal_pass_stops(ops, m, b, j),
        !backward_pass_stops(ops, m, b, j),
{
    if diagonal_pass_stops(ops, m, b, j) {
        let y = choose|y: Seq<u64>|
            {
                &&& #[trigger] forward_solved(ops, m, b, y, D as int)
                &&& diagonal_stops(ops, m, y, j)
            };
        lemma_forward_excludes(ops, m, b, y, D as int, i);
    }
    if backward_pass_stops(ops, m, b, j) {
        let (y, z) = choose|y: Seq<u64>, z: Seq<u64>|
            {
                &&& #[trigger] diagonal_solved(ops, m, y, z, D as int)
                &&& forward_solved(ops, m, b, y, D as int)
                &&& transpose_stops(ops, m, z, j)
            };
        lemma_forward_excludes(ops, m, b, y, D as int, i);
    }
}

/// With a unit that gives one result per operation, a solve that stops in
/// the diagonal pass at row `i` stops there only, and not in the backward
/// pass.
pub proof fn lemma_diagonal_stop_is_first<F: Fn(Operation) -> u64, const D: usize>(
    ops: &F,
    m: Matrix<D>,
    b: Seq<u64>,
    i: int,
    j: int,
)
    requires
        deterministic(ops),
        0 <= i < D,
        0 <= j < D,
        diagonal_pass_stops(ops, m, b, i),
    ensures
        diagonal_pass_stops(ops, m, b, j) ==> i == j,
        !backward_pass_stops(ops, m, b, j),
{
    let y = choose|y: Seq<u64>|
        {
            &&& #[trigger] forward_solved(ops, m, b, y, D as int)
            &&& diagonal_stops(ops, m, y, i)
        };
    if backward_pass_stops(ops, m, b, j) {
        let (y2, z2) = choose|y2: Seq<u64>, z2: Seq<u64>|
            {
                &&& #[trigger] diagonal_solved(ops, m, y2, z2, D as int)
                &&& forward_solved(ops, m, b, y2, D as int)
                &&& transpose_stops(ops, m, z2, j)
            };
        lemma_forward_unique(ops, m, b, y2, y, D as int);
        lemma_diagonal_excludes(ops, m, y2, y, z2, D as int, i);
    }
    if diagonal_pass_stops(ops, m, b, j) && i != j {
        let y2 = choose|y2: Seq<u64>|
            {
                &&& #[trigger] forward_solved(ops, m, b, y2, D as int)
                &&& diagonal_stops(ops, m, y2, j)
            };
        lemma_forward_unique(ops, m, b, y, y2, D as int);
        if i < j {
            let (z, q) = choose|z: Seq<u64>, q: u64|
                {
                    &&& #[trigger] diagonal_solved(ops, m, y2, z, j)
                    &&& #[trigger] answers(ops, Operation::Quotient(y2[j], m.at(j, j)), q)
                    &&& !finite(q)
                };
            lemma_diagonal_excludes(ops, m, y2, y, z, j, i);
        } else {
            let (z, q) = choose|z: Seq<u64>, q: u64|
                {
                    &&& #[trigger] diagonal_solved(ops, m, y, z, i)
                    &&& #[trigger] answers(ops, Operation::Quotient(y[i], m.at(i, i)), q)
                    &&& !finite(q)
                };
            lemma_forward_unique(ops, m, b, y2, y, D as int);
            lemma_diagonal_excludes(ops, m, y, y2, z, i, j);
        }
    }
}

/// With a unit that gives one result per operation, a solve stops in the
/// backward pass at one row only.
pub proof fn lemma_transpose_stop_is_only<F: Fn(Operation) -> u64, const D: usize>(
    ops: &F,
    m: Matrix<D>,
    b: Seq<u64>,
    i: int,
    j: int,
)
    requires
        deterministic(ops),
        0 <= i < D,
        0 <= j < D,
        backward_pass_stops(ops, m, b, i),
        backward_pass_stops(ops, m, b, j),
    ensures
        i == j,
{
    let (y1, z1) = choose|y: Seq<u64>, z: Seq<u64>|
        {
            &&& #[trigger] diagonal_solved(ops, m, y, z, D as int)
            &&& forward_solved(ops, m, b, y, D as int)
            &&& transpose_stops(ops, m, z, i)
        };
    let (y2, z2) = choose|y: Seq<u64>, z: Seq<u64>|
        {
            &&& #[trigger] diagonal_solved(ops, m, y, z, D as int)
            &&& forward_solved(ops, m, b, y, D as int)
            &&& transpose_stops(ops, m, z, j)
        };
    lemma_forward_unique(ops, m, b, y1, y2, D as int);
    lemma_diagonal_unique(ops, m, y1, y2, z1, z2, D as int);
    lemma_forward_unique(ops, m, b, y2, y1, D as int);
    lemma_diagonal_unique(ops, m, y2, y1, z2, z1, D as int);
    if i < j {
        let (x, s) = choose|x: Seq<u64>, s: u64|
            {
                &&& #[trigger] chain(
                    ops,
                    fused_steps(neg_column(m, i), x),
                    i + 1,
                    D as int,
                    z1[i],
                    s,
                )
                &&& transpose_solved(ops, m, z1, x, i + 1)
                &&& !finite(s)
            };
        lemma_transpose_excludes(ops, m, z1, z2, x, i + 1, j);
    } else if j < i {
        let (x, s) = choose|x: Seq<u64>, s: u64|
            {
                &&& #[trigger] chain(
                    ops,
                    fused_steps(neg_column(m, j), x),
                    j + 1,
                    D as int,
                    z2[j],
                    s,
                )
                &&& transpose_solved(ops, m, z2, x, j + 1)
                &&& !finite(s)
            };
        lemma_transpose_excludes(ops, m, z2, z1, x, j + 1, i);
    }
}

/// With a unit that gives one result per operation, the reduction of a
/// column has one result.
pub proof fn lemma_reduction_unique<F: Fn(Operation) -> u64, const D: usize>(
    ops: &F,
    from: Matrix<D>,
    first: Matrix<D>,
    second: Matrix<D>,
    j: int,
)
    requires
        deterministic(ops),
        0 <= j < D,
        column_reduced(ops, from, first, j),
        column_reduced(ops, from, second, j),
    ensures
        first == second,
{
    let s1 = choose|scaled: Seq<u64>| #[trigger] column_reduced_with(ops, from, first, j, scaled);
    let s2 = choose|scaled: Seq<u64>| #[trigger]
        column_reduced_with(ops, from, second, j, scaled);
    assert forall|i: int| j < i < D implies first.at(i, j) == second.at(i, j) && s1[i]
        == s2[i] by {
        assert(finite(first.at(i, j)) && finite(second.at(i, j)));
    }
    assert forall|r: int, c: int| 0 <= r < D && 0 <= c < D implies #[trigger] first.at(r, c)
        == second.at(r, c) by {
        if r <= j || c < j || c > r {
            assert(first.at(r, c) == from.at(r, c));
            assert(second.at(r, c) == from.at(r, c));
        } else if c > j {
            assert(first.at(c, j) == second.at(c, j));
            assert(s1[r] == s2[r]);
            assert(finite(first.at(r, c)) && finite(second.at(r, c)));
        }
    }
    lemma_same_entries(first, second);
}

/// With a unit that gives one result per operation, a column that can be
/// reduced to the end stops nowhere.
pub proof fn lemma_reduction_excludes_stop<F: Fn(Operation) -> u64, const D: usize>(
    ops: &F,
    from: Matrix<D>,
    to: Matrix<D>,
    j: int,
)
    requires
        deterministic(ops),
        0 <= j < D,
        column_reduced(ops, from, to, j),
    ensures
        !reduction_stops(ops, from, j),
{
    let scaled = choose|scaled: Seq<u64>| #[trigger]
        column_reduced_with(ops, from, to, j, scaled);
    if multiplier_stops(ops, from, j) {
        let (i, l) = choose|i: int, l: u64|
            j < i < D && (#[trigger] answers(
                ops,
                Operation::Quotient(from.at(i, j), from.at(j, j)),
                l,
            )) && !finite(l);
        assert(finite(to.at(i, j)));
    }
    if trailing_stops(ops, from, j) {
        let (mid, i, k) = choose|mid: Matrix<D>, i: int, k: int|
            {
                &&& #[trigger] entry_stops(ops, from, mid, j, i, k)
                &&& multipliers_stored(ops, from, mid, j)
                &&& j < k <= i < D
            };
        let (t, v) = choose|t: u64, v: u64|
            {
                &&& #[trigger] answers(
                    ops,
                    Operation::FusedMulAdd(negated(t), mid.at(k, j), from.at(i, k)),
                    v,
                )
                &&& answers(ops, Operation::Product(mid.at(i, j), from.at(j, j)), t)
                &&& !finite(v)
            };
        assert(finite(mid.at(i, j)) && finite(to.at(i, j)));
        assert(finite(mid.at(k, j)) && finite(to.at(k, j)));
        assert(mid.at(i, j) == to.at(i, j));
        assert(mid.at(k, j) == to.at(k, j));
        assert(t == scaled[i]);
        assert(finite(to.at(i, k)));
    }
}

/// With a unit that gives one result per operation, a step that can be
/// taken excludes every stop at its column.
pub proof fn lemma_step_excludes_stop<F: Fn(Operation) -> u64, const D: usize>(
    ops: &F,
    tol: u64,
    stages: Seq<Matrix<D>>,
    j: int,
    e: LaError,
)
    requires
        deterministic(ops),
        0 <= j < D,
        ldlt_step_at(ops, tol, stages, j),
    ensures
        !ldlt_stops(ops, stages[j], j, tol, e),
{
    lemma_reduction_excludes_stop(ops, stages[j], stages[j + 1], j);
}

/// With a unit that gives one result per operation, two runs of steps from
/// one matrix agree as far as the shorter one goes.
pub proof fn lemma_run_unique<F: Fn(Operation) -> u64, const D: usize>(
    ops: &F,
    a: Matrix<D>,
    tol: u64,
    stages1: Seq<Matrix<D>>,
    n1: int,
    stages2: Seq<Matrix<D>>,
    n2: int,
    upto: int,
)
    requires
        deterministic(ops),
        ldlt_run(ops, a, tol, stages1, n1),
        ldlt_run(ops, a, tol, stages2, n2),
        0 <= upto <= n1,
        upto <= n2,
    ensures
        forall|j: int| 0 <= j <= upto ==> stages1[j] == stages2[j],
    decreases upto,
{
    if upto > 0 {
        lemma_run_unique(ops, a, tol, stages1, n1, stages2, n2, upto - 1);
        let j = upto - 1;
        assert(ldlt_step_at(ops, tol, stages1, j));
        assert(ldlt_step_at(ops, tol, stages2, j));
        lemma_reduction_unique(ops, stages1[j], stages1[j + 1], stages2[j + 1], j);
    }
}

/// The stages of a complete factorization.
pub open spec fn ldlt_complete_run<F: Fn(Operation) -> u64, const D: usize>(
    ops: &F,
    a: Matrix<D>,
    tol: u64,
    f: Ldlt<D>,
) -> Seq<Matrix<D>> {
    choose|stages: Seq<Matrix<D>>|
        (#[trigger] ldlt_run(ops, a, tol, stages, D as int)) && stages[D as int] == f.factors()
}

/// The stages of a run that stops with the failure `e`.
pub open spec fn ldlt_failing_run<F: Fn(Operation) -> u64, const D: usize>(
    ops: &F,
    a: Matrix<D>,
    tol: u64,
    e: LaError,
) -> Seq<Matrix<D>> {
    choose|stages: Seq<Matrix<D>>|
        {
            &&& #[trigger] ldlt_run(ops, a, tol, stages, e.column() as int)
            &&& ldlt_stops(ops, stages[e.column() as int], e.column() as int, tol, e)
        }
}

/// With a unit that gives one result per operation, a matrix that has a
/// complete factorization has no failing run.
pub proof fn lemma_complete_excludes_failure<F: Fn(Operation) -> u64, const D: usize>(
    ops: &F,
    a: Matrix<D>,
    tol: u64,
    f: Ldlt<D>,
    e: LaError,
)
    requires
        deterministic(ops),
        f.factors_of(ops, a, tol),
    ensures
        !ldlt_fails(ops, a, tol, e),
{
    if ldlt_fails(ops, a, tol, e) {
        let s1 = ldlt_complete_run(ops, a, tol, f);
        let s2 = ldlt_failing_run(ops, a, tol, e);
        let n = e.column() as int;
        lemma_run_unique(ops, a, tol, s2, n, s1, D as int, n);
        assert(ldlt_step_at(ops, tol, s1, n));
        lemma_step_excludes_stop(ops, tol, s1, n, e);
    }
}

/// Repeating a factorization reproduces its outcome bit for bit: with a
/// unit that gives one result per operation, two outcomes of `factor` for
/// one matrix and one tolerance are the same failure, or factorizations
/// with the same factors.
pub proof fn lemma_factor_outcome_unique<F: Fn(Operation) -> u64, const D: usize>(
    ops: &F,
    a: Matrix<D>,
    tol: u64,
    first: Result<Ldlt<D>, LaError>,
    second: Result<Ldlt<D>, LaError>,
)
    requires
        deterministic(ops),
        Ldlt::factor_outcome(ops, a, tol, first),
        Ldlt::factor_outcome(ops, a, tol, second),
    ensures
        match (first, second) {
            (Ok(f), Ok(g)) => f.factors() == g.factors() && f.tolerance() == g.tolerance(),
            (Err(e1), Err(e2)) => e1 == e2,
            _ => false,
        },
{
    match (first, second) {
        (Ok(f), Ok(g)) => {
            let s1 = ldlt_complete_run(ops, a, tol, f);
            let s2 = ldlt_complete_run(ops, a, tol, g);
            lemma_run_unique(ops, a, tol, s1, D as int, s2, D as int, D as int);
        },
        (Ok(f), Err(e)) => {
            lemma_complete_excludes_failure(ops, a, tol, f, e);
        },
        (Err(e), Ok(g)) => {
            lemma_complete_excludes_failure(ops, a, tol, g, e);
        },
        (Err(e1), Err(e2)) => {
            let s1 = ldlt_failing_run(ops, a, tol, e1);
            let s2 = ldlt_failing_run(ops, a, tol, e2);
            let n1 = e1.column() as int;
            let n2 = e2.column() as int;
            if n1 < n2 {
                lemma_run_unique(ops, a, tol, s1, n1, s2, n2, n1);
                assert(ldlt_step_at(ops, tol, s2, n1));
                lemma_step_excludes_stop(ops, tol, s2, n1, e1);
            } else if n2 < n1 {
                lemma_run_unique(ops, a, tol, s2, n2, s1, n1, n2);
                assert(ldlt_step_at(ops, tol, s1, n2));
                lemma_step_excludes_stop(ops, tol, s1, n2, e2);
            } else {
                lemma_run_unique(ops, a, tol, s1, n1, s2, n2, n1);
            }
        },
    }
}

} // verus!
