//! Repeating a factorization, a determinant or a solve reproduces its
//! outcome: with an arithmetic unit that gives one result per operation,
//! each has one outcome, failures included.

use crate::arith::{
    answers, chain, deterministic, fused_steps, lemma_chain_deterministic, product_steps, Operation,
};
use crate::binary64::{finite, magnitude, negated};
use crate::error::LaError;
use crate::lu::{lu_fails, lu_run, lu_step, lu_stops, Lu};
use crate::lu::back::{lemma_upper_excludes, lemma_upper_unique, upper_solved, upper_stops};
use crate::lu::elimination::{column_eliminated, elimination_stops, row_stops, update_stops};
use crate::lu::exchange::{order_after, permuted, rows_exchanged, sign_after};
use crate::lu::pivot::is_pivot_row;
use crate::matrix::{lemma_same_entries, Matrix};
use crate::substitution::{
    diagonal, forward_solved, forward_stops, lemma_forward_excludes, lemma_forward_stop_is_first,
    lemma_forward_unique, neg_row,
};
use crate::vector::Vector;
use vstd::prelude::*;

verus! {

impl<const D: usize> Lu<D> {
    /// Repeating `det` reproduces its result bit for bit: with a unit that
    /// gives one result per operation, a factorization has one determinant.
    pub proof fn lemma_det_repeatable<F: Fn(Operation) -> u64>(
        &self,
        ops: &F,
        first: u64,
        second: u64,
    )
        requires
            deterministic(ops),
            self.has_det(ops, first),
            self.has_det(ops, second),
        ensures
            first == second,
    {
        lemma_chain_deterministic(
            ops,
            product_steps(diagonal(self.factors())),
            0,
            D as int,
            self.sign(),
            first,
            second,
        );
    }

    /// Repeating `solve_vec` on one right-hand side reproduces its solution
    /// bit for bit: with a unit that gives one result per operation, a
    /// factorization and a right-hand side have one solution.
    pub proof fn lemma_solve_repeatable<F: Fn(Operation) -> u64>(
        &self,
        ops: &F,
        b: Seq<u64>,
        first: Seq<u64>,
        second: Seq<u64>,
    )
        requires
            deterministic(ops),
            first.len() == D,
            second.len() == D,
            self.solves(ops, b, first),
            self.solves(ops, b, second),
        ensures
            first == second,
    {
        let rhs = permuted(b, self.pivots());
        let y1 = choose|y: Seq<u64>|
            {
                &&& #[trigger] forward_solved(ops, self.factors(), rhs, y, D as int)
                &&& upper_solved(ops, self.factors(), y, first, 0)
            };
        let y2 = choose|y: Seq<u64>|
            {
                &&& #[trigger] forward_solved(ops, self.factors(), rhs, y, D as int)
                &&& upper_solved(ops, self.factors(), y, second, 0)
            };
        lemma_forward_unique(ops, self.factors(), rhs, y1, y2, D as int);
        lemma_upper_unique(ops, self.factors(), y1, y2, first, second, 0);
        assert(first =~= second);
    }

    /// Repeating `solve_vec` on one right-hand side reproduces its outcome
    /// bit for bit, failures included: with a unit that gives one result per
    /// operation, `solve_outcome` admits one result.
    pub proof fn lemma_solve_outcome_unique<F: Fn(Operation) -> u64>(
        &self,
        ops: &F,
        b: Seq<u64>,
        first: Result<Vector<D>, LaError>,
        second: Result<Vector<D>, LaError>,
    )
        requires
            deterministic(ops),
            self.solve_outcome(ops, b, first),
            self.solve_outcome(ops, b, second),
        ensures
            first == second,
    {
        match (first, second) {
            (Ok(x1), Ok(x2)) => {
                self.lemma_solve_repeatable(ops, b, x1@, x2@);
                assert(x1.data =~= x2.data);
            },
            (Ok(x), Err(e)) => {
                self.lemma_solution_excludes_stop(ops, b, x@, e.column() as int);
            },
            (Err(e), Ok(x)) => {
                self.lemma_solution_excludes_stop(ops, b, x@, e.column() as int);
            },
            (Err(e1), Err(e2)) => {
                self.lemma_stops_once(ops, b, e1.column() as int, e2.column() as int);
            },
        }
    }

    /// With a unit that gives one result per operation, a solve that has a
    /// solution stops at no row.
    pub proof fn lemma_solution_excludes_stop<F: Fn(Operation) -> u64>(
        &self,
        ops: &F,
        b: Seq<u64>,
        x: Seq<u64>,
        i: int,
    )
        requires
            deterministic(ops),
            0 <= i < D,
            self.solves(ops, b, x),
        ensures
            !self.stops(ops, b, i),
    {
        let rhs = permuted(b, self.pivots());
        let m = self.factors();
        let y = choose|y: Seq<u64>|
            {
                &&& #[trigger] forward_solved(ops, m, rhs, y, D as int)
                &&& upper_solved(ops, m, y, x, 0)
            };
        lemma_forward_excludes(ops, m, rhs, y, D as int, i);
        if self.stops(ops, b, i) {
            let other = choose|other: Seq<u64>|
                {
                    &&& #[trigger] forward_solved(ops, m, rhs, other, D as int)
                    &&& upper_stops(ops, m, other, i)
                };
            lemma_forward_unique(ops, m, rhs, y, other, D as int);
            lemma_upper_excludes(ops, m, y, other, x, 0, i);
        }
    }

    /// With a unit that gives one result per operation, a solve stops at one
    /// row only.
    pub proof fn lemma_stops_once<F: Fn(Operation) -> u64>(
        &self,
        ops: &F,
        b: Seq<u64>,
        i: int,
        j: int,
    )
        requires
            deterministic(ops),
            0 <= i < D,
            0 <= j < D,
            self.stops(ops, b, i),
            self.stops(ops, b, j),
        ensures
            i == j,
    {
        let rhs = permuted(b, self.pivots());
        let m = self.factors();
        if forward_stops(ops, m, rhs, i) {
            lemma_forward_stop_is_first(ops, m, rhs, i, j);
            if !forward_stops(ops, m, rhs, j) {
                let y = choose|y: Seq<u64>|
                    {
                        &&& #[trigger] forward_solved(ops, m, rhs, y, D as int)
                        &&& upper_stops(ops, m, y, j)
                    };
                lemma_forward_excludes(ops, m, rhs, y, D as int, i);
            }
        } else if forward_stops(ops, m, rhs, j) {
            let y = choose|y: Seq<u64>|
                {
                    &&& #[trigger] forward_solved(ops, m, rhs, y, D as int)
                    &&& upper_stops(ops, m, y, i)
                };
            lemma_forward_excludes(ops, m, rhs, y, D as int, j);
        } else {
            let y1 = choose|y: Seq<u64>|
                {
                    &&& #[trigger] forward_solved(ops, m, rhs, y, D as int)
                    &&& upper_stops(ops, m, y, i)
                };
            let y2 = choose|y: Seq<u64>|
                {
                    &&& #[trigger] forward_solved(ops, m, rhs, y, D as int)
                    &&& upper_stops(ops, m, y, j)
                };
            lemma_forward_unique(ops, m, rhs, y1, y2, D as int);
            if i < j {
                let (x, s) = choose|x: Seq<u64>, s: u64|
                    {
                        &&& #[trigger] chain(
                            ops,
                            fused_steps(neg_row(m, i), x),
                            i + 1,
                            D as int,
                            y1[i],
                            s,
                        )
                        &&& upper_solved(ops, m, y1, x, i + 1)
                        &&& !finite(s)
                    };
                lemma_upper_excludes(ops, m, y1, y2, x, i + 1, j);
            } else if j < i {
                let (x, s) = choose|x: Seq<u64>, s: u64|
                    {
                        &&& #[trigger] chain(
                            ops,
                            fused_steps(neg_row(m, j), x),
                            j + 1,
                            D as int,
                            y2[j],
                            s,
                        )
                        &&& upper_solved(ops, m, y2, x, j + 1)
                        &&& !finite(s)
                    };
                lemma_forward_unique(ops, m, rhs, y2, y1, D as int);
                lemma_upper_excludes(ops, m, y2, y1, x, j + 1, i);
            }
        }
    }
}

/// A column has one pivot row.
pub proof fn lemma_pivot_row_unique<const D: usize>(m: Matrix<D>, k: int, p: int, q: int)
    requires
        is_pivot_row(m, k, p),
        is_pivot_row(m, k, q),
    ensures
        p == q,
{
    if p < q {
        assert(magnitude(m.at(p, k)) < magnitude(m.at(q, k)));
        assert(magnitude(m.at(q, k)) <= magnitude(m.at(p, k)));
    } else if q < p {
        assert(magnitude(m.at(q, k)) < magnitude(m.at(p, k)));
        assert(magnitude(m.at(p, k)) <= magnitude(m.at(q, k)));
    }
}

/// With a unit that gives one result per operation, the elimination of a
/// column has one result.
pub proof fn lemma_elimination_unique<F: Fn(Operation) -> u64, const D: usize>(
    ops: &F,
    from: Matrix<D>,
    first: Matrix<D>,
    second: Matrix<D>,
    k: int,
)
    requires
        deterministic(ops),
        0 <= k < D,
        column_eliminated(ops, from, first, k),
        column_eliminated(ops, from, second, k),
    ensures
        first == second,
{
    assert forall|r: int, c: int| 0 <= r < D && 0 <= c < D implies #[trigger] first.at(r, c)
        == second.at(r, c) by {
        if r <= k || c < k {
            assert(first.at(r, c) == from.at(r, c));
            assert(second.at(r, c) == from.at(r, c));
        } else {
            assert(finite(first.at(r, k)) && finite(second.at(r, k)));
            assert(first.at(r, k) == second.at(r, k));
            if c > k {
                assert(finite(first.at(r, c)) && finite(second.at(r, c)));
            }
        }
    }
    lemma_same_entries(first, second);
}

/// With a unit that gives one result per operation, a column that can be
/// eliminated to the end stops in no row.
pub proof fn lemma_elimination_excludes_stop<F: Fn(Operation) -> u64, const D: usize>(
    ops: &F,
    from: Matrix<D>,
    to: Matrix<D>,
    k: int,
)
    requires
        deterministic(ops),
        0 <= k < D,
        column_eliminated(ops, from, to, k),
    ensures
        !elimination_stops(ops, from, k),
{
    if elimination_stops(ops, from, k) {
        let r = choose|r: int| k < r < D && #[trigger] row_stops(ops, from, k, r);
        let mult = choose|mult: u64|
            (#[trigger] answers(ops, Operation::Quotient(from.at(r, k), from.at(k, k)), mult)) && (
            !finite(mult) || update_stops(ops, from, k, r, mult));
        assert(finite(to.at(r, k)));
        assert(mult == to.at(r, k));
        let (c, v) = choose|c: int, v: u64|
            k < c < D && (#[trigger] answers(
                ops,
                Operation::FusedMulAdd(negated(mult), from.at(k, c), from.at(r, c)),
                v,
            )) && !finite(v);
        assert(finite(to.at(r, c)));
    }
}

/// With a unit that gives one result per operation, a step of the
/// factorization has one pivot row and one result.
pub proof fn lemma_step_unique<F: Fn(Operation) -> u64, const D: usize>(
    ops: &F,
    tol: u64,
    from: Matrix<D>,
    p: int,
    q: int,
    first: Matrix<D>,
    second: Matrix<D>,
    k: int,
)
    requires
        deterministic(ops),
        0 <= k < D,
        lu_step(ops, tol, from, p, first, k),
        lu_step(ops, tol, from, q, second, k),
    ensures
        p == q,
        first == second,
{
    lemma_pivot_row_unique(from, k, p, q);
    let mid1 = choose|mid: Matrix<D>|
        (#[trigger] rows_exchanged(from, mid, k, p)) && column_eliminated(ops, mid, first, k);
    let mid2 = choose|mid: Matrix<D>|
        (#[trigger] rows_exchanged(from, mid, k, q)) && column_eliminated(ops, mid, second, k);
    lemma_same_entries(mid1, mid2);
    lemma_elimination_unique(ops, mid1, first, second, k);
}

/// With a unit that gives one result per operation, a step that can be
/// taken excludes every stop at its column.
pub proof fn lemma_step_excludes_stop<F: Fn(Operation) -> u64, const D: usize>(
    ops: &F,
    tol: u64,
    from: Matrix<D>,
    p: int,
    to: Matrix<D>,
    k: int,
    e: LaError,
)
    requires
        deterministic(ops),
        0 <= k < D,
        lu_step(ops, tol, from, p, to, k),
    ensures
        !lu_stops(ops, from, k, tol, e),
{
    if lu_stops(ops, from, k, tol, e) {
        let mid = choose|mid: Matrix<D>|
            (#[trigger] rows_exchanged(from, mid, k, p)) && column_eliminated(ops, mid, to, k);
        let (q, other) = choose|q: int, other: Matrix<D>|
            {
                &&& #[trigger] rows_exchanged(from, other, k, q)
                &&& is_pivot_row(from, k, q)
                &&& elimination_stops(ops, other, k)
            };
        lemma_pivot_row_unique(from, k, p, q);
        lemma_same_entries(mid, other);
        lemma_elimination_excludes_stop(ops, mid, to, k);
    }
}

/// With a unit that gives one result per operation, two runs of steps from
/// one matrix agree as far as the shorter one goes.
pub proof fn lemma_run_unique<F: Fn(Operation) -> u64, const D: usize>(
    ops: &F,
    a: Matrix<D>,
    tol: u64,
    stages1: Seq<Matrix<D>>,
    choice1: Seq<int>,
    n1: int,
    stages2: Seq<Matrix<D>>,
    choice2: Seq<int>,
    n2: int,
    upto: int,
)
    requires
        deterministic(ops),
        lu_run(ops, a, tol, stages1, choice1, n1),
        lu_run(ops, a, tol, stages2, choice2, n2),
        0 <= upto <= n1,
        upto <= n2,
    ensures
        forall|k: int| 0 <= k <= upto ==> stages1[k] == stages2[k],
        forall|k: int| 0 <= k < upto ==> choice1[k] == choice2[k],
    decreases upto,
{
    if upto > 0 {
        lemma_run_unique(ops, a, tol, stages1, choice1, n1, stages2, choice2, n2, upto - 1);
        let k = upto - 1;
        assert(lu_step(ops, tol, stages1[k], choice1[k], stages1[k + 1], k));
        assert(lu_step(ops, tol, stages2[k], choice2[k], stages2[k + 1], k));
        lemma_step_unique(
            ops,
            tol,
            stages1[k],
            choice1[k],
            choice2[k],
            stages1[k + 1],
            stages2[k + 1],
            k,
        );
    }
}

/// Repeating a factorization reproduces its outcome bit for bit: with a
/// unit that gives one result per operation, two outcomes of `factor` for
/// one matrix and one tolerance are the same failure, or factorizations
/// with the same factors, row order and sign.
pub proof fn lemma_factor_outcome_unique<F: Fn(Operation) -> u64, const D: usize>(
    ops: &F,
    a: Matrix<D>,
    tol: u64,
    first: Result<Lu<D>, LaError>,
    second: Result<Lu<D>, LaError>,
)
    requires
        deterministic(ops),
        Lu::factor_outcome(ops, a, tol, first),
        Lu::factor_outcome(ops, a, tol, second),
    ensures
        match (first, second) {
            (Ok(f), Ok(g)) => {
                &&& f.factors() == g.factors()
                &&& f.pivots() == g.pivots()
                &&& f.sign() == g.sign()
                &&& f.tolerance() == g.tolerance()
            },
            (Err(e1), Err(e2)) => e1 == e2,
            _ => false,
        },
{
    match (first, second) {
        (Ok(f), Ok(g)) => {
            let (s1, c1) = lu_complete_run(ops, a, tol, f);
            let (s2, c2) = lu_complete_run(ops, a, tol, g);
            lemma_run_unique(ops, a, tol, s1, c1, D as int, s2, c2, D as int, D as int);
            assert(c1 =~= c2);
        },
        (Ok(f), Err(e)) => {
            lemma_complete_excludes_failure(ops, a, tol, f, e);
        },
        (Err(e), Ok(g)) => {
            lemma_complete_excludes_failure(ops, a, tol, g, e);
        },
        (Err(e1), Err(e2)) => {
            let (s1, c1) = lu_failing_run(ops, a, tol, e1);
            let (s2, c2) = lu_failing_run(ops, a, tol, e2);
            let n1 = e1.column() as int;
            let n2 = e2.column() as int;
            if n1 < n2 {
                lemma_run_unique(ops, a, tol, s1, c1, n1, s2, c2, n2, n1);
                assert(lu_step(ops, tol, s2[n1], c2[n1], s2[n1 + 1], n1));
                lemma_step_excludes_stop(ops, tol, s2[n1], c2[n1], s2[n1 + 1], n1, e1);
            } else if n2 < n1 {
                lemma_run_unique(ops, a, tol, s2, c2, n2, s1, c1, n1, n2);
                assert(lu_step(ops, tol, s1[n2], c1[n2], s1[n2 + 1], n2));
                lemma_step_excludes_stop(ops, tol, s1[n2], c1[n2], s1[n2 + 1], n2, e2);
            } else {
                lemma_run_unique(ops, a, tol, s1, c1, n1, s2, c2, n2, n1);
            }
        },
    }
}

/// The stages and pivot rows of a complete factorization.
pub open spec fn lu_complete_run<F: Fn(Operation) -> u64, const D: usize>(
    ops: &F,
    a: Matrix<D>,
    tol: u64,
    f: Lu<D>,
) -> (Seq<Matrix<D>>, Seq<int>) {
    choose|stages: Seq<Matrix<D>>, choice: Seq<int>|
        {
            &&& #[trigger] lu_run(ops, a, tol, stages, choice, D as int)
            &&& stages[D as int] == f.factors()
            &&& f.pivots() == order_after(D as nat, choice)
            &&& f.sign() == sign_after(choice)
        }
}

/// The stages and pivot rows of a run that stops with the failure `e`.
pub open spec fn lu_failing_run<F: Fn(Operation) -> u64, const D: usize>(
    ops: &F,
    a: Matrix<D>,
    tol: u64,
    e: LaError,
) -> (Seq<Matrix<D>>, Seq<int>) {
    choose|stages: Seq<Matrix<D>>, choice: Seq<int>|
        {
            &&& #[trigger] lu_run(ops, a, tol, stages, choice, e.column() as int)
            &&& lu_stops(ops, stages[e.column() as int], e.column() as int, tol, e)
        }
}

/// With a unit that gives one result per operation, a matrix that has a
/// complete factorization has no failing run.
pub proof fn lemma_complete_excludes_failure<F: Fn(Operation) -> u64, const D: usize>(
    ops: &F,
    a: Matrix<D>,
    tol: u64,
    f: Lu<D>,
    e: LaError,
)
    requires
        deterministic(ops),
        f.factors_of(ops, a, tol),
    ensures
        !lu_fails(ops, a, tol, e),
{
    if lu_fails(ops, a, tol, e) {
        let (s1, c1) = lu_complete_run(ops, a, tol, f);
        let (s2, c2) = lu_failing_run(ops, a, tol, e);
        let n = e.column() as int;
        lemma_run_unique(ops, a, tol, s2, c2, n, s1, c1, D as int, n);
        assert(lu_step(ops, tol, s1[n], c1[n], s1[n + 1], n));
        lemma_step_excludes_stop(ops, tol, s1[n], c1[n], s1[n + 1], n, e);
    }
}

} // verus!
