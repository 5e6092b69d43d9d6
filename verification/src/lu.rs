//! LU decomposition with partial pivoting, and the solves and determinant
//! built on it.

use crate::arith::{
    answers, ask, chain, fused_steps, lemma_chain_empty, lemma_chain_extend, lemma_fused_frame,
    product_steps, total, Operation,
};
use crate::binary64::{abs, finite, is_finite, le, neg, NEG_ONE, ONE, ZERO};
use crate::error::LaError;
use crate::lu::back::{upper_row_solved, upper_solved, upper_stops};
use crate::lu::elimination::{column_eliminated, eliminate_column, eliminated, elimination_stops};
use crate::lu::exchange::{
    exchange, identity_order, is_permutation, lemma_natural_order_means_no_exchange, order_after,
    permuted, records_exchanges, rows_exchanged, sign_after,
};
use crate::lu::pivot::{
    first_gate, is_pivot_row, lemma_first_pivot_not_finite, pivot_failure, select_pivot,
};
use crate::matrix::Matrix;
use crate::substitution::{
    diagonal, forward_solved, forward_stops, forward_substitute, lemma_first_row_solved,
    lemma_first_row_stops, neg_row,
};
use crate::vector::Vector;
use vstd::prelude::*;

pub mod back;
pub mod diagonal_matrix;
pub mod elimination;
pub mod exchange;
pub mod pivot;
pub mod repeat;

verus! {

/// One step of the factorization: column `k` of `from` has the pivot row
/// `p`, and `to` is `from` with rows `k` and `p` exchanged and column `k`
/// eliminated.
pub open spec fn lu_step<F: Fn(Operation) -> u64, const D: usize>(
    ops: &F,
    tol: u64,
    from: Matrix<D>,
    p: int,
    to: Matrix<D>,
    k: int,
) -> bool {
    &&& pivot_failure(from, k, tol) is None
    &&& is_pivot_row(from, k, p)
    &&& exists|mid: Matrix<D>|
        (#[trigger] rows_exchanged(from, mid, k, p)) && column_eliminated(ops, mid, to, k)
}

/// The first `n` steps of the factorization of `a`: `stages` lists the
/// matrix before each step and after the last, `choice` the pivot rows.
pub open spec fn lu_run<F: Fn(Operation) -> u64, const D: usize>(
    ops: &F,
    a: Matrix<D>,
    tol: u64,
    stages: Seq<Matrix<D>>,
    choice: Seq<int>,
    n: int,
) -> bool {
    &&& 0 <= n <= D
    &&& stages.len() == n + 1
    &&& choice.len() == n
    &&& stages[0] == a
    &&& forall|k: int|
        0 <= k < n ==> lu_step(ops, tol, stages[k], #[trigger] choice[k], stages[k + 1], k)
}

/// The pivot search of column `k` of `m` passes, and the elimination that
/// follows the row exchange stops.
pub open spec fn pivoted_elimination_stops<F: Fn(Operation) -> u64, const D: usize>(
    ops: &F,
    m: Matrix<D>,
    k: int,
    tol: u64,
) -> bool {
    &&& pivot_failure(m, k, tol) is None
    &&& exists|p: int, mid: Matrix<D>|
        {
            &&& #[trigger] rows_exchanged(m, mid, k, p)
            &&& is_pivot_row(m, k, p)
            &&& elimination_stops(ops, mid, k)
        }
}

/// The factorization stops at column `k` of `m` with the failure `e`: the
/// pivot search fails with it, or the search passes and the elimination
/// stops on a result that is not finite.
pub open spec fn lu_stops<F: Fn(Operation) -> u64, const D: usize>(
    ops: &F,
    m: Matrix<D>,
    k: int,
    tol: u64,
    e: LaError,
) -> bool {
    &&& 0 <= k < D
    &&& e.column() == k
    &&& pivot_failure(m, k, tol) == Some(e) || (e is NonFinite && pivoted_elimination_stops(
        ops,
        m,
        k,
        tol,
    ))
}

/// The factorization of `a` fails with `e`: a run of the steps before
/// column `e.column()` exists, and it stops there with `e`.
pub open spec fn lu_fails<F: Fn(Operation) -> u64, const D: usize>(
    ops: &F,
    a: Matrix<D>,
    tol: u64,
    e: LaError,
) -> bool {
    exists|stages: Seq<Matrix<D>>, choice: Seq<int>|
        {
            &&& #[trigger] lu_run(ops, a, tol, stages, choice, e.column() as int)
            &&& lu_stops(ops, stages[e.column() as int], e.column() as int, tol, e)
        }
}

/// LU decomposition (PA = LU) with partial pivoting.
///
/// The factors share one matrix: the strict lower triangle holds the
/// multipliers of L, whose diagonal is implicitly one, and the upper
/// triangle with the diagonal holds U.
#[derive(Clone, Copy, Debug)]
pub struct Lu<const D: usize> {
    factors: Matrix<D>,
    piv: [usize; D],
    piv_sign: u64,
    tol: u64,
}

impl<const D: usize> Lu<D> {
    /// The combined storage of L and U.
    pub closed spec fn factors(&self) -> Matrix<D> {
        self.factors
    }

    /// The row order: position `i` of a permuted right-hand side takes
    /// entry `pivots()[i]` of the one given.
    pub closed spec fn pivots(&self) -> Seq<usize> {
        self.piv@
    }

    /// The sign of the row permutation, as the value plus or minus one.
    pub closed spec fn sign(&self) -> u64 {
        self.piv_sign
    }

    /// The tolerance that the factorization was made with.
    pub closed spec fn tolerance(&self) -> u64 {
        self.tol
    }

    /// What holds of every factorization: the row order is a permutation,
    /// order and sign record the same run of row exchanges, every pivot is
    /// finite and above the tolerance in magnitude, and every multiplier is
    /// finite.
    pub open spec fn wf(&self) -> bool {
        &&& is_permutation(self.pivots(), D as nat)
        &&& self.sign() == ONE || self.sign() == NEG_ONE
        &&& exists|choice: Seq<int>| #[trigger]
            records_exchanges(D as nat, choice, self.pivots(), self.sign())
        &&& eliminated(self.factors(), D as int, self.tolerance())
    }

    #[verifier::type_invariant]
    spec fn inv(self) -> bool {
        self.wf()
    }

    /// `self` is a complete factorization of `a`: the last stage of a run of
    /// `D` steps, with the row order and the sign that its pivot rows give.
    pub open spec fn factors_of<F: Fn(Operation) -> u64>(
        &self,
        ops: &F,
        a: Matrix<D>,
        tol: u64,
    ) -> bool {
        &&& self.wf()
        &&& self.tolerance() == tol
        &&& exists|stages: Seq<Matrix<D>>, choice: Seq<int>|
            {
                &&& #[trigger] lu_run(ops, a, tol, stages, choice, D as int)
                &&& stages[D as int] == self.factors()
                &&& self.pivots() == order_after(D as nat, choice)
                &&& self.sign() == sign_after(choice)
            }
    }

    /// What `factor` may return for `a` and `tol`: a complete factorization,
    /// or the failure at which a run of steps stops.
    pub open spec fn factor_outcome<F: Fn(Operation) -> u64>(
        ops: &F,
        a: Matrix<D>,
        tol: u64,
        r: Result<Self, LaError>,
    ) -> bool {
        match r {
            Ok(lu) => lu.factors_of(ops, a, tol),
            Err(e) => lu_fails(ops, a, tol, e),
        }
    }

    /// A factorization whose rows stand in their natural order exchanged
    /// nothing: its sign is plus one.
    pub proof fn lemma_natural_order_sign(&self)
        requires
            self.wf(),
            self.pivots() == identity_order(D as nat),
        ensures
            self.sign() == ONE,
    {
        let choice = choose|choice: Seq<int>| #[trigger]
            records_exchanges(D as nat, choice, self.pivots(), self.sign());
        lemma_natural_order_means_no_exchange(D as nat, choice);
    }

    /// Factor `a` by Gaussian elimination with partial pivoting.
    ///
    /// Column by column: the pivot search of `select_pivot`, a row exchange
    /// where the pivot is not on the diagonal, then `eliminate_column`.
    ///
    /// A factorization that is returned is the end of a complete run of
    /// steps from `a`; a failure is the stop of a run at the failure's
    /// column. The first column's pivot search decides alone whether the
    /// factorization fails before any arithmetic.
    pub fn factor<F: Fn(Operation) -> u64>(a: Matrix<D>, tol: u64, ops: &F) -> (r: Result<
        Self,
        LaError,
    >)
        requires
            total(ops),
        ensures
            Self::factor_outcome(ops, a, tol, r),
            match r {
                Ok(lu) => first_gate(a, tol) is None,
                Err(e) => first_gate(a, tol) is Some ==> first_gate(a, tol) == Some(e),
            },
            D > 0 && !finite(a.at(0, 0)) ==> r == Err::<Self, LaError>(
                LaError::NonFinite { pivot_col: 0 },
            ),
    {
        proof {
            if D > 0 && !finite(a.at(0, 0)) {
                lemma_first_pivot_not_finite(a, tol);
            }
        }
        let mut lu = a;
        let mut piv: [usize; D] = [0usize;D];
        let mut i: usize = 0;
        while i < D
            invariant
                i <= D,
                forall|j: int| 0 <= j < i ==> piv@[j] == j,
            decreases D - i,
        {
            piv[i] = i;
            i += 1;
        }
        assert(piv@ =~= identity_order(D as nat));
        let mut piv_sign: u64 = ONE;
        let ghost mut choice: Seq<int> = Seq::empty();
        let ghost mut stages: Seq<Matrix<D>> = seq![a];
        let mut k: usize = 0;
        while k < D
            invariant
                k <= D,
                total(ops),
                forall|j: int| 0 <= j < k ==> j <= #[trigger] choice[j] < D,
                lu_run(ops, a, tol, stages, choice, k as int),
                stages[k as int] == lu,
                piv@ == order_after(D as nat, choice),
                piv_sign == sign_after(choice),
                piv_sign == ONE || piv_sign == NEG_ONE,
                is_permutation(piv@, D as nat),
                eliminated(lu, k as int, tol),
                k > 0 ==> first_gate(a, tol) is None,
                D > 0 && !finite(a.at(0, 0)) ==> first_gate(a, tol) == Some(
                    LaError::NonFinite { pivot_col: 0 },
                ),
            decreases D - k,
        {
            let p: usize = match select_pivot(&lu, k, tol) {
                Ok(p) => p,
                Err(e) => {
                    assert(lu_stops(ops, stages[k as int], k as int, tol, e));
                    return Err(e);
                },
            };
            let ghost before = lu;
            let ghost order = piv@;
            if p != k {
                lu.swap_rows(k, p);
                let at_k: usize = piv[k];
                let at_p: usize = piv[p];
                piv[k] = at_p;
                piv[p] = at_k;
                piv_sign = neg(piv_sign);
            }
            let ghost pivoted = lu;
            proof {
                assert(piv@ =~= exchange(order, k as int, p as int));
                assert(choice.push(p as int).drop_last() =~= choice);
                assert(rows_exchanged(before, pivoted, k as int, p as int));
                assert(pivoted.at(k as int, k as int) == before.at(p as int, k as int));
                assert(finite(before.at(p as int, k as int)));
                assert(eliminated(pivoted, k as int, tol));
            }
            match eliminate_column(&mut lu, k, ops) {
                Ok(_) => {},
                Err(e) => {
                    assert(pivoted_elimination_stops(ops, before, k as int, tol));
                    assert(lu_stops(ops, stages[k as int], k as int, tol, e));
                    return Err(e);
                },
            }
            proof {
                assert(column_eliminated(ops, pivoted, lu, k as int));
                assert(lu_step(ops, tol, before, p as int, lu, k as int));
                let longer = stages.push(lu);
                let chosen = choice.push(p as int);
                assert forall|j: int| 0 <= j < k + 1 implies lu_step(
                    ops,
                    tol,
                    longer[j],
                    #[trigger] chosen[j],
                    longer[j + 1],
                    j,
                ) by {
                    if j < k {
                        assert(lu_step(ops, tol, stages[j], choice[j], stages[j + 1], j));
                    }
                }
                assert(eliminated(lu, k + 1, tol)) by {
                    assert(lu.at(k as int, k as int) == pivoted.at(k as int, k as int));
                }
                stages = longer;
                choice = chosen;
            }
            k += 1;
        }
        proof {
            let made = Lu { factors: lu, piv, piv_sign, tol };
            assert(records_exchanges(D as nat, choice, made.pivots(), made.sign()));
            assert(lu_run(ops, a, tol, stages, choice, D as int));
            assert(made.factors_of(ops, a, tol));
        }
        Ok(Lu { factors: lu, piv, piv_sign, tol })
    }

    /// Reorder a right-hand side as the factorization reordered the rows:
    /// entry `i` of the result is entry `pivots()[i]` of `b`.
    pub fn permute(&self, b: Vector<D>) -> (x: Vector<D>)
        ensures
            x@ == permuted(b@, self.pivots()),
    {
        proof {
            use_type_invariant(self);
        }
        let mut x: [u64; D] = [ZERO;D];
        let mut i: usize = 0;
        while i < D
            invariant
                i <= D,
                is_permutation(self.piv@, D as nat),
                forall|j: int| 0 <= j < i ==> x@[j] == b@[self.piv@[j] as int],
            decreases D - i,
        {
            let from: usize = self.piv[i];
            assert(self.piv@[i as int] < D);
            x[i] = b.data[from];
            i += 1;
        }
        assert(x@ =~= permuted(b@, self.pivots()));
        Vector::new(x)
    }

    /// `x` solves `A x = b` through this factorization: with `y` the forward
    /// solution of L for the permuted right-hand side, every row of U is
    /// solved backward from `y` to `x`.
    pub open spec fn solves<F: Fn(Operation) -> u64>(
        &self,
        ops: &F,
        b: Seq<u64>,
        x: Seq<u64>,
    ) -> bool {
        exists|y: Seq<u64>|
            {
                &&& #[trigger] forward_solved(
                    ops,
                    self.factors(),
                    permuted(b, self.pivots()),
                    y,
                    D as int,
                )
                &&& upper_solved(ops, self.factors(), y, x, 0)
            }
    }

    /// The solve of `A x = b` stops at row `i`: the forward pass stops
    /// there, or the forward pass has a solution from which the backward
    /// pass stops there.
    pub open spec fn stops<F: Fn(Operation) -> u64>(&self, ops: &F, b: Seq<u64>, i: int) -> bool {
        ||| forward_stops(ops, self.factors(), permuted(b, self.pivots()), i)
        ||| exists|y: Seq<u64>|
            {
                &&& #[trigger] forward_solved(
                    ops,
                    self.factors(),
                    permuted(b, self.pivots()),
                    y,
                    D as int,
                )
                &&& upper_stops(ops, self.factors(), y, i)
            }
    }

    /// What `solve_vec` may return for the right-hand side `b`: a solution,
    /// or `NonFinite` at a row where the solve stops.
    pub open spec fn solve_outcome<F: Fn(Operation) -> u64>(
        &self,
        ops: &F,
        b: Seq<u64>,
        r: Result<Vector<D>, LaError>,
    ) -> bool {
        match r {
            Ok(x) => self.solves(ops, b, x@),
            Err(e) => e is NonFinite && 0 <= e.column() < D && self.stops(
                ops,
                b,
                e.column() as int,
            ),
        }
    }

    /// Solve `A x = b` using this LU factorization.
    ///
    /// The right-hand side is permuted, then L is solved forward (unit
    /// diagonal) and U backward from the last row up: a fused run over the
    /// entries right of the diagonal, then one quotient by the diagonal. A
    /// sum that is not finite fails with `NonFinite` at its row, and the
    /// diagonal is examined again before each division.
    ///
    /// The only failure is `NonFinite` with a row below `D`: the
    /// factorization holds finite pivots above its tolerance, so `Singular`
    /// is never reported. A permuted right-hand side whose first entry is
    /// not finite fails at row 0.
    pub fn solve_vec<F: Fn(Operation) -> u64>(&self, b: Vector<D>, ops: &F) -> (r: Result<
        Vector<D>,
        LaError,
    >)
        requires
            total(ops),
        ensures
            self.solve_outcome(ops, b@, r),
            D > 0 && !finite(b@[self.pivots()[0] as int]) ==> r == Err::<Vector<D>, LaError>(
                LaError::NonFinite { pivot_col: 0 },
            ),
    {
        proof {
            use_type_invariant(self);
        }
        let rhs = self.permute(b);
        let y = match forward_substitute(&self.factors, rhs, ops) {
            Ok(y) => y,
            Err(e) => {
                proof {
                    if D > 0 && !finite(b@[self.pivots()[0] as int]) {
                        lemma_first_row_stops(ops, self.factors, rhs@, e.column() as int);
                    }
                }
                return Err(e);
            },
        };
        proof {
            if D > 0 {
                lemma_first_row_solved(ops, self.factors, rhs@, y@);
            }
        }
        let mut x: [u64; D] = y.data;
        let mut left: usize = D;
        while left > 0
            invariant
                left <= D,
                total(ops),
                D > 0 ==> finite(b@[self.pivots()[0] as int]),
                eliminated(self.factors, D as int, self.tol),
                rhs@ == permuted(b@, self.piv@),
                forward_solved(ops, self.factors, rhs@, y@, D as int),
                forall|j: int| 0 <= j < left ==> x@[j] == y@[j],
                upper_solved(ops, self.factors, y@, x@, left as int),
            decreases left,
        {
            let i: usize = left - 1;
            let mut sum: u64 = x[i];
            let mut j: usize = i + 1;
            proof {
                lemma_chain_empty(
                    ops,
                    fused_steps(neg_row(self.factors, i as int), x@),
                    i + 1,
                    sum,
                );
            }
            while j < D
                invariant
                    i < j <= D,
                    total(ops),
                    chain(
                        ops,
                        fused_steps(neg_row(self.factors, i as int), x@),
                        i + 1,
                        j as int,
                        y@[i as int],
                        sum,
                    ),
                decreases D - j,
            {
                let next: u64 = ask(
                    ops,
                    Operation::FusedMulAdd(neg(self.factors.rows[i][j]), x[j], sum),
                );
                proof {
                    lemma_chain_extend(
                        ops,
                        fused_steps(neg_row(self.factors, i as int), x@),
                        i + 1,
                        j as int,
                        y@[i as int],
                        sum,
                        next,
                    );
                }
                sum = next;
                j += 1;
            }
            let diag: u64 = self.factors.rows[i][i];
            assert(finite(self.factors.at(i as int, i as int)));
            if !is_finite(diag) || !is_finite(sum) {
                proof {
                    assert(upper_solved(ops, self.factors, y@, x@, i + 1));
                    assert(upper_stops(ops, self.factors, y@, i as int));
                }
                return Err(LaError::NonFinite { pivot_col: i });
            }
            if le(abs(diag), self.tol) {
                return Err(LaError::Singular { pivot_col: i });
            }
            let ghost before = x@;
            let q: u64 = ask(ops, Operation::Quotient(sum, diag));
            x[i] = q;
            proof {
                assert forall|r: int| i <= r < D implies #[trigger] upper_row_solved(
                    ops,
                    self.factors,
                    y@,
                    x@,
                    r,
                ) by {
                    if r == i {
                        lemma_fused_frame(
                            ops,
                            neg_row(self.factors, r),
                            before,
                            x@,
                            r + 1,
                            D as int,
                            y@[r],
                            sum,
                        );
                    } else {
                        assert(upper_row_solved(ops, self.factors, y@, before, r));
                        let s = choose|s: u64|
                            (#[trigger] chain(
                                ops,
                                fused_steps(neg_row(self.factors, r), before),
                                r + 1,
                                D as int,
                                y@[r],
                                s,
                            )) && finite(s) && answers(
                                ops,
                                Operation::Quotient(s, self.factors.at(r, r)),
                                before[r],
                            );
                        lemma_fused_frame(
                            ops,
                            neg_row(self.factors, r),
                            before,
                            x@,
                            r + 1,
                            D as int,
                            y@[r],
                            s,
                        );
                    }
                }
            }
            left = i;
        }
        Ok(Vector::new(x))
    }

    /// `r` is a determinant of this factorization: the end of the run of
    /// products that multiplies the sign by the diagonal entries of U, first
    /// to last.
    pub open spec fn has_det<F: Fn(Operation) -> u64>(&self, ops: &F, r: u64) -> bool {
        chain(ops, product_steps(diagonal(self.factors())), 0, D as int, self.sign(), r)
    }

    /// Determinant of the factored matrix: the sign of the row permutation
    /// multiplied by the diagonal entries of U, first to last.
    pub fn det<F: Fn(Operation) -> u64>(&self, ops: &F) -> (r: u64)
        requires
            total(ops),
        ensures
            self.has_det(ops, r),
    {
        let mut det: u64 = self.piv_sign;
        let mut i: usize = 0;
        proof {
            lemma_chain_empty(ops, product_steps(diagonal(self.factors)), 0, det);
        }
        while i < D
            invariant
                i <= D,
                total(ops),
                chain(ops, product_steps(diagonal(self.factors)), 0, i as int, self.piv_sign, det),
            decreases D - i,
        {
            let next: u64 = ask(ops, Operation::Product(det, self.factors.rows[i][i]));
            proof {
                lemma_chain_extend(
                    ops,
                    product_steps(diagonal(self.factors)),
                    0,
                    i as int,
                    self.piv_sign,
                    det,
                    next,
                );
            }
            det = next;
            i += 1;
        }
        det
    }
}

} // verus!
