//! LDLT factorization (`A = L D Lᵀ`) without pivoting, for symmetric
//! positive definite and positive semi-definite matrices, and the solves
//! and determinant built on it.
//!
//! Only the lower triangle of the input, diagonal included, is read.
//! Symmetry and definiteness are the caller's business: a matrix that has
//! neither can still pass every check.

use crate::arith::{
    ask, chain, fused_steps, lemma_chain_empty, lemma_chain_extend, lemma_fused_frame,
    product_steps, total, Operation,
};
use crate::binary64::{finite, is_finite, nan, neg, negative, rank, ONE};
use crate::error::LaError;
use crate::ldlt::diagonal::{
    check_diagonal, diagonal_failure, diagonal_solved, diagonal_stops, first_check,
};
use crate::ldlt::reduction::{
    column_reduced, column_reduced_with, reduce_column, reduced, reduction_stops,
};
use crate::ldlt::transpose::{transpose_solved, transpose_stops};
use crate::matrix::Matrix;
use crate::substitution::{
    diagonal, forward_solved, forward_stops, forward_substitute, lemma_first_row_solved,
    lemma_first_row_stops, neg_column,
};
use crate::vector::Vector;
use vstd::prelude::*;

pub mod diagonal;
pub mod diagonal_matrix;
pub mod reduction;
pub mod repeat;
pub mod transpose;

verus! {

/// Step `j` of a run of stages: the diagonal entry of column `j` passes its
/// check, and the next stage is the stage with column `j` reduced.
pub open spec fn ldlt_step_at<F: Fn(Operation) -> u64, const D: usize>(
    ops: &F,
    tol: u64,
    stages: Seq<Matrix<D>>,
    j: int,
) -> bool {
    &&& diagonal_failure(stages[j], j, tol) is None
    &&& column_reduced(ops, stages[j], stages[j + 1], j)
}

/// The first `n` steps of the factorization of `a`: `stages` lists the
/// matrix before each step and after the last.
pub open spec fn ldlt_run<F: Fn(Operation) -> u64, const D: usize>(
    ops: &F,
    a: Matrix<D>,
    tol: u64,
    stages: Seq<Matrix<D>>,
    n: int,
) -> bool {
    &&& 0 <= n <= D
    &&& stages.len() == n + 1
    &&& stages[0] == a
    &&& forall|j: int| 0 <= j < n ==> #[trigger] ldlt_step_at(ops, tol, stages, j)
}

/// The factorization stops at column `j` of `m` with the failure `e`: the
/// diagonal check fails with it, or the check passes and the reduction
/// stops on a result that is not finite.
pub open spec fn ldlt_stops<F: Fn(Operation) -> u64, const D: usize>(
    ops: &F,
    m: Matrix<D>,
    j: int,
    tol: u64,
    e: LaError,
) -> bool {
    &&& 0 <= j < D
    &&& e.column() == j
    &&& diagonal_failure(m, j, tol) == Some(e) || (diagonal_failure(m, j, tol) is None && e
        is NonFinite && reduction_stops(ops, m, j))
}

/// The factorization of `a` fails with `e`: a run of the steps before
/// column `e.column()` exists, and it stops there with `e`.
pub open spec fn ldlt_fails<F: Fn(Operation) -> u64, const D: usize>(
    ops: &F,
    a: Matrix<D>,
    tol: u64,
    e: LaError,
) -> bool {
    exists|stages: Seq<Matrix<D>>|
        {
            &&& #[trigger] ldlt_run(ops, a, tol, stages, e.column() as int)
            &&& ldlt_stops(ops, stages[e.column() as int], e.column() as int, tol, e)
        }
}

/// After a forward pass that has a solution, the solve of `A x = b` stops
/// at row `i` in the diagonal pass.
pub open spec fn diagonal_pass_stops<F: Fn(Operation) -> u64, const D: usize>(
    ops: &F,
    m: Matrix<D>,
    b: Seq<u64>,
    i: int,
) -> bool {
    exists|y: Seq<u64>|
        {
            &&& #[trigger] forward_solved(ops, m, b, y, D as int)
            &&& diagonal_stops(ops, m, y, i)
        }
}

/// After a forward pass and a diagonal pass that have solutions, the solve
/// of `A x = b` stops at row `i` in the backward pass.
pub open spec fn backward_pass_stops<F: Fn(Operation) -> u64, const D: usize>(
    ops: &F,
    m: Matrix<D>,
    b: Seq<u64>,
    i: int,
) -> bool {
    exists|y: Seq<u64>, z: Seq<u64>|
        {
            &&& #[trigger] diagonal_solved(ops, m, y, z, D as int)
            &&& forward_solved(ops, m, b, y, D as int)
            &&& transpose_stops(ops, m, z, i)
        }
}

/// LDLT factorization (`A = L D Lᵀ`) for symmetric positive (semi)definite
/// matrices, without pivoting.
///
/// The factors share one matrix: D is on the diagonal, the strict lower
/// triangle holds the multipliers of L, whose diagonal is implicitly one,
/// and the upper triangle is left as it came.
#[derive(Clone, Copy, Debug)]
pub struct Ldlt<const D: usize> {
    factors: Matrix<D>,
    tol: u64,
}

impl<const D: usize> Ldlt<D> {
    /// The combined storage of D and L.
    pub closed spec fn factors(&self) -> Matrix<D> {
        self.factors
    }

    /// The tolerance that the factorization was made with.
    pub closed spec fn tolerance(&self) -> u64 {
        self.tol
    }

    /// What holds of every factorization: every diagonal entry is finite
    /// and above the tolerance, and every multiplier is finite.
    pub open spec fn wf(&self) -> bool {
        reduced(self.factors(), D as int, self.tolerance())
    }

    #[verifier::type_invariant]
    spec fn inv(self) -> bool {
        self.wf()
    }

    /// `self` is a complete factorization of `a`: the last stage of a run
    /// of `D` steps.
    pub open spec fn factors_of<F: Fn(Operation) -> u64>(
        &self,
        ops: &F,
        a: Matrix<D>,
        tol: u64,
    ) -> bool {
        &&& self.wf()
        &&& self.tolerance() == tol
        &&& exists|stages: Seq<Matrix<D>>|
            (#[trigger] ldlt_run(ops, a, tol, stages, D as int)) && stages[D as int]
                == self.factors()
    }

    /// What `factor` may return for `a` and `tol`: a complete factorization,
    /// or the failure at which a run of steps stops.
    pub open spec fn factor_outcome<F: Fn(Operation) -> u64>(
        ops: &F,
        a: Matrix<D>,
        tol: u64,
        r: Result<Self, LaError>,
    ) -> bool {
        match r {
            Ok(f) => f.factors_of(ops, a, tol),
            Err(e) => ldlt_fails(ops, a, tol, e),
        }
    }

    /// With a tolerance that is neither negative nor a NaN, every entry of
    /// D is positive: finite, above the tolerance, and so above zero.
    pub proof fn lemma_diagonal_positive(&self, i: int)
        requires
            self.wf(),
            0 <= i < D,
            !nan(self.tolerance()),
            rank(self.tolerance()) >= 0,
        ensures
            finite(self.factors().at(i, i)),
            !negative(self.factors().at(i, i)),
            rank(self.factors().at(i, i)) > rank(self.tolerance()),
    {
        assert(finite(self.factors().at(i, i)));
    }

    /// Factor `a`, reading its lower triangle only.
    ///
    /// Column by column: the diagonal check of `check_diagonal`, then
    /// `reduce_column`.
    ///
    /// A factorization that is returned is the end of a complete run of
    /// steps from `a`; a failure is the stop of a run at the failure's
    /// column.
    pub fn factor<F: Fn(Operation) -> u64>(a: Matrix<D>, tol: u64, ops: &F) -> (r: Result<
        Self,
        LaError,
    >)
        requires
            total(ops),
        ensures
            Self::factor_outcome(ops, a, tol, r),
            match r {
                Ok(f) => first_check(a, tol) is None,
                Err(e) => first_check(a, tol) is Some ==> first_check(a, tol) == Some(e),
            },
            D > 0 && !finite(a.at(0, 0)) ==> r == Err::<Self, LaError>(
                LaError::NonFinite { pivot_col: 0 },
            ),
    {
        let mut f = a;
        let ghost mut stages: Seq<Matrix<D>> = seq![a];
        let mut j: usize = 0;
        while j < D
            invariant
                j <= D,
                total(ops),
                ldlt_run(ops, a, tol, stages, j as int),
                stages[j as int] == f,
                reduced(f, j as int, tol),
                j > 0 ==> first_check(a, tol) is None,
            decreases D - j,
        {
            match check_diagonal(&f, j, tol) {
                Ok(_) => {},
                Err(e) => {
                    assert(ldlt_stops(ops, stages[j as int], j as int, tol, e));
                    return Err(e);
                },
            }
            let ghost before = f;
            match reduce_column(&mut f, j, ops) {
                Ok(_) => {},
                Err(e) => {
                    assert(ldlt_stops(ops, stages[j as int], j as int, tol, e));
                    return Err(e);
                },
            }
            proof {
                let longer = stages.push(f);
                let scaled = choose|scaled: Seq<u64>| #[trigger]
                    column_reduced_with(ops, before, f, j as int, scaled);
                assert forall|i: int| 0 <= i < j + 1 implies #[trigger] ldlt_step_at(
                    ops,
                    tol,
                    longer,
                    i,
                ) by {
                    if i < j {
                        assert(ldlt_step_at(ops, tol, stages, i));
                        assert(longer[i] == stages[i]);
                        assert(longer[i + 1] == stages[i + 1]);
                    }
                }
                assert(reduced(f, j + 1, tol)) by {
                    assert(f.at(j as int, j as int) == before.at(j as int, j as int));
                }
                stages = longer;
            }
            j += 1;
        }
        proof {
            let made = Ldlt { factors: f, tol };
            assert(made.factors_of(ops, a, tol));
        }
        Ok(Ldlt { factors: f, tol })
    }

    /// `x` solves `A x = b` through this factorization: with `y` the forward
    /// solution of L for `b` and `z` the solution of the diagonal for `y`,
    /// every row of Lᵀ is solved backward from `z` to `x`.
    pub open spec fn solves<F: Fn(Operation) -> u64>(
        &self,
        ops: &F,
        b: Seq<u64>,
        x: Seq<u64>,
    ) -> bool {
        exists|y: Seq<u64>, z: Seq<u64>|
            {
                &&& #[trigger] diagonal_solved(ops, self.factors(), y, z, D as int)
                &&& forward_solved(ops, self.factors(), b, y, D as int)
                &&& transpose_solved(ops, self.factors(), z, x, 0)
            }
    }

    /// The solve of `A x = b` stops at row `i`: the forward pass stops
    /// there; or it has a solution from which the diagonal pass stops
    /// there; or the diagonal pass has a solution too, from which the
    /// backward pass stops there.
    pub open spec fn stops<F: Fn(Operation) -> u64>(&self, ops: &F, b: Seq<u64>, i: int) -> bool {
        ||| forward_stops(ops, self.factors(), b, i)
        ||| diagonal_pass_stops(ops, self.factors(), b, i)
        ||| backward_pass_stops(ops, self.factors(), b, i)
    }

    /// What `solve_vec` may return for the right-hand side `b`: a solution,
    /// or `NonFinite` at a row where the solve stops.
    pub open spec fn solve_outcome<F: Fn(Operation) -> u64>(
        &self,
        ops: &F,
        b: Seq<u64>,
        r: Result<Vector<D>, LaError>,
    ) -> bool {
        match r {
            Ok(x) => self.solves(ops, b, x@),
            Err(e) => e is NonFinite && 0 <= e.column() < D && self.stops(
                ops,
                b,
                e.column() as int,
            ),
        }
    }

    /// Solve `A x = b` using this LDLT factorization, in three passes:
    /// L forward (unit diagonal), the diagonal entry by entry, and Lᵀ
    /// backward, which reads the stored L by columns.
    ///
    /// A sum or a quotient that is not finite fails with `NonFinite` at its
    /// row, and each diagonal entry is examined again before its division.
    /// The only failure is `NonFinite` with a row below `D`: the
    /// factorization holds finite diagonal entries above its tolerance, so
    /// `Singular` is never reported. A right-hand side whose first entry is
    /// not finite fails at row 0.
    pub fn solve_vec<F: Fn(Operation) -> u64>(&self, b: Vector<D>, ops: &F) -> (r: Result<
        Vector<D>,
        LaError,
    >)
        requires
            total(ops),
        ensures
            self.solve_outcome(ops, b@, r),
            D > 0 && !finite(b@[0]) ==> r == Err::<Vector<D>, LaError>(
                LaError::NonFinite { pivot_col: 0 },
            ),
    {
        proof {
            use_type_invariant(self);
        }
        let y = match forward_substitute(&self.factors, b, ops) {
            Ok(y) => y,
            Err(e) => {
                proof {
                    if D > 0 && !finite(b@[0]) {
                        lemma_first_row_stops(ops, self.factors, b@, e.column() as int);
                    }
                }
                return Err(e);
            },
        };
        proof {
            if D > 0 {
                lemma_first_row_solved(ops, self.factors, b@, y@);
            }
        }
        let mut x: [u64; D] = y.data;
        let mut i: usize = 0;
        while i < D
            invariant
                i <= D,
                total(ops),
                D > 0 ==> finite(b@[0]),
                reduced(self.factors, D as int, self.tol),
                forward_solved(ops, self.factors, b@, y@, D as int),
                forall|j: int| i <= j < D ==> x@[j] == y@[j],
                diagonal_solved(ops, self.factors, y@, x@, i as int),
            decreases D - i,
        {
            let diag: u64 = match check_diagonal(&self.factors, i, self.tol) {
                Ok(d) => d,
                Err(e) => {
                    assert(finite(self.factors.at(i as int, i as int)));
                    return Err(e);
                },
            };
            let v: u64 = ask(ops, Operation::Quotient(x[i], diag));
            if !is_finite(v) {
                proof {
                    assert(diagonal_solved(ops, self.factors, y@, x@, i as int));
                    assert(diagonal_stops(ops, self.factors, y@, i as int));
                    assert(forward_solved(ops, self.factors(), b@, y@, D as int));
                }
                return Err(LaError::NonFinite { pivot_col: i });
            }
            x[i] = v;
            i += 1;
        }
        let ghost z = x@;
        let mut left: usize = D;
        while left > 0
            invariant
                left <= D,
                total(ops),
                z.len() == D,
                D > 0 ==> finite(b@[0]),
                forward_solved(ops, self.factors, b@, y@, D as int),
                diagonal_solved(ops, self.factors, y@, z, D as int),
                forall|j: int| 0 <= j < left ==> x@[j] == z[j],
                transpose_solved(ops, self.factors, z, x@, left as int),
            decreases left,
        {
            let i: usize = left - 1;
            let mut sum: u64 = x[i];
            let mut j: usize = i + 1;
            proof {
                lemma_chain_empty(
                    ops,
                    fused_steps(neg_column(self.factors, i as int), x@),
                    i + 1,
                    sum,
                );
            }
            while j < D
                invariant
                    i < j <= D,
                    z.len() == D,
                    total(ops),
                    chain(
                        ops,
                        fused_steps(neg_column(self.factors, i as int), x@),
                        i + 1,
                        j as int,
                        z[i as int],
                        sum,
                    ),
                decreases D - j,
            {
                let next: u64 = ask(
                    ops,
                    Operation::FusedMulAdd(neg(self.factors.rows[j][i]), x[j], sum),
                );
                proof {
                    lemma_chain_extend(
                        ops,
                        fused_steps(neg_column(self.factors, i as int), x@),
                        i + 1,
                        j as int,
                        z[i as int],
                        sum,
                        next,
                    );
                }
                sum = next;
                j += 1;
            }
            if !is_finite(sum) {
                proof {
                    assert(transpose_solved(ops, self.factors, z, x@, i + 1));
                    assert(transpose_stops(ops, self.factors, z, i as int));
                    assert(diagonal_solved(ops, self.factors(), y@, z, D as int));
                    assert(forward_solved(ops, self.factors(), b@, y@, D as int));
                }
                return Err(LaError::NonFinite { pivot_col: i });
            }
            let ghost before = x@;
            x[i] = sum;
            proof {
                assert forall|r: int| i <= r < D implies finite(#[trigger] x@[r]) && chain(
                    ops,
                    fused_steps(neg_column(self.factors, r), x@),
                    r + 1,
                    D as int,
                    z[r],
                    x@[r],
                ) by {
                    if r > i {
                        assert(finite(before[r]));
                    }
                    lemma_fused_frame(
                        ops,
                        neg_column(self.factors, r),
                        before,
                        x@,
                        r + 1,
                        D as int,
                        z[r],
                        x@[r],
                    );
                }
            }
            left = i;
        }
        proof {
            assert(diagonal_solved(ops, self.factors(), y@, z, D as int));
        }
        Ok(Vector::new(x))
    }

    /// `r` is a determinant of this factorization: the end of the run of
    /// products that multiplies one by the diagonal entries, first to last.
    pub open spec fn has_det<F: Fn(Operation) -> u64>(&self, ops: &F, r: u64) -> bool {
        chain(ops, product_steps(diagonal(self.factors())), 0, D as int, ONE, r)
    }

    /// Determinant of the factored matrix: the product of the diagonal
    /// entries of D, first to last, starting from one.
    pub fn det<F: Fn(Operation) -> u64>(&self, ops: &F) -> (r: u64)
        requires
            total(ops),
        ensures
            self.has_det(ops, r),
    {
        let mut det: u64 = ONE;
        let mut i: usize = 0;
        proof {
            lemma_chain_empty(ops, product_steps(diagonal(self.factors)), 0, det);
        }
        while i < D
            invariant
                i <= D,
                total(ops),
                chain(ops, product_steps(diagonal(self.factors)), 0, i as int, ONE, det),
            decreases D - i,
        {
            let next: u64 = ask(ops, Operation::Product(det, self.factors.rows[i][i]));
            proof {
                lemma_chain_extend(
                    ops,
                    product_steps(diagonal(self.factors)),
                    0,
                    i as int,
                    ONE,
                    det,
                    next,
                );
            }
            det = next;
            i += 1;
        }
        det
    }
}

} // verus!
