//! Fixed-size square matrices stored inline.

use crate::arith::{
    answers, ask, chain, deterministic, lemma_chain_deterministic, lemma_chain_empty,
    lemma_chain_extend, sum_steps, total, Operation,
};
use crate::binary64::{
    abs, finite, gt, gt_spec, is_zero, le, le_spec, magnitude, nan, neg, negated, negative, ONE,
    ZERO,
};
use crate::error::LaError;
use crate::ldlt::Ldlt;
use crate::ldlt::diagonal::first_check;
use crate::lu::{lu_fails, Lu};
use crate::lu::pivot::first_gate;
use vstd::prelude::*;

verus! {

/// Fixed-size square matrix `D`x`D`, stored inline in row-major order. Each
/// entry is the bit pattern of a binary64 value.
#[derive(Clone, Copy, Debug)]
pub struct Matrix<const D: usize> {
    /// The rows, top to bottom.
    pub rows: [[u64; D]; D],
}

impl<const D: usize> View for Matrix<D> {
    type V = Seq<Seq<u64>>;

    open spec fn view(&self) -> Seq<Seq<u64>> {
        Seq::new(D as nat, |r: int| self.rows@[r]@)
    }
}

impl<const D: usize> Matrix<D> {
    /// The entry in row `r`, column `c`.
    pub open spec fn at(&self, r: int, c: int) -> u64 {
        self.rows@[r]@[c]
    }

    /// Overwrite the entry in row `r`, column `c`; every other entry stays.
    pub(crate) fn put(&mut self, r: usize, c: usize, value: u64)
        requires
            r < D,
            c < D,
        ensures
            final(self).at(r as int, c as int) == value,
            forall|i: int, j: int|
                0 <= i < D && 0 <= j < D && !(i == r && j == c) ==> final(self).at(i, j) == old(
                    self,
                ).at(i, j),
    {
        self.rows[r][c] = value;
    }

    /// Exchange rows `a` and `b`; every other row stays.
    pub(crate) fn swap_rows(&mut self, a: usize, b: usize)
        requires
            a < D,
            b < D,
        ensures
            forall|c: int| 0 <= c < D ==> final(self).at(a as int, c) == old(self).at(b as int, c),
            forall|c: int| 0 <= c < D ==> final(self).at(b as int, c) == old(self).at(a as int, c),
            forall|i: int, c: int|
                0 <= i < D && 0 <= c < D && i != a && i != b ==> final(self).at(i, c) == old(
                    self,
                ).at(i, c),
    {
        let row_a = self.rows[a];
        let row_b = self.rows[b];
        self.rows[a] = row_b;
        self.rows[b] = row_a;
    }

    /// Construct from row-major storage.
    pub fn from_rows(rows: [[u64; D]; D]) -> (m: Self)
        ensures
            m.rows == rows,
    {
        Matrix { rows }
    }

    /// All-zeros matrix.
    pub fn zero() -> (m: Self)
        ensures
            forall|r: int, c: int| 0 <= r < D && 0 <= c < D ==> m.at(r, c) == ZERO,
    {
        Matrix { rows: [[ZERO;D];D] }
    }

    /// Identity matrix.
    pub fn identity() -> (m: Self)
        ensures
            forall|r: int, c: int|
                0 <= r < D && 0 <= c < D ==> m.at(r, c) == if r == c {
                    ONE
                } else {
                    ZERO
                },
    {
        let mut m = Self::zero();
        let mut i: usize = 0;
        while i < D
            invariant
                i <= D,
                forall|r: int, c: int|
                    0 <= r < D && 0 <= c < D ==> m.at(r, c) == if r == c && r < i {
                        ONE
                    } else {
                        ZERO
                    },
            decreases D - i,
        {
            m.put(i, i, ONE);
            i += 1;
        }
        m
    }

    /// Get an element with bounds checking.
    pub fn get(&self, r: usize, c: usize) -> (v: Option<u64>)
        ensures
            v == if r < D && c < D {
                Some(self.at(r as int, c as int))
            } else {
                None
            },
    {
        if r < D && c < D {
            Some(self.rows[r][c])
        } else {
            None
        }
    }

    /// Set an element with bounds checking.
    ///
    /// Returns `true` if the index was in-bounds; otherwise the matrix is
    /// left as it was.
    pub fn set(&mut self, r: usize, c: usize, value: u64) -> (ok: bool)
        ensures
            ok == (r < D && c < D),
            ok ==> final(self).at(r as int, c as int) == value,
            ok ==> forall|i: int, j: int|
                0 <= i < D && 0 <= j < D && !(i == r && j == c) ==> final(self).at(i, j) == old(
                    self,
                ).at(i, j),
            !ok ==> *final(self) == *old(self),
    {
        if r < D && c < D {
            self.put(r, c, value);
            true
        } else {
            false
        }
    }

    /// The magnitudes of the entries of row `i`.
    pub open spec fn abs_row(&self, i: int) -> Seq<u64> {
        Seq::new(D as nat, |j: int| magnitude(self.at(i, j)))
    }

    /// `sums` lists, row by row, a sum of the magnitudes of the row: from
    /// zero, one addition per entry, first entry to last.
    pub open spec fn row_sums<F: Fn(Operation) -> u64>(&self, ops: &F, sums: Seq<u64>) -> bool {
        &&& sums.len() == D
        &&& forall|i: int|
            0 <= i < D ==> chain(
                ops,
                sum_steps(self.abs_row(i)),
                0,
                D as int,
                ZERO,
                #[trigger] sums[i],
            )
    }

    /// `norm` is an infinity norm of the matrix: the running maximum of row
    /// sums that `row_sums` admits.
    pub open spec fn has_inf_norm<F: Fn(Operation) -> u64>(&self, ops: &F, norm: u64) -> bool {
        exists|sums: Seq<u64>|
            (#[trigger] self.row_sums(ops, sums)) && norm == largest(sums, D as int)
    }

    /// Infinity norm: the largest sum of the absolute values of a row.
    ///
    /// The row sums are those of `row_sums`; the result is the running
    /// maximum `largest` of them. It is never a NaN and never negative.
    pub fn inf_norm<F: Fn(Operation) -> u64>(&self, ops: &F) -> (r: u64)
        requires
            total(ops),
        ensures
            self.has_inf_norm(ops, r),
            !nan(r),
            r == ZERO || (!negative(r) && magnitude(r) > 0),
    {
        let mut max_row_sum: u64 = ZERO;
        let ghost mut sums: Seq<u64> = Seq::empty();
        let mut i: usize = 0;
        while i < D
            invariant
                i <= D,
                total(ops),
                sums.len() == i,
                forall|k: int|
                    0 <= k < i ==> chain(
                        ops,
                        sum_steps(self.abs_row(k)),
                        0,
                        D as int,
                        ZERO,
                        #[trigger] sums[k],
                    ),
                max_row_sum == largest(sums, i as int),
                !nan(max_row_sum),
                max_row_sum == ZERO || (!negative(max_row_sum) && magnitude(max_row_sum) > 0),
            decreases D - i,
        {
            let mut row_sum: u64 = ZERO;
            let mut j: usize = 0;
            proof {
                lemma_chain_empty(ops, sum_steps(self.abs_row(i as int)), 0, ZERO);
            }
            while j < D
                invariant
                    i < D,
                    j <= D,
                    total(ops),
                    chain(ops, sum_steps(self.abs_row(i as int)), 0, j as int, ZERO, row_sum),
                decreases D - j,
            {
                let next: u64 = ask(ops, Operation::Sum(row_sum, abs(self.rows[i][j])));
                proof {
                    lemma_chain_extend(
                        ops,
                        sum_steps(self.abs_row(i as int)),
                        0,
                        j as int,
                        ZERO,
                        row_sum,
                        next,
                    );
                }
                row_sum = next;
                j += 1;
            }
            proof {
                lemma_largest_prefix(sums, sums.push(row_sum), i as int);
                sums = sums.push(row_sum);
            }
            if gt(row_sum, max_row_sum) {
                max_row_sum = row_sum;
            }
            i += 1;
        }
        proof {
            assert(self.row_sums(ops, sums));
        }
        max_row_sum
    }

    /// Repeating `inf_norm` reproduces its result bit for bit: with a unit
    /// that gives one result per operation, a matrix has one infinity norm.
    pub proof fn lemma_inf_norm_repeatable<F: Fn(Operation) -> u64>(
        &self,
        ops: &F,
        first: u64,
        second: u64,
    )
        requires
            deterministic(ops),
            self.has_inf_norm(ops, first),
            self.has_inf_norm(ops, second),
        ensures
            first == second,
    {
        let s1 = choose|sums: Seq<u64>|
            (#[trigger] self.row_sums(ops, sums)) && first == largest(sums, D as int);
        let s2 = choose|sums: Seq<u64>|
            (#[trigger] self.row_sums(ops, sums)) && second == largest(sums, D as int);
        assert forall|i: int| 0 <= i < D implies s1[i] == s2[i] by {
            lemma_chain_deterministic(
                ops,
                sum_steps(self.abs_row(i)),
                0,
                D as int,
                ZERO,
                s1[i],
                s2[i],
            );
        }
        lemma_largest_prefix(s1, s2, D as int);
    }

    /// `eps` is a symmetry allowance of the matrix: the relative allowance
    /// `SYMMETRY_TOL` times the infinity norm, or times one where the norm
    /// is not greater than one.
    pub open spec fn has_allowance<F: Fn(Operation) -> u64>(&self, ops: &F, eps: u64) -> bool {
        exists|norm: u64|
            (#[trigger] self.has_inf_norm(ops, norm)) && answers(
                ops,
                Operation::Product(
                    SYMMETRY_TOL,
                    if gt_spec(norm, ONE) {
                        norm
                    } else {
                        ONE
                    },
                ),
                eps,
            )
    }

    /// `diff` is a difference of the entry `(r, c)` and its mirror image
    /// `(c, r)`.
    pub open spec fn has_asymmetry<F: Fn(Operation) -> u64>(
        &self,
        ops: &F,
        r: int,
        c: int,
        diff: u64,
    ) -> bool {
        answers(ops, Operation::Sum(self.at(r, c), negated(self.at(c, r))), diff)
    }

    /// The entry `(r, c)` and its mirror image differ by at most `eps` in
    /// magnitude.
    pub open spec fn mirrored_within<F: Fn(Operation) -> u64>(
        &self,
        ops: &F,
        r: int,
        c: int,
        eps: u64,
    ) -> bool {
        exists|diff: u64|
            (#[trigger] self.has_asymmetry(ops, r, c, diff)) && le_spec(magnitude(diff), eps)
    }

    /// The entry `(r, c)` and its mirror image differ by more than `eps` in
    /// magnitude, or their difference is a NaN.
    pub open spec fn mirrored_beyond<F: Fn(Operation) -> u64>(
        &self,
        ops: &F,
        r: int,
        c: int,
        eps: u64,
    ) -> bool {
        exists|diff: u64|
            (#[trigger] self.has_asymmetry(ops, r, c, diff)) && !le_spec(magnitude(diff), eps)
    }

    /// Whether the matrix is symmetric up to round-off: every entry above
    /// the diagonal, rows top to bottom and each left to right, is compared
    /// with its mirror image against one allowance, and the first pair
    /// beyond it answers `false`.
    pub fn is_symmetric<F: Fn(Operation) -> u64>(&self, ops: &F) -> (ok: bool)
        requires
            total(ops),
        ensures
            exists|eps: u64|
                (#[trigger] self.has_allowance(ops, eps)) && if ok {
                    forall|r: int, c: int|
                        0 <= r < c < D ==> #[trigger] self.mirrored_within(ops, r, c, eps)
                } else {
                    exists|r: int, c: int|
                        0 <= r < c < D && #[trigger] self.mirrored_beyond(ops, r, c, eps)
                },
    {
        let norm: u64 = self.inf_norm(ops);
        let scale: u64 = if gt(norm, ONE) {
            norm
        } else {
            ONE
        };
        let eps: u64 = ask(ops, Operation::Product(SYMMETRY_TOL, scale));
        proof {
            assert(self.has_inf_norm(ops, norm));
            assert(self.has_allowance(ops, eps));
        }
        let mut r: usize = 0;
        while r < D
            invariant
                r <= D,
                total(ops),
                self.has_allowance(ops, eps),
                forall|i: int, j: int|
                    0 <= i < r && i < j < D ==> #[trigger] self.mirrored_within(ops, i, j, eps),
            decreases D - r,
        {
            let mut c: usize = r + 1;
            while c < D
                invariant
                    r < c <= D,
                    total(ops),
                    self.has_allowance(ops, eps),
                    forall|i: int, j: int|
                        0 <= i < r && i < j < D ==> #[trigger] self.mirrored_within(ops, i, j, eps),
                    forall|j: int|
                        r < j < c ==> #[trigger] self.mirrored_within(ops, r as int, j, eps),
                decreases D - c,
            {
                let diff: u64 = ask(ops, Operation::Sum(self.rows[r][c], neg(self.rows[c][r])));
                proof {
                    assert(self.has_asymmetry(ops, r as int, c as int, diff));
                }
                if !le(abs(diff), eps) {
                    proof {
                        assert(self.mirrored_beyond(ops, r as int, c as int, eps));
                    }
                    return false;
                }
                proof {
                    assert(self.mirrored_within(ops, r as int, c as int, eps));
                }
                c += 1;
            }
            r += 1;
        }
        true
    }

    /// Compute an LU decomposition with partial pivoting.
    ///
    /// Fails with `Singular` where no entry of a column, from the diagonal
    /// down, exceeds `tol` in magnitude, and with `NonFinite` where a NaN or
    /// an infinity is met; see `Lu::factor`.
    pub fn lu<F: Fn(Operation) -> u64>(self, tol: u64, ops: &F) -> (r: Result<Lu<D>, LaError>)
        requires
            total(ops),
        ensures
            Lu::factor_outcome(ops, self, tol, r),
            match r {
                Ok(lu) => first_gate(self, tol) is None,
                Err(e) => first_gate(self, tol) is Some ==> first_gate(self, tol) == Some(e),
            },
            D > 0 && !finite(self.at(0, 0)) ==> r == Err::<Lu<D>, LaError>(
                LaError::NonFinite { pivot_col: 0 },
            ),
    {
        Lu::factor(self, tol, ops)
    }

    /// Compute an LDLT decomposition without pivoting, reading the lower
    /// triangle only.
    ///
    /// Fails with `Singular` where a diagonal entry is at or below `tol`,
    /// and with `NonFinite` where a NaN or an infinity is met; see
    /// `Ldlt::factor`.
    pub fn ldlt<F: Fn(Operation) -> u64>(self, tol: u64, ops: &F) -> (r: Result<
        Ldlt<D>,
        LaError,
    >)
        requires
            total(ops),
        ensures
            Ldlt::factor_outcome(ops, self, tol, r),
            match r {
                Ok(f) => first_check(self, tol) is None,
                Err(e) => first_check(self, tol) is Some ==> first_check(self, tol) == Some(e),
            },
            D > 0 && !finite(self.at(0, 0)) ==> r == Err::<Ldlt<D>, LaError>(
                LaError::NonFinite { pivot_col: 0 },
            ),
    {
        Ldlt::factor(self, tol, ops)
    }

    /// What `det` may return for the tolerance `tol`: a determinant of a
    /// complete LU factorization, or the failure of the factorization.
    pub open spec fn det_outcome<F: Fn(Operation) -> u64>(
        &self,
        ops: &F,
        tol: u64,
        r: Result<u64, LaError>,
    ) -> bool {
        match r {
            Ok(d) => exists|lu: Lu<D>|
                (#[trigger] lu.factors_of(ops, *self, tol)) && lu.has_det(ops, d),
            Err(e) => lu_fails(ops, *self, tol, e),
        }
    }

    /// Determinant computed via LU decomposition: the determinant of a
    /// complete factorization, or the failure of the factorization.
    pub fn det<F: Fn(Operation) -> u64>(self, tol: u64, ops: &F) -> (r: Result<u64, LaError>)
        requires
            total(ops),
        ensures
            self.det_outcome(ops, tol, r),
            match r {
                Ok(d) => first_gate(self, tol) is None,
                Err(e) => first_gate(self, tol) is Some ==> first_gate(self, tol) == Some(e),
            },
            D > 0 && !finite(self.at(0, 0)) ==> r == Err::<u64, LaError>(
                LaError::NonFinite { pivot_col: 0 },
            ),
    {
        match self.lu(tol, ops) {
            Ok(lu) => Ok(lu.det(ops)),
            Err(e) => Err(e),
        }
    }

    /// Repeating `det` reproduces its outcome bit for bit: with a unit that
    /// gives one result per operation, `det_outcome` admits one result.
    pub proof fn lemma_det_outcome_unique<F: Fn(Operation) -> u64>(
        &self,
        ops: &F,
        tol: u64,
        first: Result<u64, LaError>,
        second: Result<u64, LaError>,
    )
        requires
            deterministic(ops),
            self.det_outcome(ops, tol, first),
            self.det_outcome(ops, tol, second),
        ensures
            first == second,
    {
        match (first, second) {
            (Ok(d1), Ok(d2)) => {
                let f = choose|lu: Lu<D>|
                    (#[trigger] lu.factors_of(ops, *self, tol)) && lu.has_det(ops, d1);
                let g = choose|lu: Lu<D>|
                    (#[trigger] lu.factors_of(ops, *self, tol)) && lu.has_det(ops, d2);
                crate::lu::repeat::lemma_factor_outcome_unique(ops, *self, tol, Ok(f), Ok(g));
                f.lemma_det_repeatable(ops, d1, d2);
            },
            (Ok(d), Err(e)) => {
                let f = choose|lu: Lu<D>|
                    (#[trigger] lu.factors_of(ops, *self, tol)) && lu.has_det(ops, d);
                crate::lu::repeat::lemma_factor_outcome_unique(ops, *self, tol, Ok(f), Err(e));
            },
            (Err(e), Ok(d)) => {
                let f = choose|lu: Lu<D>|
                    (#[trigger] lu.factors_of(ops, *self, tol)) && lu.has_det(ops, d);
                crate::lu::repeat::lemma_factor_outcome_unique(ops, *self, tol, Ok(f), Err(e));
            },
            (Err(e1), Err(e2)) => {
                crate::lu::repeat::lemma_factor_outcome_unique(
                    ops,
                    *self,
                    tol,
                    Err::<Lu<D>, LaError>(e1),
                    Err::<Lu<D>, LaError>(e2),
                );
            },
        }
    }
}

/// The relative allowance of the symmetry check: the pattern of `1e-12`.
pub const SYMMETRY_TOL: u64 = 0x3D71_9799_812D_EA11;

/// Every entry of `m` off the diagonal is a zero.
pub open spec fn is_diagonal<const D: usize>(m: Matrix<D>) -> bool {
    forall|r: int, c: int| 0 <= r < D && 0 <= c < D && r != c ==> is_zero(#[trigger] m.at(r, c))
}

/// `m` and `a` have the same diagonal.
pub open spec fn same_diagonal<const D: usize>(m: Matrix<D>, a: Matrix<D>) -> bool {
    forall|i: int| 0 <= i < D ==> #[trigger] m.at(i, i) == a.at(i, i)
}

/// Two matrices with the same entries are the same matrix.
pub proof fn lemma_same_entries<const D: usize>(a: Matrix<D>, b: Matrix<D>)
    requires
        forall|r: int, c: int| 0 <= r < D && 0 <= c < D ==> #[trigger] a.at(r, c) == b.at(r, c),
    ensures
        a == b,
{
    assert forall|r: int| 0 <= r < D implies #[trigger] a.rows@[r] == b.rows@[r] by {
        assert forall|c: int| 0 <= c < D implies a.rows@[r]@[c] == b.rows@[r]@[c] by {
            assert(a.at(r, c) == b.at(r, c));
        }
        assert(a.rows@[r] =~= b.rows@[r]);
    }
    assert(a.rows =~= b.rows);
}

/// The running maximum of the first `n` entries of `sums`, from zero: an
/// entry replaces the maximum only when it compares greater, so a NaN never
/// does.
pub open spec fn largest(sums: Seq<u64>, n: int) -> u64
    decreases n,
{
    if n <= 0 {
        ZERO
    } else {
        let before = largest(sums, n - 1);
        if gt_spec(sums[n - 1], before) {
            sums[n - 1]
        } else {
            before
        }
    }
}

/// The running maximum of the first `n` entries looks at no other entry.
pub proof fn lemma_largest_prefix(s1: Seq<u64>, s2: Seq<u64>, n: int)
    requires
        forall|j: int| 0 <= j < n ==> s1[j] == s2[j],
    ensures
        largest(s1, n) == largest(s2, n),
    decreases n,
{
    if n > 0 {
        lemma_largest_prefix(s1, s2, n - 1);
    }
}

impl<const D: usize> Default for Matrix<D> {
    fn default() -> (m: Self)
        ensures
            forall|r: int, c: int| 0 <= r < D && 0 <= c < D ==> m.at(r, c) == ZERO,
    {
        Self::zero()
    }
}

} // verus!
