//! Forward substitution through a unit lower triangle, shared by both
//! factorizations.

use crate::arith::{
    ask, chain, deterministic, fused_steps, lemma_chain_deterministic, lemma_chain_empty,
    lemma_chain_extend, lemma_fused_frame, total, Operation,
};
use crate::binary64::{finite, is_finite, neg, negated};
use crate::error::LaError;
use crate::matrix::Matrix;
use crate::vector::Vector;
use vstd::prelude::*;

verus! {

/// Row `i` of `m`, each entry negated.
pub open spec fn neg_row<const D: usize>(m: Matrix<D>, i: int) -> Seq<u64> {
    Seq::new(D as nat, |j: int| negated(m.at(i, j)))
}

/// Column `i` of `m`, each entry negated.
pub open spec fn neg_column<const D: usize>(m: Matrix<D>, i: int) -> Seq<u64> {
    Seq::new(D as nat, |j: int| negated(m.at(j, i)))
}

/// The diagonal of `m`.
pub open spec fn diagonal<const D: usize>(m: Matrix<D>) -> Seq<u64> {
    Seq::new(D as nat, |i: int| m.at(i, i))
}

/// Rows `0..n` of `L y = rhs` are solved, L being the unit lower triangle
/// stored below the diagonal of `m`: `y[i]` is finite and is the end of the
/// fused run that subtracts from `rhs[i]`, for `j` from 0 up to `i - 1`,
/// the product of `m[i][j]` and `y[j]`.
pub open spec fn forward_solved<F: Fn(Operation) -> u64, const D: usize>(
    ops: &F,
    m: Matrix<D>,
    rhs: Seq<u64>,
    y: Seq<u64>,
    n: int,
) -> bool {
    forall|i: int|
        0 <= i < n ==> finite(#[trigger] y[i]) && chain(
            ops,
            fused_steps(neg_row(m, i), y),
            0,
            i,
            rhs[i],
            y[i],
        )
}

/// Forward substitution stops at row `i`: the rows above are solved, and
/// the sum of row `i` is not finite.
pub open spec fn forward_stops<F: Fn(Operation) -> u64, const D: usize>(
    ops: &F,
    m: Matrix<D>,
    rhs: Seq<u64>,
    i: int,
) -> bool {
    exists|y: Seq<u64>, s: u64|
        {
            &&& #[trigger] chain(ops, fused_steps(neg_row(m, i), y), 0, i, rhs[i], s)
            &&& forward_solved(ops, m, rhs, y, i)
            &&& !finite(s)
        }
}

/// Solve `L y = rhs` for the unit lower triangle stored below the diagonal
/// of `m`, rows first to last, each with one fused multiply-add per entry
/// left of the diagonal. Stops with `NonFinite` at the first row whose sum
/// is not finite.
pub fn forward_substitute<F: Fn(Operation) -> u64, const D: usize>(
    m: &Matrix<D>,
    rhs: Vector<D>,
    ops: &F,
) -> (r: Result<Vector<D>, LaError>)
    requires
        total(ops),
    ensures
        match r {
            Ok(y) => forward_solved(ops, *m, rhs@, y@, D as int),
            Err(e) => e is NonFinite && e.column() < D && forward_stops(
                ops,
                *m,
                rhs@,
                e.column() as int,
            ),
        },
{
    let mut x: [u64; D] = rhs.data;
    let mut i: usize = 0;
    while i < D
        invariant
            i <= D,
            total(ops),
            forall|j: int| i <= j < D ==> x@[j] == rhs@[j],
            forward_solved(ops, *m, rhs@, x@, i as int),
        decreases D - i,
    {
        let mut sum: u64 = x[i];
        let mut j: usize = 0;
        proof {
            lemma_chain_empty(ops, fused_steps(neg_row(*m, i as int), x@), 0, sum);
        }
        while j < i
            invariant
                j <= i < D,
                total(ops),
                chain(
                    ops,
                    fused_steps(neg_row(*m, i as int), x@),
                    0,
                    j as int,
                    rhs@[i as int],
                    sum,
                ),
            decreases i - j,
        {
            let next: u64 = ask(ops, Operation::FusedMulAdd(neg(m.rows[i][j]), x[j], sum));
            proof {
                lemma_chain_extend(
                    ops,
                    fused_steps(neg_row(*m, i as int), x@),
                    0,
                    j as int,
                    rhs@[i as int],
                    sum,
                    next,
                );
            }
            sum = next;
            j += 1;
        }
        if !is_finite(sum) {
            return Err(LaError::NonFinite { pivot_col: i });
        }
        let ghost before = x@;
        x[i] = sum;
        proof {
            assert forall|r: int| 0 <= r < i + 1 implies finite(#[trigger] x@[r]) && chain(
                ops,
                fused_steps(neg_row(*m, r), x@),
                0,
                r,
                rhs@[r],
                x@[r],
            ) by {
                if r < i {
                    assert(finite(before[r]));
                }
                lemma_fused_frame(ops, neg_row(*m, r), before, x@, 0, r, rhs@[r], x@[r]);
            }
        }
        i += 1;
    }
    Ok(Vector::new(x))
}

/// With a unit that gives one result per operation, forward substitution
/// has one solution: two solutions of the first `n` rows agree there.
pub proof fn lemma_forward_unique<F: Fn(Operation) -> u64, const D: usize>(
    ops: &F,
    m: Matrix<D>,
    rhs: Seq<u64>,
    first: Seq<u64>,
    second: Seq<u64>,
    n: int,
)
    requires
        deterministic(ops),
        forward_solved(ops, m, rhs, first, n),
        forward_solved(ops, m, rhs, second, n),
    ensures
        forall|i: int| 0 <= i < n ==> first[i] == second[i],
    decreases n,
{
    if n > 0 {
        lemma_forward_unique(ops, m, rhs, first, second, n - 1);
        let i = n - 1;
        assert(finite(first[i]) && finite(second[i]));
        lemma_fused_frame(ops, neg_row(m, i), first, second, 0, i, rhs[i], first[i]);
        lemma_chain_deterministic(
            ops,
            fused_steps(neg_row(m, i), second),
            0,
            i,
            rhs[i],
            first[i],
            second[i],
        );
    }
}

/// With a unit that gives one result per operation, a forward substitution
/// that solves the first `n` rows stops at none of them.
pub proof fn lemma_forward_excludes<F: Fn(Operation) -> u64, const D: usize>(
    ops: &F,
    m: Matrix<D>,
    rhs: Seq<u64>,
    y: Seq<u64>,
    n: int,
    i: int,
)
    requires
        deterministic(ops),
        0 <= i < n,
        forward_solved(ops, m, rhs, y, n),
    ensures
        !forward_stops(ops, m, rhs, i),
{
    if forward_stops(ops, m, rhs, i) {
        let (other, s) = choose|other: Seq<u64>, s: u64|
            {
                &&& #[trigger] chain(ops, fused_steps(neg_row(m, i), other), 0, i, rhs[i], s)
                &&& forward_solved(ops, m, rhs, other, i)
                &&& !finite(s)
            };
        assert(forward_solved(ops, m, rhs, y, i)) by {
            assert forall|r: int| 0 <= r < i implies finite(#[trigger] y[r]) && chain(
                ops,
                fused_steps(neg_row(m, r), y),
                0,
                r,
                rhs[r],
                y[r],
            ) by {
                assert(finite(y[r]));
            }
        }
        lemma_forward_unique(ops, m, rhs, other, y, i);
        lemma_fused_frame(ops, neg_row(m, i), other, y, 0, i, rhs[i], s);
        assert(finite(y[i]));
        lemma_chain_deterministic(ops, fused_steps(neg_row(m, i), y), 0, i, rhs[i], s, y[i]);
    }
}

/// With a unit that gives one result per operation, a forward substitution
/// stops at one row only.
pub proof fn lemma_forward_stop_is_first<F: Fn(Operation) -> u64, const D: usize>(
    ops: &F,
    m: Matrix<D>,
    rhs: Seq<u64>,
    i: int,
    j: int,
)
    requires
        deterministic(ops),
        0 <= i < D,
        0 <= j < D,
        forward_stops(ops, m, rhs, i),
    ensures
        forward_stops(ops, m, rhs, j) ==> i == j,
{
    if forward_stops(ops, m, rhs, j) {
        if i < j {
            let (y, s) = choose|y: Seq<u64>, s: u64|
                {
                    &&& #[trigger] chain(ops, fused_steps(neg_row(m, j), y), 0, j, rhs[j], s)
                    &&& forward_solved(ops, m, rhs, y, j)
                    &&& !finite(s)
                };
            lemma_forward_excludes(ops, m, rhs, y, j, i);
        } else if j < i {
            let (y, s) = choose|y: Seq<u64>, s: u64|
                {
                    &&& #[trigger] chain(ops, fused_steps(neg_row(m, i), y), 0, i, rhs[i], s)
                    &&& forward_solved(ops, m, rhs, y, i)
                    &&& !finite(s)
                };
            lemma_forward_excludes(ops, m, rhs, y, i, j);
        }
    }
}

/// The first row of a forward substitution has nothing to subtract: its
/// solution is the right-hand side's first entry, which is finite.
pub proof fn lemma_first_row_solved<F: Fn(Operation) -> u64, const D: usize>(
    ops: &F,
    m: Matrix<D>,
    rhs: Seq<u64>,
    y: Seq<u64>,
)
    requires
        D > 0,
        forward_solved(ops, m, rhs, y, D as int),
    ensures
        y[0] == rhs[0],
        finite(rhs[0]),
{
    assert(finite(y[0]));
    lemma_chain_empty(ops, fused_steps(neg_row(m, 0), y), 0, rhs[0]);
}

/// A forward substitution whose right-hand side starts with a non-finite
/// entry stops at the first row.
pub proof fn lemma_first_row_stops<F: Fn(Operation) -> u64, const D: usize>(
    ops: &F,
    m: Matrix<D>,
    rhs: Seq<u64>,
    i: int,
)
    requires
        0 <= i < D,
        !finite(rhs[0]),
        forward_stops(ops, m, rhs, i),
    ensures
        i == 0,
{
    if i > 0 {
        let (y, s) = choose|y: Seq<u64>, s: u64|
            {
                &&& #[trigger] chain(ops, fused_steps(neg_row(m, i), y), 0, i, rhs[i], s)
                &&& forward_solved(ops, m, rhs, y, i)
                &&& !finite(s)
            };
        assert(finite(y[0]));
        lemma_chain_empty(ops, fused_steps(neg_row(m, 0), y), 0, rhs[0]);
    }
}

} // verus!
