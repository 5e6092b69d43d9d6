//! Back substitution through the upper triangle.

use crate::arith::{
    answers, chain, deterministic, fused_steps, lemma_chain_deterministic, lemma_fused_frame,
    Operation,
};
use crate::binary64::finite;
use crate::matrix::Matrix;
use crate::substitution::neg_row;
use vstd::prelude::*;

verus! {

/// Row `i` of `U x = y` is solved, U being the upper triangle of `m` with
/// its diagonal: a fused run subtracts from `y[i]`, for `j` from `i + 1` up
/// to the last column, the product of `m[i][j]` and `x[j]`; its end is
/// finite, and `x[i]` is the quotient of that end by `m[i][i]`.
pub open spec fn upper_row_solved<F: Fn(Operation) -> u64, const D: usize>(
    ops: &F,
    m: Matrix<D>,
    y: Seq<u64>,
    x: Seq<u64>,
    i: int,
) -> bool {
    exists|s: u64|
        (#[trigger] chain(ops, fused_steps(neg_row(m, i), x), i + 1, D as int, y[i], s)) && finite(
            s,
        ) && answers(ops, Operation::Quotient(s, m.at(i, i)), x[i])
}

/// Rows `from..D` of `U x = y` are solved.
pub open spec fn upper_solved<F: Fn(Operation) -> u64, const D: usize>(
    ops: &F,
    m: Matrix<D>,
    y: Seq<u64>,
    x: Seq<u64>,
    from: int,
) -> bool {
    forall|i: int| from <= i < D ==> #[trigger] upper_row_solved(ops, m, y, x, i)
}

/// Back substitution stops at row `i`: the rows below are solved, and the
/// sum of row `i` is not finite.
pub open spec fn upper_stops<F: Fn(Operation) -> u64, const D: usize>(
    ops: &F,
    m: Matrix<D>,
    y: Seq<u64>,
    i: int,
) -> bool {
    exists|x: Seq<u64>, s: u64|
        {
            &&& #[trigger] chain(ops, fused_steps(neg_row(m, i), x), i + 1, D as int, y[i], s)
            &&& upper_solved(ops, m, y, x, i + 1)
            &&& !finite(s)
        }
}

/// With a unit that gives one result per operation, back substitution has
/// one solution: two solutions of the rows `from..D`, from right-hand sides
/// that agree, agree there.
pub proof fn lemma_upper_unique<F: Fn(Operation) -> u64, const D: usize>(
    ops: &F,
    m: Matrix<D>,
    y1: Seq<u64>,
    y2: Seq<u64>,
    first: Seq<u64>,
    second: Seq<u64>,
    from: int,
)
    requires
        deterministic(ops),
        0 <= from <= D,
        forall|i: int| 0 <= i < D ==> y1[i] == y2[i],
        upper_solved(ops, m, y1, first, from),
        upper_solved(ops, m, y2, second, from),
    ensures
        forall|i: int| from <= i < D ==> first[i] == second[i],
    decreases D - from,
{
    if from < D {
        lemma_upper_unique(ops, m, y1, y2, first, second, from + 1);
        let i = from;
        assert(upper_row_solved(ops, m, y1, first, i));
        assert(upper_row_solved(ops, m, y2, second, i));
        let s1 = choose|s: u64|
            (#[trigger] chain(ops, fused_steps(neg_row(m, i), first), i + 1, D as int, y1[i], s))
                && finite(s) && answers(ops, Operation::Quotient(s, m.at(i, i)), first[i]);
        let s2 = choose|s: u64|
            (#[trigger] chain(ops, fused_steps(neg_row(m, i), second), i + 1, D as int, y2[i], s))
                && finite(s) && answers(ops, Operation::Quotient(s, m.at(i, i)), second[i]);
        lemma_fused_frame(ops, neg_row(m, i), first, second, i + 1, D as int, y1[i], s1);
        lemma_chain_deterministic(
            ops,
            fused_steps(neg_row(m, i), second),
            i + 1,
            D as int,
            y2[i],
            s1,
            s2,
        );
    }
}

/// With a unit that gives one result per operation, a back substitution
/// that solves the rows `from..D` stops at none of them.
pub proof fn lemma_upper_excludes<F: Fn(Operation) -> u64, const D: usize>(
    ops: &F,
    m: Matrix<D>,
    y: Seq<u64>,
    other: Seq<u64>,
    x: Seq<u64>,
    from: int,
    i: int,
)
    requires
        deterministic(ops),
        0 <= from <= i < D,
        forall|r: int| 0 <= r < D ==> y[r] == other[r],
        upper_solved(ops, m, y, x, from),
    ensures
        !upper_stops(ops, m, other, i),
{
    if upper_stops(ops, m, other, i) {
        let (z, s) = choose|z: Seq<u64>, s: u64|
            {
                &&& #[trigger] chain(
                    ops,
                    fused_steps(neg_row(m, i), z),
                    i + 1,
                    D as int,
                    other[i],
                    s,
                )
                &&& upper_solved(ops, m, other, z, i + 1)
                &&& !finite(s)
            };
        assert(upper_solved(ops, m, y, x, i + 1)) by {
            assert forall|r: int| i + 1 <= r < D implies #[trigger] upper_row_solved(
                ops,
                m,
                y,
                x,
                r,
            ) by {}
        }
        lemma_upper_unique(ops, m, other, y, z, x, i + 1);
        assert(upper_row_solved(ops, m, y, x, i));
        let t = choose|t: u64|
            (#[trigger] chain(ops, fused_steps(neg_row(m, i), x), i + 1, D as int, y[i], t))
                && finite(t) && answers(ops, Operation::Quotient(t, m.at(i, i)), x[i]);
        lemma_fused_frame(ops, neg_row(m, i), z, x, i + 1, D as int, other[i], s);
        lemma_chain_deterministic(
            ops,
            fused_steps(neg_row(m, i), x),
            i + 1,
            D as int,
            y[i],
            s,
            t,
        );
    }
}

} // verus!
