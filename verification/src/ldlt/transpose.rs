//! The backward pass of a solve, through the transpose of the stored L.

use crate::arith::{
    chain, deterministic, fused_steps, lemma_chain_deterministic, lemma_fused_frame, Operation,
};
use crate::binary64::finite;
use crate::matrix::Matrix;
use crate::substitution::neg_column;
use vstd::prelude::*;

verus! {

/// Rows `from..D` of `Lᵀ x = z` are solved, L being the unit lower triangle
/// stored below the diagonal of `m`: `x[i]` is finite and is the end of the
/// fused run that subtracts from `z[i]`, for `j` from `i + 1` up to the last
/// row, the product of `m[j][i]` and `x[j]`.
pub open spec fn transpose_solved<F: Fn(Operation) -> u64, const D: usize>(
    ops: &F,
    m: Matrix<D>,
    z: Seq<u64>,
    x: Seq<u64>,
    from: int,
) -> bool {
    forall|i: int|
        from <= i < D ==> finite(#[trigger] x[i]) && chain(
            ops,
            fused_steps(neg_column(m, i), x),
            i + 1,
            D as int,
            z[i],
            x[i],
        )
}

/// The backward pass stops at row `i`: the rows below are solved, and the
/// sum of row `i` is not finite.
pub open spec fn transpose_stops<F: Fn(Operation) -> u64, const D: usize>(
    ops: &F,
    m: Matrix<D>,
    z: Seq<u64>,
    i: int,
) -> bool {
    exists|x: Seq<u64>, s: u64|
        {
            &&& #[trigger] chain(ops, fused_steps(neg_column(m, i), x), i + 1, D as int, z[i], s)
            &&& transpose_solved(ops, m, z, x, i + 1)
            &&& !finite(s)
        }
}

/// With a unit that gives one result per operation, the backward pass
/// through Lᵀ has one solution: two solutions of the rows `from..D`, from
/// right-hand sides that agree, agree there.
pub proof fn lemma_transpose_unique<F: Fn(Operation) -> u64, const D: usize>(
    ops: &F,
    m: Matrix<D>,
    z1: Seq<u64>,
    z2: Seq<u64>,
    first: Seq<u64>,
    second: Seq<u64>,
    from: int,
)
    requires
        deterministic(ops),
        0 <= from <= D,
        forall|i: int| 0 <= i < D ==> z1[i] == z2[i],
        transpose_solved(ops, m, z1, first, from),
        transpose_solved(ops, m, z2, second, from),
    ensures
        forall|i: int| from <= i < D ==> first[i] == second[i],
    decreases D - from,
{
    if from < D {
        lemma_transpose_unique(ops, m, z1, z2, first, second, from + 1);
        let i = from;
        assert(finite(first[i]) && finite(second[i]));
        lemma_fused_frame(ops, neg_column(m, i), first, second, i + 1, D as int, z1[i], first[i]);
        lemma_chain_deterministic(
            ops,
            fused_steps(neg_column(m, i), second),
            i + 1,
            D as int,
            z2[i],
            first[i],
            second[i],
        );
    }
}

/// With a unit that gives one result per operation, a backward pass that
/// solves the rows `from..D` stops at none of them.
pub proof fn lemma_transpose_excludes<F: Fn(Operation) -> u64, const D: usize>(
    ops: &F,
    m: Matrix<D>,
    z: Seq<u64>,
    other: Seq<u64>,
    x: Seq<u64>,
    from: int,
    i: int,
)
    requires
        deterministic(ops),
        0 <= from <= i < D,
        forall|r: int| 0 <= r < D ==> z[r] == other[r],
        transpose_solved(ops, m, z, x, from),
    ensures
        !transpose_stops(ops, m, other, i),
{
    if transpose_stops(ops, m, other, i) {
        let (w, s) = choose|w: Seq<u64>, s: u64|
            {
                &&& #[trigger] chain(
                    ops,
                    fused_steps(neg_column(m, i), w),
                    i + 1,
                    D as int,
                    other[i],
                    s,
                )
                &&& transpose_solved(ops, m, other, w, i + 1)
                &&& !finite(s)
            };
        assert(transpose_solved(ops, m, z, x, i + 1)) by {
            assert forall|r: int| i + 1 <= r < D implies finite(#[trigger] x[r]) && chain(
                ops,
                fused_steps(neg_column(m, r), x),
                r + 1,
                D as int,
                z[r],
                x[r],
            ) by {
                assert(finite(x[r]));
            }
        }
        lemma_transpose_unique(ops, m, other, z, w, x, i + 1);
        assert(finite(x[i]));
        lemma_fused_frame(ops, neg_column(m, i), w, x, i + 1, D as int, other[i], s);
        lemma_chain_deterministic(
            ops,
            fused_steps(neg_column(m, i), x),
            i + 1,
            D as int,
            z[i],
            s,
            x[i],
        );
    }
}

} // verus!
