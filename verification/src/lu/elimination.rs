//! The elimination of one column below its pivot.

use crate::arith::{answers, ask, total, Operation};
use crate::binary64::{finite, is_finite, le_spec, magnitude, neg, negated};
use crate::error::LaError;
use crate::matrix::Matrix;
use vstd::prelude::*;

verus! {

/// Columns `0..k` of `m` have been eliminated with tolerance `tol`: their
/// diagonal entries are finite pivots above the tolerance in magnitude, and
/// the multipliers below them are finite.
pub open spec fn eliminated<const D: usize>(m: Matrix<D>, k: int, tol: u64) -> bool {
    &&& forall|i: int|
        0 <= i < k ==> finite(#[trigger] m.at(i, i)) && !le_spec(magnitude(m.at(i, i)), tol)
    &&& forall|r: int, c: int| 0 <= c < k && c < r < D ==> finite(#[trigger] m.at(r, c))
}

/// `to` is what eliminating column `k` makes of `from`, whose pivot stands
/// on the diagonal.
///
/// Rows down to the pivot row and columns left of `k` stay. In each row
/// below, the entry of column `k` becomes the multiplier, a finite quotient
/// of the entry by the pivot, and each entry to the right becomes a finite
/// fused result: the entry minus the multiplier times the pivot row's entry.
pub open spec fn column_eliminated<F: Fn(Operation) -> u64, const D: usize>(
    ops: &F,
    from: Matrix<D>,
    to: Matrix<D>,
    k: int,
) -> bool {
    &&& forall|r: int, c: int|
        0 <= r < D && 0 <= c < D && (r <= k || c < k) ==> #[trigger] to.at(r, c) == from.at(r, c)
    &&& forall|r: int|
        k < r < D ==> finite(#[trigger] to.at(r, k)) && answers(
            ops,
            Operation::Quotient(from.at(r, k), from.at(k, k)),
            to.at(r, k),
        )
    &&& forall|r: int, c: int|
        k < r < D && k < c < D ==> finite(#[trigger] to.at(r, c)) && answers(
            ops,
            Operation::FusedMulAdd(negated(to.at(r, k)), from.at(k, c), from.at(r, c)),
            to.at(r, c),
        )
}

/// With the multiplier `mult`, an update of row `r` in the elimination of
/// column `k` of `from` is not finite.
pub open spec fn update_stops<F: Fn(Operation) -> u64, const D: usize>(
    ops: &F,
    from: Matrix<D>,
    k: int,
    r: int,
    mult: u64,
) -> bool {
    exists|c: int, v: u64|
        k < c < D && (#[trigger] answers(
            ops,
            Operation::FusedMulAdd(negated(mult), from.at(k, c), from.at(r, c)),
            v,
        )) && !finite(v)
}

/// The elimination of column `k` of `from` stops in row `r`: its
/// multiplier is not finite, or with a finite multiplier one of its updates
/// is not.
pub open spec fn row_stops<F: Fn(Operation) -> u64, const D: usize>(
    ops: &F,
    from: Matrix<D>,
    k: int,
    r: int,
) -> bool {
    exists|mult: u64|
        (#[trigger] answers(ops, Operation::Quotient(from.at(r, k), from.at(k, k)), mult)) && (
        !finite(mult) || update_stops(ops, from, k, r, mult))
}

/// The elimination of column `k` of `from` stops in some row below the
/// pivot.
pub open spec fn elimination_stops<F: Fn(Operation) -> u64, const D: usize>(
    ops: &F,
    from: Matrix<D>,
    k: int,
) -> bool {
    exists|r: int| k < r < D && #[trigger] row_stops(ops, from, k, r)
}

/// Eliminate column `k` below the pivot on the diagonal: per row one
/// quotient and then one fused multiply-add per column to the right. Stops
/// with `NonFinite` at the first result that is not finite.
pub fn eliminate_column<F: Fn(Operation) -> u64, const D: usize>(
    m: &mut Matrix<D>,
    k: usize,
    ops: &F,
) -> (r: Result<(), LaError>)
    requires
        k < D,
        total(ops),
    ensures
        match r {
            Ok(_) => column_eliminated(ops, *old(m), *final(m), k as int),
            Err(e) => e == (LaError::NonFinite { pivot_col: k }) && elimination_stops(
                ops,
                *old(m),
                k as int,
            ),
        },
{
    let ghost from = *m;
    let pivot: u64 = m.rows[k][k];
    let mut r: usize = k + 1;
    while r < D
        invariant
            k < r <= D,
            total(ops),
            from == *old(m),
            pivot == from.at(k as int, k as int),
            forall|i: int, c: int|
                0 <= i < D && 0 <= c < D && (i <= k || c < k || i >= r) ==> #[trigger] m.at(i, c)
                    == from.at(i, c),
            forall|i: int|
                k < i < r ==> finite(#[trigger] m.at(i, k as int)) && answers(
                    ops,
                    Operation::Quotient(from.at(i, k as int), from.at(k as int, k as int)),
                    m.at(i, k as int),
                ),
            forall|i: int, c: int|
                k < i < r && k < c < D ==> finite(#[trigger] m.at(i, c)) && answers(
                    ops,
                    Operation::FusedMulAdd(
                        negated(m.at(i, k as int)),
                        from.at(k as int, c),
                        from.at(i, c),
                    ),
                    m.at(i, c),
                ),
        decreases D - r,
    {
        assert(m.at(r as int, k as int) == from.at(r as int, k as int));
        let mult: u64 = ask(ops, Operation::Quotient(m.rows[r][k], pivot));
        if !is_finite(mult) {
            proof {
                assert(row_stops(ops, from, k as int, r as int));
                assert(elimination_stops(ops, from, k as int));
            }
            return Err(LaError::NonFinite { pivot_col: k });
        }
        m.put(r, k, mult);
        let mut c: usize = k + 1;
        while c < D
            invariant
                k < r < D,
                k < c <= D,
                total(ops),
                from == *old(m),
                pivot == from.at(k as int, k as int),
                finite(mult),
                mult == m.at(r as int, k as int),
                answers(
                    ops,
                    Operation::Quotient(from.at(r as int, k as int), from.at(k as int, k as int)),
                    mult,
                ),
                forall|i: int, j: int|
                    0 <= i < D && 0 <= j < D && (i <= k || j < k || i > r || (i == r && j >= c))
                        ==> #[trigger] m.at(i, j) == from.at(i, j),
                forall|i: int|
                    k < i < r ==> finite(#[trigger] m.at(i, k as int)) && answers(
                        ops,
                        Operation::Quotient(from.at(i, k as int), from.at(k as int, k as int)),
                        m.at(i, k as int),
                    ),
                forall|i: int, j: int|
                    k < i < r && k < j < D ==> finite(#[trigger] m.at(i, j)) && answers(
                        ops,
                        Operation::FusedMulAdd(
                            negated(m.at(i, k as int)),
                            from.at(k as int, j),
                            from.at(i, j),
                        ),
                        m.at(i, j),
                    ),
                forall|j: int|
                    k < j < c ==> finite(#[trigger] m.at(r as int, j)) && answers(
                        ops,
                        Operation::FusedMulAdd(
                            negated(mult),
                            from.at(k as int, j),
                            from.at(r as int, j),
                        ),
                        m.at(r as int, j),
                    ),
            decreases D - c,
        {
            assert(m.at(k as int, c as int) == from.at(k as int, c as int));
            assert(m.at(r as int, c as int) == from.at(r as int, c as int));
            let updated: u64 = ask(
                ops,
                Operation::FusedMulAdd(neg(mult), m.rows[k][c], m.rows[r][c]),
            );
            if !is_finite(updated) {
                proof {
                    assert(update_stops(ops, from, k as int, r as int, mult));
                    assert(row_stops(ops, from, k as int, r as int));
                    assert(elimination_stops(ops, from, k as int));
                }
                return Err(LaError::NonFinite { pivot_col: k });
            }
            m.put(r, c, updated);
            c += 1;
        }
        r += 1;
    }
    Ok(())
}

} // verus!
