//! The reduction of one column: its multipliers and the symmetric rank-1
//! update of the trailing lower triangle.

use crate::arith::{answers, ask, total, Operation};
use crate::binary64::{finite, is_finite, le_spec, neg, negated};
use crate::error::LaError;
use crate::matrix::Matrix;
use vstd::prelude::*;

verus! {

/// Columns `0..k` of `m` have been reduced with tolerance `tol`: their
/// diagonal entries are finite and above the tolerance, and the multipliers
/// below them are finite.
pub open spec fn reduced<const D: usize>(m: Matrix<D>, k: int, tol: u64) -> bool {
    &&& forall|i: int| 0 <= i < k ==> finite(#[trigger] m.at(i, i)) && !le_spec(m.at(i, i), tol)
    &&& forall|r: int, c: int| 0 <= c < k && c < r < D ==> finite(#[trigger] m.at(r, c))
}

/// `to` is what reducing column `j` makes of `from`, and `scaled[i]` is the
/// product of row `i`'s multiplier and the diagonal entry that the update
/// of row `i` used.
///
/// Rows down to `j`, columns left of `j` and everything above the diagonal
/// stay. Below the diagonal, the entry of column `j` becomes the
/// multiplier, a finite quotient of the entry by the diagonal entry. Each
/// entry `(i, k)` of the trailing lower triangle becomes a finite fused
/// result: the entry minus `scaled[i]` times the multiplier of row `k`.
pub open spec fn column_reduced_with<F: Fn(Operation) -> u64, const D: usize>(
    ops: &F,
    from: Matrix<D>,
    to: Matrix<D>,
    j: int,
    scaled: Seq<u64>,
) -> bool {
    &&& scaled.len() == D
    &&& forall|r: int, c: int|
        0 <= r < D && 0 <= c < D && (r <= j || c < j || c > r) ==> #[trigger] to.at(r, c)
            == from.at(r, c)
    &&& forall|i: int|
        j < i < D ==> finite(#[trigger] to.at(i, j)) && answers(
            ops,
            Operation::Quotient(from.at(i, j), from.at(j, j)),
            to.at(i, j),
        ) && answers(ops, Operation::Product(to.at(i, j), from.at(j, j)), scaled[i])
    &&& forall|i: int, k: int|
        j < k <= i < D ==> finite(#[trigger] to.at(i, k)) && answers(
            ops,
            Operation::FusedMulAdd(negated(scaled[i]), to.at(k, j), from.at(i, k)),
            to.at(i, k),
        )
}

/// `to` is what reducing column `j` makes of `from`.
pub open spec fn column_reduced<F: Fn(Operation) -> u64, const D: usize>(
    ops: &F,
    from: Matrix<D>,
    to: Matrix<D>,
    j: int,
) -> bool {
    exists|scaled: Seq<u64>| #[trigger] column_reduced_with(ops, from, to, j, scaled)
}

/// `mid` is `from` with every entry of column `j` below the diagonal
/// replaced by its multiplier, a finite quotient of the entry by the
/// diagonal entry.
pub open spec fn multipliers_stored<F: Fn(Operation) -> u64, const D: usize>(
    ops: &F,
    from: Matrix<D>,
    mid: Matrix<D>,
    j: int,
) -> bool {
    &&& forall|r: int, c: int|
        0 <= r < D && 0 <= c < D && !(j < r && c == j) ==> #[trigger] mid.at(r, c) == from.at(r, c)
    &&& forall|r: int|
        j < r < D ==> finite(#[trigger] mid.at(r, j)) && answers(
            ops,
            Operation::Quotient(from.at(r, j), from.at(j, j)),
            mid.at(r, j),
        )
}

/// A multiplier of column `j` of `from` is not finite.
pub open spec fn multiplier_stops<F: Fn(Operation) -> u64, const D: usize>(
    ops: &F,
    from: Matrix<D>,
    j: int,
) -> bool {
    exists|i: int, l: u64|
        j < i < D && (#[trigger] answers(
            ops,
            Operation::Quotient(from.at(i, j), from.at(j, j)),
            l,
        )) && !finite(l)
}

/// With the multipliers of column `j` stored in `mid`, the update of the
/// trailing entry `(i, k)` is not finite.
pub open spec fn entry_stops<F: Fn(Operation) -> u64, const D: usize>(
    ops: &F,
    from: Matrix<D>,
    mid: Matrix<D>,
    j: int,
    i: int,
    k: int,
) -> bool {
    exists|t: u64, v: u64|
        {
            &&& #[trigger] answers(
                ops,
                Operation::FusedMulAdd(negated(t), mid.at(k, j), from.at(i, k)),
                v,
            )
            &&& answers(ops, Operation::Product(mid.at(i, j), from.at(j, j)), t)
            &&& !finite(v)
        }
}

/// Every multiplier of column `j` of `from` is finite, and an update of the
/// trailing lower triangle is not.
pub open spec fn trailing_stops<F: Fn(Operation) -> u64, const D: usize>(
    ops: &F,
    from: Matrix<D>,
    j: int,
) -> bool {
    exists|mid: Matrix<D>, i: int, k: int|
        {
            &&& #[trigger] entry_stops(ops, from, mid, j, i, k)
            &&& multipliers_stored(ops, from, mid, j)
            &&& j < k <= i < D
        }
}

/// The reduction of column `j` of `from` stops on a result that is not
/// finite.
pub open spec fn reduction_stops<F: Fn(Operation) -> u64, const D: usize>(
    ops: &F,
    from: Matrix<D>,
    j: int,
) -> bool {
    multiplier_stops(ops, from, j) || trailing_stops(ops, from, j)
}

/// Reduce column `j` below its diagonal entry: first every multiplier, one
/// quotient per row, then the symmetric rank-1 update of the trailing
/// lower triangle, per row one product and one fused multiply-add per
/// entry. Stops with `NonFinite` at the first result that is not finite.
pub fn reduce_column<F: Fn(Operation) -> u64, const D: usize>(
    m: &mut Matrix<D>,
    j: usize,
    ops: &F,
) -> (r: Result<(), LaError>)
    requires
        j < D,
        total(ops),
    ensures
        match r {
            Ok(_) => column_reduced(ops, *old(m), *final(m), j as int),
            Err(e) => e == (LaError::NonFinite { pivot_col: j }) && reduction_stops(
                ops,
                *old(m),
                j as int,
            ),
        },
{
    let ghost from = *m;
    let d: u64 = m.rows[j][j];
    let mut i: usize = j + 1;
    while i < D
        invariant
            j < i <= D,
            total(ops),
            from == *old(m),
            d == from.at(j as int, j as int),
            forall|r: int, c: int|
                0 <= r < D && 0 <= c < D && !(j < r < i && c == j) ==> #[trigger] m.at(r, c)
                    == from.at(r, c),
            forall|r: int|
                j < r < i ==> finite(#[trigger] m.at(r, j as int)) && answers(
                    ops,
                    Operation::Quotient(from.at(r, j as int), d),
                    m.at(r, j as int),
                ),
        decreases D - i,
    {
        assert(m.at(i as int, j as int) == from.at(i as int, j as int));
        let l: u64 = ask(ops, Operation::Quotient(m.rows[i][j], d));
        if !is_finite(l) {
            proof {
                assert(multiplier_stops(ops, from, j as int));
            }
            return Err(LaError::NonFinite { pivot_col: j });
        }
        m.put(i, j, l);
        i += 1;
    }
    let ghost mid = *m;
    let ghost mut scaled: Seq<u64> = Seq::new(D as nat, |i: int| 0u64);
    let mut i: usize = j + 1;
    while i < D
        invariant
            j < i <= D,
            total(ops),
            from == *old(m),
            d == from.at(j as int, j as int),
            scaled.len() == D,
            forall|r: int, c: int|
                0 <= r < D && 0 <= c < D && (c <= j || c > r || r <= j || r >= i)
                    ==> #[trigger] m.at(r, c) == mid.at(r, c),
            forall|r: int, c: int|
                0 <= r < D && 0 <= c < D && !(j < r && c == j) ==> #[trigger] mid.at(r, c)
                    == from.at(r, c),
            forall|r: int|
                j < r < D ==> finite(#[trigger] mid.at(r, j as int)) && answers(
                    ops,
                    Operation::Quotient(from.at(r, j as int), d),
                    mid.at(r, j as int),
                ),
            forall|r: int|
                j < r < i ==> answers(
                    ops,
                    Operation::Product(mid.at(r, j as int), d),
                    #[trigger] scaled[r],
                ),
            forall|r: int, k: int|
                j < k <= r < i ==> finite(#[trigger] m.at(r, k)) && answers(
                    ops,
                    Operation::FusedMulAdd(negated(scaled[r]), mid.at(k, j as int), from.at(r, k)),
                    m.at(r, k),
                ),
        decreases D - i,
    {
        assert(m.at(i as int, j as int) == mid.at(i as int, j as int));
        let l_i: u64 = m.rows[i][j];
        let l_i_d: u64 = ask(ops, Operation::Product(l_i, d));
        let ghost prior = scaled;
        proof {
            scaled = scaled.update(i as int, l_i_d);
        }
        let mut k: usize = j + 1;
        while k <= i
            invariant
                j < k <= i + 1,
                j < i < D,
                total(ops),
                from == *old(m),
                d == from.at(j as int, j as int),
                scaled == prior.update(i as int, l_i_d),
                prior.len() == D,
                forall|r: int, c: int|
                    0 <= r < D && 0 <= c < D && (c <= j || c > r || r <= j || r > i || (r == i && c
                        >= k)) ==> #[trigger] m.at(r, c) == mid.at(r, c),
                forall|r: int, c: int|
                    0 <= r < D && 0 <= c < D && !(j < r && c == j) ==> #[trigger] mid.at(r, c)
                        == from.at(r, c),
                forall|r: int|
                    j < r < D ==> finite(#[trigger] mid.at(r, j as int)) && answers(
                        ops,
                        Operation::Quotient(from.at(r, j as int), d),
                        mid.at(r, j as int),
                    ),
                forall|r: int|
                    j < r < i ==> answers(
                        ops,
                        Operation::Product(mid.at(r, j as int), d),
                        #[trigger] prior[r],
                    ),
                answers(ops, Operation::Product(mid.at(i as int, j as int), d), l_i_d),
                forall|r: int, c: int|
                    j < c <= r < i ==> finite(#[trigger] m.at(r, c)) && answers(
                        ops,
                        Operation::FusedMulAdd(
                            negated(prior[r]),
                            mid.at(c, j as int),
                            from.at(r, c),
                        ),
                        m.at(r, c),
                    ),
                forall|c: int|
                    j < c < k ==> finite(#[trigger] m.at(i as int, c)) && answers(
                        ops,
                        Operation::FusedMulAdd(
                            negated(l_i_d),
                            mid.at(c, j as int),
                            from.at(i as int, c),
                        ),
                        m.at(i as int, c),
                    ),
            decreases i + 1 - k,
        {
            assert(m.at(k as int, j as int) == mid.at(k as int, j as int));
            assert(m.at(i as int, k as int) == mid.at(i as int, k as int));
            assert(mid.at(i as int, k as int) == from.at(i as int, k as int));
            let l_k: u64 = m.rows[k][j];
            let updated: u64 = ask(ops, Operation::FusedMulAdd(neg(l_i_d), l_k, m.rows[i][k]));
            if !is_finite(updated) {
                proof {
                    assert(multipliers_stored(ops, from, mid, j as int));
                    assert(entry_stops(ops, from, mid, j as int, i as int, k as int));
                    assert(trailing_stops(ops, from, j as int));
                }
                return Err(LaError::NonFinite { pivot_col: j });
            }
            m.put(i, k, updated);
            k += 1;
        }
        i += 1;
    }
    proof {
        assert(column_reduced_with(ops, from, *m, j as int, scaled)) by {
            assert forall|r: int, c: int|
                0 <= r < D && 0 <= c < D && (r <= j || c < j || c > r) implies #[trigger] m.at(r, c)
                == from.at(r, c) by {
                assert(m.at(r, c) == mid.at(r, c));
            }
            assert forall|r: int| j < r < D implies finite(#[trigger] m.at(r, j as int))
                && answers(
                ops,
                Operation::Quotient(from.at(r, j as int), from.at(j as int, j as int)),
                m.at(r, j as int),
            ) && answers(
                ops,
                Operation::Product(m.at(r, j as int), from.at(j as int, j as int)),
                scaled[r],
            ) by {
                assert(m.at(r, j as int) == mid.at(r, j as int));
            }
            assert forall|r: int, k: int| j < k <= r < D implies finite(#[trigger] m.at(r, k))
                && answers(
                ops,
                Operation::FusedMulAdd(negated(scaled[r]), m.at(k, j as int), from.at(r, k)),
                m.at(r, k),
            ) by {
                assert(m.at(k, j as int) == mid.at(k, j as int));
            }
        }
    }
    Ok(())
}

} // verus!
