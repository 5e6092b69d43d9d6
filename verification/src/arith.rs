//! The rounding arithmetic that the factorizations are run with.
//!
//! Signs, finiteness and comparisons of binary64 values are decided on
//! their bit patterns. Quotients, products, sums and fused multiply-adds
//! are asked of an arithmetic unit that the caller supplies: a function
//! from an `Operation` to the pattern of its rounded result.

use crate::binary64::{finite, is_zero};
use vstd::prelude::*;

verus! {

/// One rounding operation, its operands given as binary64 patterns.
#[derive(Clone, Copy, Debug, PartialEq, Eq, Structural)]
pub enum Operation {
    /// The quotient of the first operand by the second.
    Quotient(u64, u64),
    /// The product of the two operands.
    Product(u64, u64),
    /// The sum of the two operands.
    Sum(u64, u64),
    /// The product of the first two operands plus the third, rounded once.
    FusedMulAdd(u64, u64, u64),
}

/// The unit `ops` accepts every operation.
pub open spec fn total<F: Fn(Operation) -> u64>(ops: &F) -> bool {
    forall|op: Operation| call_requires(*ops, (op,))
}

/// `r` is a result that the unit `ops` may give for `op`.
pub open spec fn answers<F: Fn(Operation) -> u64>(ops: &F, op: Operation, r: u64) -> bool {
    call_ensures(*ops, (op,), r)
}

/// The unit `ops` gives one result per operation.
pub open spec fn deterministic<F: Fn(Operation) -> u64>(ops: &F) -> bool {
    forall|op: Operation, r1: u64, r2: u64|
        answers(ops, op, r1) && answers(ops, op, r2) ==> r1 == r2
}

/// The unit is exact where a zero operand leaves nothing to round: a zero
/// divided by a finite value other than zero is a zero, and a fused
/// multiply-add whose product has a zero factor and a finite one returns
/// its addend where that is finite and not a zero, and a zero where the
/// addend is one.
pub open spec fn exact_on_zeros<F: Fn(Operation) -> u64>(ops: &F) -> bool {
    &&& forall|z: u64, d: u64, r: u64|
        (#[trigger] answers(ops, Operation::Quotient(z, d), r)) && is_zero(z) && finite(d)
            && !is_zero(d) ==> is_zero(r)
    &&& forall|m: u64, u: u64, c: u64, r: u64|
        (#[trigger] answers(ops, Operation::FusedMulAdd(m, u, c), r)) && is_zero(m) && finite(u)
            && finite(c) ==> if is_zero(c) {
            is_zero(r)
        } else {
            r == c
        }
}

/// The unit is exact on products with a zero: a zero times a finite value
/// is a zero.
pub open spec fn exact_on_zero_products<F: Fn(Operation) -> u64>(ops: &F) -> bool {
    forall|z: u64, d: u64, r: u64|
        (#[trigger] answers(ops, Operation::Product(z, d), r)) && is_zero(z) && finite(d)
            ==> is_zero(r)
}

/// Ask the unit for the result of one operation.
pub fn ask<F: Fn(Operation) -> u64>(ops: &F, op: Operation) -> (r: u64)
    requires
        total(ops),
    ensures
        answers(ops, op, r),
{
    ops(op)
}

/// The running values of a run of operations in which each feeds its
/// result to the next.
///
/// `step(j, acc)` is the operation asked at position `j` when the running
/// value is `acc`. The run takes positions `lo`, `lo + 1`, ..., `hi - 1` in
/// turn; `values` lists the start value and then one result of the unit per
/// position.
pub open spec fn run_of<F: Fn(Operation) -> u64>(
    ops: &F,
    step: spec_fn(int, u64) -> Operation,
    lo: int,
    hi: int,
    start: u64,
    values: Seq<u64>,
) -> bool {
    &&& lo <= hi
    &&& values.len() == hi - lo + 1
    &&& values[0] == start
    &&& forall|j: int|
        lo <= j < hi ==> answers(ops, step(j, values[j - lo]), #[trigger] values[j - lo + 1])
}

/// `end` may be the last result of the run from `start` over positions
/// `lo..hi`. An empty run leaves the start value.
pub open spec fn chain<F: Fn(Operation) -> u64>(
    ops: &F,
    step: spec_fn(int, u64) -> Operation,
    lo: int,
    hi: int,
    start: u64,
    end: u64,
) -> bool {
    exists|values: Seq<u64>|
        (#[trigger] run_of(ops, step, lo, hi, start, values)) && values.last() == end
}

/// The steps `acc := a[j] * b[j] + acc`, each fused.
pub open spec fn fused_steps(a: Seq<u64>, b: Seq<u64>) -> spec_fn(int, u64) -> Operation {
    |j: int, acc: u64| Operation::FusedMulAdd(a[j], b[j], acc)
}

/// The steps `acc := acc * f[j]`.
pub open spec fn product_steps(f: Seq<u64>) -> spec_fn(int, u64) -> Operation {
    |j: int, acc: u64| Operation::Product(acc, f[j])
}

/// The steps `acc := acc + t[j]`.
pub open spec fn sum_steps(t: Seq<u64>) -> spec_fn(int, u64) -> Operation {
    |j: int, acc: u64| Operation::Sum(acc, t[j])
}

/// The run over no position leaves the start value.
pub proof fn lemma_chain_empty<F: Fn(Operation) -> u64>(
    ops: &F,
    step: spec_fn(int, u64) -> Operation,
    lo: int,
    start: u64,
)
    ensures
        chain(ops, step, lo, lo, start, start),
        forall|end: u64| chain(ops, step, lo, lo, start, end) ==> end == start,
{
    assert(run_of(ops, step, lo, lo, start, seq![start]));
}

/// A run goes one position further by one more answer of the unit.
pub proof fn lemma_chain_extend<F: Fn(Operation) -> u64>(
    ops: &F,
    step: spec_fn(int, u64) -> Operation,
    lo: int,
    hi: int,
    start: u64,
    mid: u64,
    end: u64,
)
    requires
        chain(ops, step, lo, hi, start, mid),
        answers(ops, step(hi, mid), end),
    ensures
        chain(ops, step, lo, hi + 1, start, end),
{
    let values = choose|values: Seq<u64>|
        (#[trigger] run_of(ops, step, lo, hi, start, values)) && values.last() == mid;
    let longer = values.push(end);
    assert forall|j: int| lo <= j < hi + 1 implies answers(
        ops,
        step(j, longer[j - lo]),
        #[trigger] longer[j - lo + 1],
    ) by {
        if j < hi {
            assert(longer[j - lo + 1] == values[j - lo + 1]);
        }
    }
    assert(run_of(ops, step, lo, hi + 1, start, longer));
}

/// A run depends on its steps only at the positions it takes.
pub proof fn lemma_chain_frame<F: Fn(Operation) -> u64>(
    ops: &F,
    step: spec_fn(int, u64) -> Operation,
    other: spec_fn(int, u64) -> Operation,
    lo: int,
    hi: int,
    start: u64,
    end: u64,
)
    requires
        chain(ops, step, lo, hi, start, end),
        forall|j: int, acc: u64| lo <= j < hi ==> #[trigger] step(j, acc) == other(j, acc),
    ensures
        chain(ops, other, lo, hi, start, end),
{
    let values = choose|values: Seq<u64>|
        (#[trigger] run_of(ops, step, lo, hi, start, values)) && values.last() == end;
    assert forall|j: int| lo <= j < hi implies answers(
        ops,
        other(j, values[j - lo]),
        #[trigger] values[j - lo + 1],
    ) by {
        assert(step(j, values[j - lo]) == other(j, values[j - lo]));
    }
    assert(run_of(ops, other, lo, hi, start, values));
}

/// A fused run reads its second operands only at the positions it takes.
pub proof fn lemma_fused_frame<F: Fn(Operation) -> u64>(
    ops: &F,
    a: Seq<u64>,
    b: Seq<u64>,
    other: Seq<u64>,
    lo: int,
    hi: int,
    start: u64,
    end: u64,
)
    requires
        chain(ops, fused_steps(a, b), lo, hi, start, end),
        forall|j: int| lo <= j < hi ==> b[j] == other[j],
    ensures
        chain(ops, fused_steps(a, other), lo, hi, start, end),
{
    lemma_chain_frame(ops, fused_steps(a, b), fused_steps(a, other), lo, hi, start, end);
}

proof fn lemma_runs_agree<F: Fn(Operation) -> u64>(
    ops: &F,
    step: spec_fn(int, u64) -> Operation,
    lo: int,
    hi: int,
    start: u64,
    first: Seq<u64>,
    second: Seq<u64>,
    upto: int,
)
    requires
        deterministic(ops),
        run_of(ops, step, lo, hi, start, first),
        run_of(ops, step, lo, hi, start, second),
        0 <= upto <= hi - lo,
    ensures
        first[upto] == second[upto],
    decreases upto,
{
    if upto > 0 {
        lemma_runs_agree(ops, step, lo, hi, start, first, second, upto - 1);
        let j = lo + upto - 1;
        assert(answers(ops, step(j, first[j - lo]), first[j - lo + 1]));
        assert(answers(ops, step(j, second[j - lo]), second[j - lo + 1]));
    }
}

/// With a unit that gives one result per operation, a run has one result:
/// repeating it on the same values reproduces it bit for bit.
pub proof fn lemma_chain_deterministic<F: Fn(Operation) -> u64>(
    ops: &F,
    step: spec_fn(int, u64) -> Operation,
    lo: int,
    hi: int,
    start: u64,
    first: u64,
    second: u64,
)
    requires
        deterministic(ops),
        chain(ops, step, lo, hi, start, first),
        chain(ops, step, lo, hi, start, second),
    ensures
        first == second,
{
    let v1 = choose|values: Seq<u64>|
        (#[trigger] run_of(ops, step, lo, hi, start, values)) && values.last() == first;
    let v2 = choose|values: Seq<u64>|
        (#[trigger] run_of(ops, step, lo, hi, start, values)) && values.last() == second;
    lemma_runs_agree(ops, step, lo, hi, start, v1, v2, hi - lo);
}

} // verus!
