//! Fixed-size vectors stored inline.

use crate::arith::{
    ask, chain, deterministic, fused_steps, lemma_chain_deterministic, lemma_chain_empty,
    lemma_chain_extend, total, Operation,
};
use crate::binary64::ZERO;
use vstd::prelude::*;

verus! {

/// Fixed-size vector of length `D`, stored inline. Each entry is the bit
/// pattern of a binary64 value.
#[derive(Clone, Copy, Debug)]
pub struct Vector<const D: usize> {
    /// The entries, first to last.
    pub data: [u64; D],
}

impl<const D: usize> View for Vector<D> {
    type V = Seq<u64>;

    open spec fn view(&self) -> Seq<u64> {
        self.data@
    }
}

impl<const D: usize> Vector<D> {
    /// Create a vector from a backing array.
    pub fn new(data: [u64; D]) -> (v: Self)
        ensures
            v.data == data,
    {
        Vector { data }
    }

    /// All-zeros vector.
    pub fn zero() -> (v: Self)
        ensures
            v@.len() == D,
            forall|i: int| 0 <= i < D ==> v@[i] == ZERO,
    {
        Vector { data: [ZERO;D] }
    }

    /// Borrow the backing array.
    pub fn as_array(&self) -> (a: &[u64; D])
        ensures
            *a == self.data,
    {
        &self.data
    }

    /// Consume and return the backing array.
    pub fn into_array(self) -> (a: [u64; D])
        ensures
            a == self.data,
    {
        self.data
    }

    /// Dot product: from zero, one fused multiply-add per entry, first
    /// entry to last. The result is the last value of that run.
    pub fn dot<F: Fn(Operation) -> u64>(self, other: Self, ops: &F) -> (r: u64)
        requires
            total(ops),
        ensures
            chain(ops, fused_steps(self@, other@), 0, D as int, ZERO, r),
    {
        let mut acc: u64 = ZERO;
        let mut i: usize = 0;
        proof {
            lemma_chain_empty(ops, fused_steps(self@, other@), 0, ZERO);
        }
        while i < D
            invariant
                i <= D,
                total(ops),
                chain(ops, fused_steps(self@, other@), 0, i as int, ZERO, acc),
            decreases D - i,
        {
            let next: u64 = ask(ops, Operation::FusedMulAdd(self.data[i], other.data[i], acc));
            proof {
                lemma_chain_extend(ops, fused_steps(self@, other@), 0, i as int, ZERO, acc, next);
            }
            acc = next;
            i += 1;
        }
        acc
    }

    /// Repeating `dot` reproduces its result bit for bit: with a unit that
    /// gives one result per operation, two vectors have one dot product.
    pub proof fn lemma_dot_repeatable<F: Fn(Operation) -> u64>(
        self,
        other: Self,
        ops: &F,
        first: u64,
        second: u64,
    )
        requires
            deterministic(ops),
            chain(ops, fused_steps(self@, other@), 0, D as int, ZERO, first),
            chain(ops, fused_steps(self@, other@), 0, D as int, ZERO, second),
        ensures
            first == second,
    {
        lemma_chain_deterministic(
            ops,
            fused_steps(self@, other@),
            0,
            D as int,
            ZERO,
            first,
            second,
        );
    }

    /// Squared Euclidean norm: the dot product of the vector with itself.
    pub fn norm2_sq<F: Fn(Operation) -> u64>(self, ops: &F) -> (r: u64)
        requires
            total(ops),
        ensures
            chain(ops, fused_steps(self@, self@), 0, D as int, ZERO, r),
    {
        self.dot(self, ops)
    }
}

impl<const D: usize> Default for Vector<D> {
    fn default() -> (v: Self)
        ensures
            v@.len() == D,
            forall|i: int| 0 <= i < D ==> v@[i] == ZERO,
    {
        Self::zero()
    }
}

} // verus!
