//! Row exchanges: the row order and the sign that a run of exchanges leaves.

use crate::binary64::{negated, NEG_ONE, ONE};
use crate::matrix::Matrix;
use vstd::prelude::*;

verus! {

/// The natural order of `n` rows: position `i` holds row `i`.
pub open spec fn identity_order(n: nat) -> Seq<usize> {
    Seq::new(n, |i: int| i as usize)
}

/// `s` with the entries at positions `i` and `j` exchanged.
pub open spec fn exchange(s: Seq<usize>, i: int, j: int) -> Seq<usize> {
    s.update(i, s[j]).update(j, s[i])
}

/// The row order that the exchanges `choice` produce from the natural
/// order: step `k` exchanges positions `k` and `choice[k]`.
pub open spec fn order_after(n: nat, choice: Seq<int>) -> Seq<usize>
    decreases choice.len(),
{
    if choice.len() == 0 {
        identity_order(n)
    } else {
        exchange(order_after(n, choice.drop_last()), choice.len() - 1, choice.last())
    }
}

/// The sign that the exchanges `choice` produce from plus one: each step
/// that moves a row flips it.
pub open spec fn sign_after(choice: Seq<int>) -> u64
    decreases choice.len(),
{
    if choice.len() == 0 {
        ONE
    } else if choice.last() != choice.len() - 1 {
        negated(sign_after(choice.drop_last()))
    } else {
        sign_after(choice.drop_last())
    }
}

/// `choice` names one pivot row per step, each at or below its diagonal.
pub open spec fn valid_choices(n: nat, choice: Seq<int>) -> bool {
    &&& choice.len() == n
    &&& forall|k: int| 0 <= k < n ==> k <= #[trigger] choice[k] < n
}

/// `s` lists each of the indices below `n` exactly once.
pub open spec fn is_permutation(s: Seq<usize>, n: nat) -> bool {
    &&& s.len() == n
    &&& forall|i: int| 0 <= i < n ==> #[trigger] s[i] < n
    &&& forall|i: int, j: int| 0 <= i < j < n ==> #[trigger] s[i] != #[trigger] s[j]
}

/// The row order and the sign are the record of one run of row exchanges.
pub open spec fn records_exchanges(n: nat, choice: Seq<int>, order: Seq<usize>, sign: u64) -> bool {
    &&& valid_choices(n, choice)
    &&& order == order_after(n, choice)
    &&& sign == sign_after(choice)
}

/// The right-hand side `b` in the row order `order`.
pub open spec fn permuted(b: Seq<u64>, order: Seq<usize>) -> Seq<u64> {
    Seq::new(order.len(), |i: int| b[order[i] as int])
}

/// `to` is `from` with rows `i` and `j` exchanged.
pub open spec fn rows_exchanged<const D: usize>(
    from: Matrix<D>,
    to: Matrix<D>,
    i: int,
    j: int,
) -> bool {
    forall|r: int, c: int|
        0 <= r < D && 0 <= c < D ==> #[trigger] to.at(r, c) == from.at(
            if r == i {
                j
            } else if r == j {
                i
            } else {
                r
            },
            c,
        )
}

/// The sign that a run of exchanges leaves is plus one or minus one.
pub proof fn lemma_sign_is_unit(choice: Seq<int>)
    ensures
        sign_after(choice) == ONE || sign_after(choice) == NEG_ONE,
    decreases choice.len(),
{
    if choice.len() > 0 {
        lemma_sign_is_unit(choice.drop_last());
    }
}

/// The row order that a run of exchanges leaves is a permutation: every
/// row stands at exactly one position.
pub proof fn lemma_order_is_permutation(n: nat, choice: Seq<int>)
    requires
        n <= usize::MAX,
        choice.len() <= n,
        forall|k: int| 0 <= k < choice.len() ==> k <= #[trigger] choice[k] < n,
    ensures
        is_permutation(order_after(n, choice), n),
    decreases choice.len(),
{
    if choice.len() > 0 {
        let before = choice.drop_last();
        assert forall|k: int| 0 <= k < before.len() implies k <= #[trigger] before[k] < n by {
            assert(before[k] == choice[k]);
        }
        lemma_order_is_permutation(n, before);
        let prev = order_after(n, before);
        let k = choice.len() - 1;
        let p = choice.last();
        assert(k <= choice[k] < n);
        let next = exchange(prev, k, p);
        assert(next.len() == n);
        assert forall|i: int| 0 <= i < n implies #[trigger] next[i] < n by {
            assert(prev[k] < n && prev[p] < n && prev[i] < n);
        }
        assert forall|i: int, j: int| 0 <= i < j < n implies #[trigger] next[i]
            != #[trigger] next[j] by {
            let from_i = if i == k {
                p
            } else if i == p {
                k
            } else {
                i
            };
            let from_j = if j == k {
                p
            } else if j == p {
                k
            } else {
                j
            };
            assert(next[i] == prev[from_i]);
            assert(next[j] == prev[from_j]);
            if from_i < from_j {
                assert(prev[from_i] != prev[from_j]);
            } else {
                assert(prev[from_j] != prev[from_i]);
            }
        }
    }
}

/// A run in which every pivot already stands on the diagonal exchanges
/// nothing: the rows keep their natural order, and the sign stays plus one.
pub proof fn lemma_no_exchange(n: nat, choice: Seq<int>)
    requires
        choice.len() <= n,
        forall|k: int| 0 <= k < choice.len() ==> #[trigger] choice[k] == k,
    ensures
        order_after(n, choice) == identity_order(n),
        sign_after(choice) == ONE,
    decreases choice.len(),
{
    if choice.len() > 0 {
        let before = choice.drop_last();
        assert forall|k: int| 0 <= k < before.len() implies #[trigger] before[k] == k by {
            assert(before[k] == choice[k]);
        }
        lemma_no_exchange(n, before);
        assert(choice.last() == choice[choice.len() - 1]);
        assert(order_after(n, choice) =~= identity_order(n));
    }
}

/// A run that leaves every position it has reached with its own row has
/// exchanged nothing. So a factorization whose rows stand in their natural
/// order has the sign plus one: a run that moves a row never restores the
/// natural order.
pub proof fn lemma_natural_order_means_no_exchange(n: nat, choice: Seq<int>)
    requires
        n <= usize::MAX,
        choice.len() <= n,
        forall|k: int| 0 <= k < choice.len() ==> k <= #[trigger] choice[k] < n,
        forall|i: int| 0 <= i < choice.len() ==> order_after(n, choice)[i] == i,
    ensures
        forall|k: int| 0 <= k < choice.len() ==> #[trigger] choice[k] == k,
        order_after(n, choice) == identity_order(n),
        sign_after(choice) == ONE,
    decreases choice.len(),
{
    if choice.len() > 0 {
        let before = choice.drop_last();
        let k = choice.len() - 1;
        let p = choice.last();
        assert(k <= choice[k] < n);
        assert forall|j: int| 0 <= j < before.len() implies j <= #[trigger] before[j] < n by {
            assert(before[j] == choice[j]);
        }
        lemma_order_is_permutation(n, before);
        let prev = order_after(n, before);
        let next = exchange(prev, k, p);
        assert forall|i: int| 0 <= i < before.len() implies prev[i] == i by {
            assert(next[i] == prev[i]);
            assert(order_after(n, choice)[i] == i);
        }
        lemma_natural_order_means_no_exchange(n, before);
        assert(next[k] == prev[p]);
        assert(order_after(n, choice)[k] == k);
        assert(p == k);
        assert forall|j: int| 0 <= j < choice.len() implies #[trigger] choice[j] == j by {
            if j < k {
                assert(before[j] == j);
            }
        }
        lemma_no_exchange(n, choice);
    }
}

} // verus!
