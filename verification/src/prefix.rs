//! How far a run of good things reaches.

use vstd::prelude::*;

verus! {

/// How many of the first `n` things are good before one is not.
pub open spec fn leading(good: spec_fn(int) -> bool, n: nat) -> nat
    decreases n,
{
    if n == 0 {
        0
    } else {
        let before = leading(good, (n - 1) as nat);
        if before == n - 1 && good(n - 1) {
            n
        } else {
            before
        }
    }
}

/// What is counted is good, and what follows it is not.
pub proof fn lemma_leading(good: spec_fn(int) -> bool, n: nat)
    ensures
        leading(good, n) <= n,
        forall|i: int| 0 <= i < leading(good, n) ==> #[trigger] good(i),
        leading(good, n) < n ==> !good(leading(good, n) as int),
    decreases n,
{
    if n > 0 {
        lemma_leading(good, (n - 1) as nat);
    }
}

/// The count is told by what is good.
pub proof fn lemma_leading_is(good: spec_fn(int) -> bool, n: nat, k: nat)
    requires
        k <= n,
        forall|i: int| 0 <= i < k ==> #[trigger] good(i),
        k < n ==> !good(k as int),
    ensures
        leading(good, n) == k,
{
    lemma_leading(good, n);
    let c = leading(good, n);
    if c < k {
        assert(good(c as int));
    }
    if k < c {
        assert(good(k as int));
    }
}

} // verus!
