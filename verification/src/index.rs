//! The first index at which something holds.

use vstd::prelude::*;

verus! {

/// The least index in `from..to` at which `hit` holds, and `to` if it holds at
/// none.
pub open spec fn first_index(from: int, to: int, hit: spec_fn(int) -> bool) -> int
    decreases to - from,
{
    if from >= to {
        to
    } else if hit(from) {
        from
    } else {
        first_index(from + 1, to, hit)
    }
}

/// `first_index` lies in range, `hit` holds there unless it is `to`, and `hit`
/// holds nowhere before it.
pub proof fn lemma_first_index(from: int, to: int, hit: spec_fn(int) -> bool)
    requires
        from <= to,
    ensures
        from <= first_index(from, to, hit) <= to,
        first_index(from, to, hit) < to ==> hit(first_index(from, to, hit)),
        forall|k: int| from <= k < first_index(from, to, hit) ==> !#[trigger] hit(k),
    decreases to - from,
{
    if from < to && !hit(from) {
        lemma_first_index(from + 1, to, hit);
    }
}

/// An index with the three properties of `lemma_first_index` is `first_index`.
pub proof fn lemma_first_index_is(from: int, to: int, hit: spec_fn(int) -> bool, at: int)
    requires
        from <= at <= to,
        at < to ==> hit(at),
        forall|k: int| from <= k < at ==> !#[trigger] hit(k),
    ensures
        first_index(from, to, hit) == at,
    decreases to - from,
{
    if from < at {
        assert(!hit(from));
        lemma_first_index_is(from + 1, to, hit, at);
    }
}

} // verus!
