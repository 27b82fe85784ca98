//! Sequences: sums of natural numbers with what running totals need to
//! know of them, and sequences of results that may be missing.
use vstd::prelude::*;

verus! {

/// The sum of `terms`.
pub open spec fn sum(terms: Seq<nat>) -> nat
    decreases terms.len(),
{
    if terms.len() == 0 {
        0
    } else {
        sum(terms.drop_last()) + terms.last()
    }
}

/// Whether `total` is there and fits in a `usize`.
pub open spec fn fits(total: Option<nat>) -> bool {
    total matches Some(t) && t <= usize::MAX
}

/// The sum of the first `k + 1` terms is the sum of the first `k` and the
/// term that follows them.
pub proof fn lemma_sum_take(terms: Seq<nat>, k: int)
    requires
        0 <= k < terms.len(),
    ensures
        sum(terms.take(k + 1)) == sum(terms.take(k)) + terms[k],
{
    assert(terms.take(k + 1).drop_last() == terms.take(k));
}

/// No running total exceeds the sum.
pub proof fn lemma_sum_prefix(terms: Seq<nat>, k: int)
    requires
        0 <= k <= terms.len(),
    ensures
        sum(terms.take(k)) <= sum(terms),
    decreases terms.len() - k,
{
    if k < terms.len() {
        lemma_sum_take(terms, k);
        lemma_sum_prefix(terms, k + 1);
    } else {
        assert(terms.take(k) == terms);
    }
}

/// No term exceeds the sum.
pub proof fn lemma_sum_term(terms: Seq<nat>, k: int)
    requires
        0 <= k < terms.len(),
    ensures
        terms[k] <= sum(terms),
{
    lemma_sum_take(terms, k);
    lemma_sum_prefix(terms, k + 1);
}

/// Sequences with the same terms have the same sum.
pub proof fn lemma_sum_all(terms: Seq<nat>)
    ensures
        sum(terms.take(terms.len() as int)) == sum(terms),
{
    assert(terms.take(terms.len() as int) == terms);
}

/// `s` without its first item; `s` itself if it is empty.
pub open spec fn tail<A>(s: Seq<A>) -> Seq<A> {
    if s.len() > 0 {
        s.drop_first()
    } else {
        s
    }
}

/// The values of `s` if every one of its items has one.
pub open spec fn all_some<A>(s: Seq<Option<A>>) -> Option<Seq<A>> {
    if forall|k: int| 0 <= k < s.len() ==> (#[trigger] s[k]) is Some {
        Some(Seq::new(s.len(), |k: int| s[k]->0))
    } else {
        None
    }
}

} // verus!
