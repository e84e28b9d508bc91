//! Facts about sequences that the proofs of this crate share.
use vstd::prelude::*;

verus! {

/// Filtering a prefix one element longer adds that element when it passes the filter.
pub proof fn lemma_filter_take_step<A>(s: Seq<A>, pred: spec_fn(A) -> bool, k: int)
    requires
        0 <= k < s.len(),
    ensures
        s.take(k + 1).filter(pred) == (if pred(s[k]) {
            s.take(k).filter(pred).push(s[k])
        } else {
            s.take(k).filter(pred)
        }),
{
    reveal(Seq::filter);
    assert(s.take(k + 1).drop_last() =~= s.take(k));
    assert(s.take(k + 1).last() == s[k]);
}

/// An element is in a sequence with one more element pushed exactly when it is that element or
/// was there before.
pub proof fn lemma_contains_push<A>(s: Seq<A>, x: A)
    ensures
        forall|e: A| #[trigger] s.push(x).contains(e) <==> (s.contains(e) || e == x),
{
    assert forall|e: A| #[trigger] s.push(x).contains(e) <==> (s.contains(e) || e == x) by {
        if s.push(x).contains(e) && e != x {
            let q = choose|q: int| 0 <= q < s.push(x).len() && s.push(x)[q] == e;
            assert(s[q] == e);
        }
        if s.contains(e) {
            let q = choose|q: int| 0 <= q < s.len() && s[q] == e;
            assert(s.push(x)[q] == e);
        }
        if e == x {
            assert(s.push(x)[s.len() as int] == e);
        }
    }
}

} // verus!
