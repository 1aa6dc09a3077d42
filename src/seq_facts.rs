//! Small facts about sequences that the proofs share.
use vstd::prelude::*;

verus! {

/// Filtering never lengthens a sequence.
pub proof fn lemma_filter_len_le<A>(s: Seq<A>, p: spec_fn(A) -> bool)
    ensures
        s.filter(p).len() <= s.len(),
{
    s.lemma_filter_len(p);
}

} // verus!
