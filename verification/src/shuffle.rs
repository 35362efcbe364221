use vstd::prelude::*;
use rand::seq::SliceRandom;

verus! {

/// Relies on rand's `SliceRandom::shuffle` driven by `rand::thread_rng`:
/// it permutes the elements of the slice in place, so the new contents are
/// a rearrangement of the old — nothing more can be said of a random draw.
#[verifier::external_body]
pub(crate) fn shuffle_vec<T: DeepView>(v: &mut Vec<T>)
    ensures
        final(v).deep_view().to_multiset() == old(v).deep_view().to_multiset(),
        final(v)@.len() == old(v)@.len(),
{
    v.shuffle(&mut rand::thread_rng());
}

} // verus!
