use vstd::prelude::*;
use rand::distributions::Uniform;
use rand::Rng;

verus! {

/// Relies on rand's `Uniform::new(floor, ceil)`, sampled `n` times from
/// `thread_rng`: the result has `n` values, each in `[floor, ceil)`.
/// `Uniform::new` panics unless `floor < ceil`.
#[verifier::external_body]
pub fn gen_random_vector(floor: usize, ceil: usize, n: usize) -> (r: Vec<usize>)
    requires
        floor < ceil,
    ensures
        r@.len() == n,
        forall|i: int| 0 <= i < n ==> floor <= #[trigger] r@[i] < ceil,
{
    let range = Uniform::new(floor, ceil);
    rand::thread_rng().sample_iter(&range).take(n).collect()
}

} // verus!
