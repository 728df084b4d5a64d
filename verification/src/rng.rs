//! Trusted draws from the process-wide random generator. Nothing can be
//! promised about which value comes back, only its range; every caller
//! states what holds of the outcome whatever was drawn.

use vstd::prelude::*;

use rand::distributions::{Distribution, Uniform};
use rand::Rng;

verus! {

/// Relies on `rand::distributions::Uniform`: a sampler over `0..n` needs a
/// nonempty range and returns a value below `n`.
#[verifier::external_body]
pub(crate) fn uniform_vertex(n: usize) -> (r: usize)
    requires
        n >= 1,
    ensures
        r < n,
{
    let options = Uniform::from(0..n);
    let mut rng = rand::thread_rng();
    options.sample(&mut rng)
}

/// Relies on `rand::Rng::gen_range`: over the nonempty range `0..n` it
/// returns a value below `n`.
#[verifier::external_body]
pub(crate) fn random_below(n: usize) -> (r: usize)
    requires
        n >= 1,
    ensures
        r < n,
{
    let mut rng = rand::thread_rng();
    rng.gen_range(0..n)
}

} // verus!
