//! Trusted boundary to the `rand` crate: uniform integer draws from inclusive
//! ranges, either from a caller-supplied seeded generator or from the
//! thread-local one.
//!
//! Nothing here is verified; each function states only what the `rand`
//! sources guarantee of every outcome. Everything that depends on the drawn
//! numbers is verified in the callers against these contracts.

use vstd::prelude::*;

use rand::distributions::Distribution;
use rand::Rng;

verus! {

/// A seeded random number generator of the `rand` crate, opaque to the
/// verifier. Callers construct and seed it outside the library.
#[verifier::external_type_specification]
#[verifier::external_body]
pub struct ExStdRng(rand::rngs::StdRng);

/// Relies on `rand::distributions::Uniform::new_inclusive` and `sample` for
/// `i32`: with `min <= max` the constructor does not panic and the sample
/// lies in `[min, max]` (the drawn offset is strictly below the range width,
/// or the full type range is sampled).
#[verifier::external_body]
pub(crate) fn uniform_integer_between(rng: &mut rand::rngs::StdRng, min: i32, max: i32) -> (r: i32)
    requires
        min <= max,
    ensures
        min <= r <= max,
{
    rand::distributions::Uniform::new_inclusive(min, max).sample(rng)
}

/// Relies on `rand::distributions::Uniform::new_inclusive` and `sample` for
/// `u64`, with the same guarantees as for `i32`.
#[verifier::external_body]
pub(crate) fn uniform_u64_between(rng: &mut rand::rngs::StdRng, min: u64, max: u64) -> (r: u64)
    requires
        min <= max,
    ensures
        min <= r <= max,
{
    rand::distributions::Uniform::new_inclusive(min, max).sample(rng)
}

/// Relies on `rand::thread_rng` and the same `Uniform` sampler as
/// `uniform_integer_between`, with the thread-local generator as the source.
#[verifier::external_body]
pub(crate) fn entropy_integer_between(min: i32, max: i32) -> (r: i32)
    requires
        min <= max,
    ensures
        min <= r <= max,
{
    rand::distributions::Uniform::new_inclusive(min, max).sample(&mut rand::thread_rng())
}

/// Relies on `rand::thread_rng` and the same `Uniform` sampler as
/// `uniform_u64_between`, with the thread-local generator as the source.
#[verifier::external_body]
pub(crate) fn entropy_u64_between(min: u64, max: u64) -> (r: u64)
    requires
        min <= max,
    ensures
        min <= r <= max,
{
    rand::distributions::Uniform::new_inclusive(min, max).sample(&mut rand::thread_rng())
}

/// Relies on `rand::thread_rng` and `Rng::gen` for `u8`; nothing is promised
/// of the outcome.
#[verifier::external_body]
pub(crate) fn entropy_byte() -> u8 {
    rand::thread_rng().gen::<u8>()
}

} // verus!
