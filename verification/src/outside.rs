use rand::Rng;
use rand::SeedableRng;
use std::time::Duration;
use std::time::Instant;
use vstd::prelude::*;

verus! {

/// The random number generator of a round (`rand::rngs::StdRng`), carried opaquely.
#[verifier::external_type_specification]
#[verifier::external_body]
pub struct ExStdRng(rand::rngs::StdRng);

/// A point in time (`std::time::Instant`), carried opaquely.
#[verifier::external_type_specification]
#[verifier::external_body]
pub struct ExInstant(std::time::Instant);

/// The error of rand's generators (`rand::Error`, which is `rand_core::Error`), carried
/// opaquely.
#[verifier::external_type_specification]
#[verifier::external_body]
pub struct ExRandError(rand::Error);

/// Calls `StdRng::from_rng(OsRng)`: a generator seeded from the operating system's
/// entropy source. rand_core's `from_rng` fills the seed with `OsRng::try_fill_bytes`,
/// which reports a failure of the source as `Err` instead of panicking. Nothing is
/// claimed of the generator, nor of when the source fails.
#[verifier::external_body]
pub(crate) fn rng_from_os() -> (r: Result<rand::rngs::StdRng, rand::Error>) {
    rand::rngs::StdRng::from_rng(rand::rngs::OsRng)
}

/// Calls `StdRng::seed_from_u64`: a generator determined by `seed` (rand_core expands
/// the number into a full seed; the call does not panic). Nothing is claimed of the
/// generator.
#[verifier::external_body]
pub(crate) fn rng_from_seed(seed: u64) -> (r: rand::rngs::StdRng) {
    rand::rngs::StdRng::seed_from_u64(seed)
}

/// Calls `Rng::gen_range(low..high)` on `i32`. rand documents that the value lies in the
/// half-open range, and it panics on an empty range, which `requires` rules out.
/// Which value comes out rests on the generator's state; nothing more is claimed.
#[verifier::external_body]
pub(crate) fn random_in_range(rng: &mut rand::rngs::StdRng, low: i32, high: i32) -> (r: i32)
    requires
        low < high,
    ensures
        low <= r < high,
{
    rng.gen_range(low..high)
}

/// Calls `Instant::now`. The result is the machine's clock; nothing is claimed of it.
#[verifier::external_body]
pub(crate) fn clock_now() -> (r: Instant) {
    Instant::now()
}

/// Calls `Instant::elapsed`: the time since `start`, read from the machine's clock.
/// Nothing is claimed of it.
#[verifier::external_body]
pub(crate) fn time_since(start: &Instant) -> (r: Duration) {
    start.elapsed()
}

/// Calls `Duration::as_secs`: the whole seconds of a duration. The duration is opaque
/// here, so nothing is claimed of the number.
#[verifier::external_body]
pub(crate) fn whole_seconds(d: &Duration) -> (r: u64) {
    d.as_secs()
}

} // verus!
