//! Pseudo-random number generation for the guessing game: the current time
//! seeds a xorshift scramble.

use vstd::prelude::*;

verus! {

/// Three xorshift rounds over a 64-bit seed.
pub open spec fn spec_scramble(s: u64) -> u64 {
    let a = s ^ (s << 21);
    let b = a ^ (a >> 35);
    b ^ (b << 4)
}

/// Scrambles a seed with three xorshift rounds.
pub fn scramble(seed: u64) -> (r: u64)
    ensures
        r == spec_scramble(seed),
{
    let a = seed ^ (seed << 21);
    let b = a ^ (a >> 35);
    b ^ (b << 4)
}

/// Relies on std::time::SystemTime::now and duration_since: seconds since
/// the epoch, or 0 when the clock reads earlier than the epoch.  The result
/// depends on the clock, so nothing is promised of it.
#[verifier::external_body]
fn now_secs() -> u64 {
    match std::time::SystemTime::now().duration_since(std::time::UNIX_EPOCH) {
        Ok(d) => d.as_secs(),
        Err(_) => 0,
    }
}

/// A time-seeded pseudo-random number: the scramble of the current clock
/// reading.  The seed depends on the clock, so nothing can be promised of
/// the result; callers treat it as arbitrary.
pub fn random_int() -> u64 {
    scramble(now_secs())
}

} // verus!
