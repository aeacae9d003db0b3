//! The three environment edges of identifier creation: the wall clock, the
//! machine's hostname and random entropy. Each stands behind a single trusted
//! call; everything computed from their results is verified.

use vstd::prelude::*;
use rand::Rng;

verus! {

/// Relies on `std::time::SystemTime::now` and `duration_since(UNIX_EPOCH)`:
/// the current wall-clock time as nanoseconds since the Unix epoch. A clock
/// set before the epoch yields 0. Nothing is promised of the value, which
/// depends on the clock alone.
#[verifier::external_body]
pub(crate) fn now_nanos() -> u128 {
    match std::time::SystemTime::now().duration_since(std::time::UNIX_EPOCH) {
        Ok(d) => d.as_nanos(),
        Err(_) => 0,
    }
}

/// Relies on `gethostname::gethostname`: the machine's hostname. A hostname
/// that is not valid UTF-8 yields the empty string. Nothing is promised of
/// the value, which depends on the machine alone.
#[verifier::external_body]
pub(crate) fn machine_hostname() -> String {
    match gethostname::gethostname().into_string() {
        Ok(s) => s,
        Err(_) => String::new(),
    }
}

/// Relies on `rand::thread_rng`, `Rng::sample_iter` and
/// `rand::distributions::Uniform`: twelve digit values drawn uniformly and
/// independently from `0..36`. Which values come out is random and is not
/// promised.
#[verifier::external_body]
pub(crate) fn random_digit_values() -> (r: Vec<u8>)
    ensures
        r@.len() == 12,
        forall|i: int| 0 <= i < 12 ==> r@[i] < 36,
{
    rand::thread_rng()
        .sample_iter(rand::distributions::Uniform::new(0u8, 36u8))
        .take(12)
        .collect()
}

} // verus!
