//! Randomness for backoff jitter and handshake nonces.
use vstd::prelude::*;

verus! {

/// Relies on rand::random_range over an inclusive range: the sample lies
/// within the range; nothing more is assumed of it. Panics on an empty
/// range, so the bounds must be ordered.
#[verifier::external_body]
pub fn random_in_range(lo: u64, hi: u64) -> (r: u64)
    requires
        lo <= hi,
    ensures
        lo <= r <= hi,
{
    rand::random_range(lo..=hi)
}

} // verus!
