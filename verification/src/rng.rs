use vstd::prelude::*;

verus! {

/// Relies on rand::random: one fresh draw from the thread-local generator.
/// Every 64-bit value is possible, so nothing is promised of the result.
#[verifier::external_body]
pub(crate) fn random_u64() -> u64 {
    rand::random::<u64>()
}

} // verus!
