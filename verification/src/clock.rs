//! Wall-clock instants and random identifiers used by votes and deals.

use vstd::prelude::*;
use std::time::Instant;

verus! {

/// The standard library's monotonic clock reading `std::time::Instant`.
#[verifier::external_type_specification]
#[verifier::external_body]
pub struct ExInstant(Instant);

/// The current instant (`Instant::now`).
///
/// Trusted: nothing is claimed about the value.
#[verifier::external_body]
pub(crate) fn now() -> Instant {
    Instant::now()
}

/// Whether instant `a` is later than instant `b` (`a > b` on
/// `std::time::Instant`).
///
/// Trusted: nothing is claimed about the result; the instants are opaque here.
#[verifier::external_body]
pub(crate) fn instant_after(a: Instant, b: Instant) -> bool {
    a > b
}

/// A fresh random version-4 identifier (`uuid::Uuid::new_v4`), as its 128-bit
/// value.
///
/// Trusted: the value is random; the uuid source sets the version nibble
/// (bits 76 to 79) to 4, which is all that is claimed.
#[verifier::external_body]
pub(crate) fn new_uuid_v4() -> (id: u128)
    ensures
        (id >> 76u128) & 0xfu128 == 4,
{
    uuid::Uuid::new_v4().as_u128()
}

} // verus!
