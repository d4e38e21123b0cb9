//! Identifiers of participants and receipts.
//!
//! An identifier is the 128-bit value of a UUID. The ledger only ever
//! compares identifiers for equality.

use vstd::prelude::*;

verus! {

/// The bits of a UUID that hold its version and its variant.
pub const UUID_KIND_MASK: u128 = 0x0000_0000_0000_f000_c000_0000_0000_0000u128;

/// The value of those bits in a random (version 4) UUID of the RFC variant.
pub const UUID_RANDOM_KIND: u128 = 0x0000_0000_0000_4000_8000_0000_0000_0000u128;

/// Whether `id` has the version and variant bits of a random UUID.
pub open spec fn is_random_uuid(id: u128) -> bool {
    id & UUID_KIND_MASK == UUID_RANDOM_KIND
}

/// Draws a new identifier.
///
/// Trusted: the body calls `uuid::Uuid::new_v4` and takes the result's
/// 128-bit value with `Uuid::as_u128`. The value is random; the contract
/// claims only what `new_v4` fixes in every outcome, namely that the
/// version bits say 4 and the variant bits say RFC. Nothing is claimed
/// about two draws being different.
#[verifier::external_body]
pub(crate) fn fresh_id() -> (id: u128)
    ensures
        is_random_uuid(id),
{
    uuid::Uuid::new_v4().as_u128()
}

} // verus!
