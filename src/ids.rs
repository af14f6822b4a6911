//! Minting of opaque identifiers for reservations and orders.

use vstd::prelude::*;

verus! {

/// Relies on `uuid::Uuid::new_v4` and `Uuid::as_u128`: a random version-4
/// identifier, read as its 128-bit big-endian value. Nothing is promised of
/// the value: it is random but for its version and variant bits.
#[verifier::external_body]
pub(crate) fn fresh_id() -> (r: u128) {
    uuid::Uuid::new_v4().as_u128()
}

} // verus!
