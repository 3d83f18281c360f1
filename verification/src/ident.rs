//! Fresh record identities.

use vstd::prelude::*;

verus! {

/// Draws a fresh 128-bit identity for a new record.
///
/// Relies on `uuid::Uuid::new_v4`, which draws a random version-4 UUID, and
/// `uuid::Uuid::as_u128`, which returns its 128 bits as one integer. The
/// result is random, so nothing is promised of it.
#[verifier::external_body]
pub(crate) fn fresh_identity() -> u128 {
    uuid::Uuid::new_v4().as_u128()
}

} // verus!
