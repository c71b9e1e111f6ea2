use vstd::prelude::*;

verus! {

/// Relies on uuid::Uuid::new_v4: a freshly drawn random identifier, handed
/// back as its 128-bit value. The result is random, so nothing is promised
/// of it.
#[verifier::external_body]
pub(crate) fn random_uuid_128() -> u128 {
    uuid::Uuid::new_v4().as_u128()
}

} // verus!
