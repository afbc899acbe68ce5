use vstd::prelude::*;

verus! {

/// Relies on ulid::Ulid::new: a fresh id from the current time and a random
/// source. Nothing is promised of its value.
#[verifier::external_body]
pub(crate) fn fresh_ulid() -> (r: u128) {
    u128::from(ulid::Ulid::new())
}

} // verus!
