use vstd::prelude::*;

verus! {

/// Relies on `uuid::Uuid::new_v4` and its `Display`: a fresh random
/// identity in the 36-character hyphenated text form. Nothing else is
/// promised of its value.
#[verifier::external_body]
pub(crate) fn fresh_identity() -> (r: String)
    ensures
        r@.len() == 36,
{
    uuid::Uuid::new_v4().to_string()
}

} // verus!
