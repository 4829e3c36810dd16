use uuid::Uuid;
use vstd::prelude::*;

verus! {

/// `uuid::Uuid`, the identity of a file in the workspace. Nothing of its
/// inside is visible to proofs: two identifiers are either the same value or
/// different values.
#[verifier::external_type_specification]
#[verifier::external_body]
pub struct ExUuid(uuid::Uuid);

/// Calls `Uuid`'s `==`. The contract claims that it answers `true` exactly
/// when both arguments are the same identifier: `Uuid` compares its sixteen
/// bytes and nothing else.
#[verifier::external_body]
pub(crate) fn same_file(a: &Uuid, b: &Uuid) -> (same: bool)
    ensures
        same == (*a == *b),
{
    a == b
}

} // verus!
