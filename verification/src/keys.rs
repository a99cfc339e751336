//! Public keys as the routing core sees them.
//!
//! A key is an `ssh_key::public::KeyData`. The core never looks inside one: it
//! copies keys into the routing table and compares a requested key with the
//! keys stored there. Both operations belong to `ssh_key` and are taken on
//! trust here; everything built on them is verified.

use ssh_key::public::KeyData;
use vstd::prelude::*;

verus! {

/// `ssh_key::public::KeyData`, carried through as an opaque value.
#[verifier::external_type_specification]
#[verifier::external_body]
pub struct ExKeyData(KeyData);

/// Calls `==` of `KeyData`, which `ssh_key` derives down to the bytes of the
/// key material: two keys compare equal when they are the same variant and
/// hold the same material. Not proved: that this is equality of the two keys
/// as values.
#[verifier::external_body]
pub(crate) fn same_key(a: &KeyData, b: &KeyData) -> (r: bool)
    ensures
        r == (*a == *b),
{
    a == b
}

/// `clone` of `KeyData`, which `ssh_key` derives field by field. Not proved:
/// that the copy is the same key as the one it was made from.
pub assume_specification[ <KeyData as Clone>::clone ](key: &KeyData) -> (r: KeyData)
    ensures
        r == *key,
;

} // verus!
