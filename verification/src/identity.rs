//! Identities, and identities tagged with the backend that reported them.

use ssh_key::public::KeyData;
use vstd::prelude::*;

verus! {

/// One key that a backend offers: the public key and a label for it.
#[derive(Clone, Debug, PartialEq, Eq)]
pub struct Identity {
    pub pubkey: KeyData,
    pub comment: String,
}

/// An identity together with the index of the backend that reported it.
#[derive(Clone, Debug, PartialEq, Eq)]
pub struct IdentityIndex {
    pub identity: Identity,
    pub target_index: usize,
}

} // verus!
