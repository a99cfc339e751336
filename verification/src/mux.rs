//! The multiplexing agent: many backends behind one agent.
//!
//! [`MuxAgent`] holds what the multiplexer remembers between requests, which
//! is the number of its backends and the routing table of the last identity
//! listing that succeeded. It decides; the caller talks to the backends. For a
//! listing the caller asks every backend and hands all the responses, in
//! backend order, to [`MuxAgent::merge_identities`]. For a signature it asks
//! [`MuxAgent::sign_target`] which backend owns the key and sends the request
//! there. An extension request goes to the backend that
//! [`MuxAgent::extension_target`] names, and [`extension_response`] says what
//! the client gets back.

use crate::identity::Identity;
use crate::identity::IdentityIndex;
use crate::listing::all_ok;
use crate::listing::gather;
use crate::listing::is_first_failure;
use crate::listing::lemma_tags_are_backends;
use crate::listing::lemma_untagged_is_concatenation;
use crate::listing::listings;
use crate::listing::tag_identities;
use crate::listing::tagged;
use crate::listing::untag_identities;
use crate::routing::key_indexes;
use crate::routing::lemma_route_has_last_entry;
use crate::routing::route_map;
use crate::routing::RoutingTable;
use ssh_key::public::KeyData;
use vstd::prelude::*;

verus! {

/// Why the multiplexer itself turns a request down.
#[derive(Clone, Copy, Debug, PartialEq, Eq, Structural)]
pub enum MuxError {
    /// A signature was asked for with a key that the routing table does not hold.
    KeyNotRecognized,
}

impl MuxError {
    /// The error in words.
    pub fn message(&self) -> (text: String)
        ensures
            text@ == "key not recognized"@,
    {
        "key not recognized".to_owned()
    }
}

/// The routes that one listing gives: every listed key is routed to the
/// backend that listed it, the later backend where several did.
pub open spec fn listing_routes(listings: Seq<Seq<Identity>>) -> Map<KeyData, usize> {
    route_map(key_indexes(tagged(listings)))
}

/// The routes that a round of responses leaves behind: those of the new
/// listing where every backend answered, the old ones where one failed.
pub open spec fn refreshed<E>(
    routes: Map<KeyData, usize>,
    responses: Seq<Result<Vec<Identity>, E>>,
) -> Map<KeyData, usize> {
    if all_ok(responses) {
        listing_routes(listings(responses))
    } else {
        routes
    }
}

/// The state of one multiplexer: how many backends it has, and which of them
/// owns which key. Every route leads to one of the backends.
#[derive(Debug)]
pub struct MuxAgent {
    targets: usize,
    key_target_map: RoutingTable,
}

impl MuxAgent {
    #[verifier::type_invariant]
    spec fn routes_lead_to_backends(&self) -> bool {
        forall|key: KeyData| #[trigger]
            self.key_target_map@.contains_key(key) ==> self.key_target_map@[key] < self.targets
    }

    /// The number of backends.
    pub closed spec fn spec_backend_count(&self) -> usize {
        self.targets
    }

    /// The routing table: the backend index of each key that has a route.
    pub closed spec fn routes(&self) -> Map<KeyData, usize> {
        self.key_target_map@
    }

    /// A multiplexer over `targets` backends that has not listed identities
    /// yet: it has no routes.
    pub fn new(targets: usize) -> (agent: Self)
        ensures
            agent.backend_count() == targets,
            agent.routes() == Map::<KeyData, usize>::empty(),
    {
        MuxAgent { targets, key_target_map: RoutingTable::new() }
    }

    /// The number of backends.
    #[verifier::when_used_as_spec(spec_backend_count)]
    pub fn backend_count(&self) -> (n: usize)
        ensures
            n == self.backend_count(),
    {
        self.targets
    }

    /// The number of routes, which is the number of distinct keys in the table.
    pub fn route_count(&self) -> (n: usize)
        ensures
            self.routes().dom().finite(),
            n == self.routes().dom().len(),
    {
        self.key_target_map.len()
    }

    /// Replaces the routing table by the routes of the given tagged
    /// identities. Nothing of the old table stays. Where a key comes twice the
    /// later occurrence decides.
    pub fn update_indexes(&mut self, identity_indexes: &[IdentityIndex])
        requires
            forall|i: int|
                0 <= i < identity_indexes@.len() ==> identity_indexes@[i].target_index < old(
                    self,
                ).backend_count(),
        ensures
            final(self).backend_count() == old(self).backend_count(),
            final(self).routes() == route_map(key_indexes(identity_indexes@)),
    {
        let table = RoutingTable::rebuild(identity_indexes);
        proof {
            let entries = key_indexes(identity_indexes@);
            assert forall|key: KeyData| #[trigger] table@.contains_key(key) implies table@[key]
                < self.targets by {
                let i = lemma_route_has_last_entry(entries, key);
                assert(entries[i].target_index == identity_indexes@[i].target_index);
            }
        }
        self.key_target_map = table;
    }

    /// Ends an identity listing. `responses` holds what each backend answered
    /// to the listing request, in backend order.
    ///
    /// Where every backend answered, the result is all their identities, those
    /// of backend 0 first, and the routing table is replaced by the routes of
    /// this listing. Where a backend failed, the result is the failure of the
    /// first such backend, and the routing table stays as it was.
    pub fn merge_identities<E>(&mut self, responses: Vec<Result<Vec<Identity>, E>>) -> (r: Result<
        Vec<Identity>,
        E,
    >)
        requires
            responses@.len() == old(self).backend_count(),
        ensures
            final(self).backend_count() == old(self).backend_count(),
            final(self).routes() == refreshed(old(self).routes(), responses@),
            match r {
                Ok(identities) => {
                    &&& all_ok(responses@)
                    &&& identities@ == listings(responses@).flatten()
                },
                Err(e) => {
                    &&& exists|i: int|
                        is_first_failure(responses@, i) && responses@[i] == Err::<Vec<Identity>, E>(
                            e,
                        )
                    &&& *final(self) == *old(self)
                },
            },
    {
        match gather(responses) {
            Ok(answered) => {
                proof {
                    assert(answered@.map_values(|listing: Vec<Identity>| listing@) =~= listings(
                        responses@,
                    ));
                    lemma_tags_are_backends(listings(responses@));
                    lemma_untagged_is_concatenation(listings(responses@));
                }
                let identity_indexes = tag_identities(answered);
                self.update_indexes(identity_indexes.as_slice());
                Ok(untag_identities(identity_indexes))
            },
            Err(e) => {
                proof {
                    let i = choose|i: int|
                        is_first_failure(responses@, i) && responses@[i] == Err::<Vec<Identity>, E>(
                            e,
                        );
                    assert(!(responses@[i] is Ok));
                }
                Err(e)
            },
        }
    }

    /// The backend to which a signing request for `pubkey` goes: the one that
    /// the routing table names for the key. A key without a route is turned
    /// down, and no backend is to be asked.
    pub fn sign_target(&self, pubkey: &KeyData) -> (r: Result<usize, MuxError>)
        ensures
            match r {
                Ok(target_index) => {
                    &&& self.routes().contains_key(*pubkey)
                    &&& target_index == self.routes()[*pubkey]
                    &&& target_index < self.backend_count()
                },
                Err(e) => e == MuxError::KeyNotRecognized && !self.routes().contains_key(*pubkey),
            },
    {
        proof {
            use_type_invariant(self);
        }
        match self.key_target_map.lookup(pubkey) {
            Some(target_index) => Ok(target_index),
            None => Err(MuxError::KeyNotRecognized),
        }
    }

    /// The backend to which every extension request goes: the first one,
    /// whatever the routing table holds. `None` where there is no backend.
    pub fn extension_target(&self) -> (r: Option<usize>)
        ensures
            r == (if self.backend_count() > 0 {
                Some(0usize)
            } else {
                None
            }),
    {
        if self.targets > 0 {
            Some(0)
        } else {
            None
        }
    }
}

/// What the client gets for an extension request, given what the designated
/// backend returned: its response where it gave one, and no response where it
/// gave none or failed. A failure of the backend is never passed on.
pub fn extension_response<X, E>(outcome: Result<Option<X>, E>) -> (r: Option<X>)
    ensures
        r == (match outcome {
            Ok(response) => response,
            Err(_) => None,
        }),
{
    match outcome {
        Ok(response) => response,
        Err(_) => None,
    }
}

} // verus!
