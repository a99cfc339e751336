//! What holds of the multiplexer over all inputs.
//!
//! The laws speak of the spec functions in which the contracts of
//! [`MuxAgent`](crate::mux::MuxAgent) are written: `routes()` after a listing
//! is [`refreshed`] of the routes before it, and `sign_target` answers from
//! `routes()`.

use crate::identity::Identity;
use crate::listing::all_ok;
use crate::listing::lemma_tagged_holds;
use crate::listing::lemma_tagged_origin;
use crate::listing::lemma_tags_ascend;
use crate::listing::listings;
use crate::listing::tagged;
use crate::mux::listing_routes;
use crate::mux::refreshed;
use crate::routing::key_indexes;
use crate::routing::lemma_named_key_has_route;
use crate::routing::lemma_route_has_last_entry;
use ssh_key::public::KeyData;
use vstd::prelude::*;

verus! {

/// The backend's listing holds an identity with this key.
pub open spec fn lists_key(listing: Seq<Identity>, key: KeyData) -> bool {
    exists|j: int| 0 <= j < listing.len() && listing[j].pubkey == key
}

/// Some backend's listing holds an identity with this key.
pub open spec fn some_backend_lists(listings: Seq<Seq<Identity>>, key: KeyData) -> bool {
    exists|b: int| 0 <= b < listings.len() && lists_key(#[trigger] listings[b], key)
}

/// The routes after a history of listing rounds, oldest first, starting from
/// the empty table.
pub open spec fn routes_after<E>(history: Seq<Seq<Result<Vec<Identity>, E>>>) -> Map<
    KeyData,
    usize,
>
    decreases history.len(),
{
    if history.len() == 0 {
        Map::empty()
    } else {
        refreshed(routes_after(history.drop_last()), history.last())
    }
}

/// Some round of the history in which every backend answered listed this key.
pub open spec fn was_listed<E>(history: Seq<Seq<Result<Vec<Identity>, E>>>, key: KeyData) -> bool {
    exists|round: int|
        0 <= round < history.len() && all_ok(#[trigger] history[round]) && some_backend_lists(
            listings(history[round]),
            key,
        )
}

/// After a listing, every key that a backend listed is routed to a backend
/// that listed it: to the last such backend. So a key that only one backend
/// listed is routed to that backend, and a key that several listed to the
/// latest of them.
pub proof fn law_listed_key_routes_to_last_lister(listings: Seq<Seq<Identity>>, b: int, j: int)
    requires
        listings.len() <= usize::MAX,
        0 <= b < listings.len(),
        0 <= j < listings[b].len(),
    ensures
        ({
            let key = listings[b][j].pubkey;
            let routes = listing_routes(listings);
            &&& routes.contains_key(key)
            &&& b <= routes[key] < listings.len()
            &&& lists_key(listings[routes[key] as int], key)
            &&& forall|later: int|
                routes[key] < later < listings.len() ==> !lists_key(#[trigger] listings[later], key)
            &&& (forall|other: int|
                0 <= other < listings.len() && other != b ==> !lists_key(
                    #[trigger] listings[other],
                    key,
                )) ==> routes[key] == b
        }),
{
    let key = listings[b][j].pubkey;
    let entries = key_indexes(tagged(listings));
    let p = lemma_tagged_holds(listings, b, j);
    assert(entries[p].key == key);
    lemma_named_key_has_route(entries, p);
    let i = lemma_route_has_last_entry(entries, key);
    let origin = lemma_tagged_origin(listings, i);
    let t = origin.0;
    assert(listings[t][origin.1].pubkey == key);
    assert(lists_key(listings[t], key));
    assert(p <= i) by {
        if i < p {
            assert(entries[p].key != entries[i].key);
        }
    }
    lemma_tags_ascend(listings, p, i);
    assert forall|later: int| t < later < listings.len() implies !lists_key(
        #[trigger] listings[later],
        key,
    ) by {
        if lists_key(listings[later], key) {
            let k = choose|k: int| 0 <= k < listings[later].len() && listings[later][k].pubkey == key;
            let q = lemma_tagged_holds(listings, later, k);
            assert(entries[q].key == key);
            if q <= i {
                lemma_tags_ascend(listings, q, i);
            }
        }
    }
}

/// After a listing, the keys that have a route are those that some backend
/// listed, and no others.
pub proof fn law_routes_cover_the_listed_keys(listings: Seq<Seq<Identity>>, key: KeyData)
    requires
        listings.len() <= usize::MAX,
    ensures
        listing_routes(listings).contains_key(key) <==> some_backend_lists(listings, key),
{
    let entries = key_indexes(tagged(listings));
    if listing_routes(listings).contains_key(key) {
        let i = lemma_route_has_last_entry(entries, key);
        let origin = lemma_tagged_origin(listings, i);
        assert(listings[origin.0][origin.1].pubkey == key);
        assert(lists_key(listings[origin.0], key));
    }
    if some_backend_lists(listings, key) {
        let b = choose|b: int| 0 <= b < listings.len() && lists_key(#[trigger] listings[b], key);
        let j = choose|j: int| 0 <= j < listings[b].len() && listings[b][j].pubkey == key;
        law_listed_key_routes_to_last_lister(listings, b, j);
    }
}

/// A key that no listing ever returned has no route, whatever rounds of
/// listing went before: a signing request for it is turned down.
pub proof fn law_unlisted_key_has_no_route<E>(
    history: Seq<Seq<Result<Vec<Identity>, E>>>,
    key: KeyData,
)
    requires
        forall|round: int|
            0 <= round < history.len() ==> (#[trigger] history[round]).len() <= usize::MAX,
        !was_listed(history, key),
    ensures
        !routes_after(history).contains_key(key),
    decreases history.len(),
{
    if history.len() > 0 {
        let before = history.drop_last();
        let round = history.len() - 1;
        assert(!was_listed(before, key)) by {
            if was_listed(before, key) {
                let earlier = choose|earlier: int|
                    0 <= earlier < before.len() && all_ok(#[trigger] before[earlier])
                        && some_backend_lists(listings(before[earlier]), key);
                assert(before[earlier] == history[earlier]);
            }
        }
        assert forall|earlier: int| 0 <= earlier < before.len() implies (#[trigger] before[earlier]).len()
            <= usize::MAX by {
            assert(before[earlier] == history[earlier]);
        }
        law_unlisted_key_has_no_route(before, key);
        if all_ok(history[round]) {
            assert(!some_backend_lists(listings(history[round]), key));
            law_routes_cover_the_listed_keys(listings(history[round]), key);
        }
    }
}

/// A failed listing changes no route: whatever was routed before it is
/// routed to the same backend after it.
pub proof fn law_failed_listing_keeps_routes<E>(
    routes: Map<KeyData, usize>,
    responses: Seq<Result<Vec<Identity>, E>>,
)
    requires
        !all_ok(responses),
    ensures
        refreshed(routes, responses) == routes,
{
}

} // verus!
