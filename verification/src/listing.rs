//! Putting the backends' answers to one identity listing together.

use crate::identity::Identity;
use crate::identity::IdentityIndex;
use vstd::prelude::*;

verus! {

/// Every backend answered.
pub open spec fn all_ok<T, E>(responses: Seq<Result<T, E>>) -> bool {
    forall|i: int| 0 <= i < responses.len() ==> responses[i] is Ok
}

/// Response `i` is a failure, and every response before it is an answer.
pub open spec fn is_first_failure<T, E>(responses: Seq<Result<T, E>>, i: int) -> bool {
    &&& 0 <= i < responses.len()
    &&& responses[i] is Err
    &&& forall|j: int| 0 <= j < i ==> responses[j] is Ok
}

/// The answers of the backends, in backend order, where every backend answered.
pub open spec fn answers<T, E>(responses: Seq<Result<T, E>>) -> Seq<T> {
    Seq::new(responses.len(), |i: int| responses[i]->Ok_0)
}

/// All the answers, or the first failure: one failing backend fails the whole.
pub fn gather<T, E>(responses: Vec<Result<T, E>>) -> (r: Result<Vec<T>, E>)
    ensures
        match r {
            Ok(v) => all_ok(responses@) && v@ == answers(responses@),
            Err(e) => exists|i: int|
                is_first_failure(responses@, i) && responses@[i] == Err::<T, E>(e),
        },
{
    let ghost all = responses@;
    let mut gathered: Vec<T> = Vec::new();
    for response in it: responses.into_iter()
        invariant
            it.seq() == all,
            gathered@.len() == it.index(),
            forall|j: int| 0 <= j < it.index() ==> all[j] == Ok::<T, E>(gathered@[j]),
    {
        match response {
            Ok(answer) => {
                gathered.push(answer);
            },
            Err(e) => {
                proof {
                    assert(is_first_failure(all, it.index() as int));
                }
                return Err(e);
            },
        }
    }
    proof {
        assert(gathered@ =~= answers(all));
    }
    Ok(gathered)
}

/// What each backend listed, in backend order, where every backend answered.
pub open spec fn listings<E>(responses: Seq<Result<Vec<Identity>, E>>) -> Seq<Seq<Identity>> {
    Seq::new(responses.len(), |i: int| responses[i]->Ok_0@)
}

/// The identities of one backend, each tagged with that backend.
pub open spec fn tag_all(identities: Seq<Identity>, target_index: usize) -> Seq<IdentityIndex> {
    identities.map_values(|identity: Identity| IdentityIndex { identity, target_index })
}

/// The identities of all backends, each tagged with the backend that listed
/// it: those of backend 0 first, then those of backend 1, and so on, each
/// backend's in the order in which it listed them.
pub open spec fn tagged(listings: Seq<Seq<Identity>>) -> Seq<IdentityIndex>
    decreases listings.len(),
{
    if listings.len() == 0 {
        Seq::empty()
    } else {
        tagged(listings.drop_last()) + tag_all(listings.last(), (listings.len() - 1) as usize)
    }
}

/// The identities without their tags.
pub open spec fn untagged(identity_indexes: Seq<IdentityIndex>) -> Seq<Identity> {
    identity_indexes.map_values(|tagged: IdentityIndex| tagged.identity)
}

/// Taking the tags off again gives the backends' listings one after the other.
pub proof fn lemma_untagged_is_concatenation(listings: Seq<Seq<Identity>>)
    ensures
        untagged(tagged(listings)) == listings.flatten(),
    decreases listings.len(),
{
    listings.lemma_flatten_and_flatten_alt_are_equivalent();
    if listings.len() == 0 {
        assert(untagged(tagged(listings)) =~= listings.flatten_alt());
    } else {
        let rest = listings.drop_last();
        lemma_untagged_is_concatenation(rest);
        rest.lemma_flatten_and_flatten_alt_are_equivalent();
        let target_index = (listings.len() - 1) as usize;
        assert(untagged(tag_all(listings.last(), target_index)) =~= listings.last());
        assert(untagged(tagged(listings)) =~= untagged(tagged(rest)) + untagged(
            tag_all(listings.last(), target_index),
        ));
    }
}

/// Every tag is the index of one of the backends.
pub proof fn lemma_tags_are_backends(listings: Seq<Seq<Identity>>)
    requires
        listings.len() <= usize::MAX,
    ensures
        forall|p: int|
            0 <= p < tagged(listings).len() ==> (#[trigger] tagged(listings)[p]).target_index
                < listings.len(),
    decreases listings.len(),
{
    if listings.len() > 0 {
        let rest = listings.drop_last();
        lemma_tags_are_backends(rest);
        assert forall|p: int| 0 <= p < tagged(listings).len() implies (#[trigger] tagged(
            listings,
        )[p]).target_index < listings.len() by {
            if p < tagged(rest).len() {
                assert(tagged(listings)[p] == tagged(rest)[p]);
            }
        }
    }
}

/// Identity `j` of backend `b` stands in the tagged sequence, tagged with `b`.
pub proof fn lemma_tagged_holds(listings: Seq<Seq<Identity>>, b: int, j: int) -> (p: int)
    requires
        listings.len() <= usize::MAX,
        0 <= b < listings.len(),
        0 <= j < listings[b].len(),
    ensures
        0 <= p < tagged(listings).len(),
        tagged(listings)[p] == (IdentityIndex {
            identity: listings[b][j],
            target_index: b as usize,
        }),
    decreases listings.len(),
{
    let rest = listings.drop_last();
    if b == listings.len() - 1 {
        tagged(rest).len() + j
    } else {
        lemma_tagged_holds(rest, b, j)
    }
}

/// Every element of the tagged sequence is an identity of some backend,
/// tagged with that backend.
pub proof fn lemma_tagged_origin(listings: Seq<Seq<Identity>>, p: int) -> (origin: (int, int))
    requires
        listings.len() <= usize::MAX,
        0 <= p < tagged(listings).len(),
    ensures
        0 <= origin.0 < listings.len(),
        0 <= origin.1 < listings[origin.0].len(),
        tagged(listings)[p] == (IdentityIndex {
            identity: listings[origin.0][origin.1],
            target_index: origin.0 as usize,
        }),
    decreases listings.len(),
{
    let rest = listings.drop_last();
    if p < tagged(rest).len() {
        lemma_tagged_origin(rest, p)
    } else {
        (listings.len() - 1, p - tagged(rest).len())
    }
}

/// Along the tagged sequence the tags never go down.
pub proof fn lemma_tags_ascend(listings: Seq<Seq<Identity>>, p: int, q: int)
    requires
        listings.len() <= usize::MAX,
        0 <= p <= q < tagged(listings).len(),
    ensures
        tagged(listings)[p].target_index <= tagged(listings)[q].target_index,
    decreases listings.len(),
{
    let rest = listings.drop_last();
    if q < tagged(rest).len() {
        lemma_tags_ascend(rest, p, q);
    } else {
        lemma_tags_are_backends(listings);
    }
}

/// Tags every identity with the index of the backend that listed it.
pub fn tag_identities(listings: Vec<Vec<Identity>>) -> (r: Vec<IdentityIndex>)
    ensures
        r@ == tagged(listings@.map_values(|listing: Vec<Identity>| listing@)),
{
    let ghost all = listings@;
    let ghost views = all.map_values(|listing: Vec<Identity>| listing@);
    let mut out: Vec<IdentityIndex> = Vec::new();
    let mut target_index: usize = 0;
    let count = listings.len();
    for listing in it: listings.into_iter()
        invariant
            it.seq() == all,
            all.len() == count,
            views == all.map_values(|listing: Vec<Identity>| listing@),
            target_index == it.index(),
            out@ == tagged(views.take(it.index() as int)),
    {
        let ghost before = out@;
        let ghost identities = listing@;
        for identity in jt: listing.into_iter()
            invariant
                jt.seq() == identities,
                out@ == before + tag_all(identities.take(jt.index() as int), target_index),
        {
            proof {
                let k = jt.index() as int;
                assert(tag_all(identities.take(k + 1), target_index) =~= tag_all(
                    identities.take(k),
                    target_index,
                ).push(IdentityIndex { identity, target_index }));
            }
            out.push(IdentityIndex { identity, target_index });
        }
        proof {
            let n = it.index() as int;
            assert(identities.take(identities.len() as int) =~= identities);
            assert(views.take(n + 1).drop_last() =~= views.take(n));
            assert(views.take(n + 1).last() == identities);
        }
        target_index += 1;
    }
    proof {
        assert(views.take(all.len() as int) =~= views);
    }
    out
}

/// Takes the tags off.
pub fn untag_identities(identity_indexes: Vec<IdentityIndex>) -> (r: Vec<Identity>)
    ensures
        r@ == untagged(identity_indexes@),
{
    let ghost all = identity_indexes@;
    let mut out: Vec<Identity> = Vec::new();
    for tagged in it: identity_indexes.into_iter()
        invariant
            it.seq() == all,
            out@ == untagged(all.take(it.index() as int)),
    {
        proof {
            let k = it.index() as int;
            assert(untagged(all.take(k + 1)) =~= untagged(all.take(k)).push(tagged.identity));
        }
        out.push(tagged.identity);
    }
    proof {
        assert(all.take(all.len() as int) =~= all);
    }
    out
}

} // verus!
