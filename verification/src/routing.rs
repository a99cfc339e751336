//! The routing table: which backend owns which public key.

use crate::identity::IdentityIndex;
use crate::keys::same_key;
use ssh_key::public::KeyData;
use vstd::prelude::*;

verus! {

/// One routing entry: a public key and the index of the backend that owns it.
#[derive(Clone, Debug, PartialEq, Eq)]
pub struct KeyIndex {
    pub key: KeyData,
    pub target_index: usize,
}

/// The routes that a sequence of entries gives when the entries are applied in
/// order: a later entry for a key replaces an earlier one.
pub open spec fn route_map(entries: Seq<KeyIndex>) -> Map<KeyData, usize>
    decreases entries.len(),
{
    if entries.len() == 0 {
        Map::empty()
    } else {
        route_map(entries.drop_last()).insert(entries.last().key, entries.last().target_index)
    }
}

/// No key occurs in two entries.
pub open spec fn distinct_keys(entries: Seq<KeyIndex>) -> bool {
    forall|i: int, j: int| 0 <= i < j < entries.len() ==> entries[i].key != entries[j].key
}

/// Some entry names `key`.
pub open spec fn names_key(entries: Seq<KeyIndex>, key: KeyData) -> bool {
    exists|i: int| 0 <= i < entries.len() && entries[i].key == key
}

/// Entry `i` is the last one that names its key.
pub open spec fn is_last_for_key(entries: Seq<KeyIndex>, i: int) -> bool {
    &&& 0 <= i < entries.len()
    &&& forall|j: int| i < j < entries.len() ==> entries[j].key != entries[i].key
}

/// A key that no entry names has no route.
pub proof fn lemma_unnamed_key_has_no_route(entries: Seq<KeyIndex>, key: KeyData)
    requires
        !names_key(entries, key),
    ensures
        !route_map(entries).contains_key(key),
    decreases entries.len(),
{
    if entries.len() > 0 {
        let rest = entries.drop_last();
        assert(entries.last() == entries[entries.len() - 1]);
        assert(!names_key(rest, key)) by {
            if names_key(rest, key) {
                let i = choose|i: int| 0 <= i < rest.len() && rest[i].key == key;
                assert(entries[i].key == key);
            }
        }
        lemma_unnamed_key_has_no_route(rest, key);
    }
}

/// A key that some entry names has a route.
pub proof fn lemma_named_key_has_route(entries: Seq<KeyIndex>, i: int)
    requires
        0 <= i < entries.len(),
    ensures
        route_map(entries).contains_key(entries[i].key),
    decreases entries.len(),
{
    if entries.last().key != entries[i].key {
        lemma_named_key_has_route(entries.drop_last(), i);
    }
}

/// The last entry that names a key decides its route.
pub proof fn lemma_last_entry_wins(entries: Seq<KeyIndex>, i: int)
    requires
        is_last_for_key(entries, i),
    ensures
        route_map(entries).contains_key(entries[i].key),
        route_map(entries)[entries[i].key] == entries[i].target_index,
    decreases entries.len(),
{
    let rest = entries.drop_last();
    if i < entries.len() - 1 {
        assert(entries.last().key != entries[i].key);
        assert(is_last_for_key(rest, i)) by {
            assert forall|j: int| i < j < rest.len() implies rest[j].key != rest[i].key by {
                assert(entries[j].key != entries[i].key);
            }
        }
        lemma_last_entry_wins(rest, i);
    }
}

/// Every route comes from the last entry that names its key.
pub proof fn lemma_route_has_last_entry(entries: Seq<KeyIndex>, key: KeyData) -> (i: int)
    requires
        route_map(entries).contains_key(key),
    ensures
        is_last_for_key(entries, i),
        entries[i].key == key,
        route_map(entries)[key] == entries[i].target_index,
    decreases entries.len(),
{
    let rest = entries.drop_last();
    if entries.last().key == key {
        entries.len() - 1
    } else {
        let i = lemma_route_has_last_entry(rest, key);
        assert forall|j: int| i < j < entries.len() implies entries[j].key != entries[i].key by {
            if j < rest.len() {
                assert(rest[j].key != rest[i].key);
            }
        }
        i
    }
}

/// The routes of a sequence of entries are finitely many, at most one for each
/// entry, and exactly one for each entry where no key occurs twice.
pub proof fn lemma_route_count(entries: Seq<KeyIndex>)
    ensures
        route_map(entries).dom().finite(),
        route_map(entries).dom().len() <= entries.len(),
        distinct_keys(entries) ==> route_map(entries).dom().len() == entries.len(),
    decreases entries.len(),
{
    if entries.len() > 0 {
        let rest = entries.drop_last();
        lemma_route_count(rest);
        if distinct_keys(entries) {
            assert(distinct_keys(rest)) by {
                assert forall|i: int, j: int| 0 <= i < j < rest.len() implies rest[i].key
                    != rest[j].key by {
                    assert(entries[i].key != entries[j].key);
                }
            }
            assert(!names_key(rest, entries.last().key)) by {
                if names_key(rest, entries.last().key) {
                    let i = choose|i: int| 0 <= i < rest.len() && rest[i].key == entries.last().key;
                    assert(entries[i].key != entries[entries.len() - 1].key);
                }
            }
            lemma_unnamed_key_has_no_route(rest, entries.last().key);
        }
    }
}

/// The routing table of one multiplexer: for each known public key, the index
/// of the backend that owns it. No key has two entries.
#[derive(Debug)]
pub struct RoutingTable {
    entries: Vec<KeyIndex>,
}

impl View for RoutingTable {
    type V = Map<KeyData, usize>;

    closed spec fn view(&self) -> Map<KeyData, usize> {
        route_map(self.entries@)
    }
}

impl RoutingTable {
    #[verifier::type_invariant]
    spec fn keys_are_unique(&self) -> bool {
        distinct_keys(self.entries@)
    }

    /// The table with no routes.
    pub fn new() -> (table: Self)
        ensures
            table@ == Map::<KeyData, usize>::empty(),
    {
        RoutingTable { entries: Vec::new() }
    }

    /// The number of routes, which is the number of distinct keys.
    pub fn len(&self) -> (n: usize)
        ensures
            self@.dom().finite(),
            n == self@.dom().len(),
    {
        proof {
            use_type_invariant(self);
            lemma_route_count(self.entries@);
        }
        self.entries.len()
    }

    /// The table that the tagged identities of one listing give: each key is
    /// routed to the backend that reported it, and to the later backend where
    /// two reported the same key.
    pub fn rebuild(identity_indexes: &[IdentityIndex]) -> (table: Self)
        ensures
            table@ == route_map(key_indexes(identity_indexes@)),
    {
        let mut entries: Vec<KeyIndex> = Vec::new();
        let mut i: usize = 0;
        while i < identity_indexes.len()
            invariant
                i <= identity_indexes@.len(),
                distinct_keys(entries@),
                route_map(entries@) == route_map(key_indexes(identity_indexes@.take(i as int))),
            decreases identity_indexes@.len() - i,
        {
            let key = identity_indexes[i].identity.pubkey.clone();
            let target_index = identity_indexes[i].target_index;
            proof {
                let before = key_indexes(identity_indexes@.take(i as int));
                let after = key_indexes(identity_indexes@.take(i + 1));
                assert(after.drop_last() =~= before);
                assert(after.last() == KeyIndex { key, target_index });
            }
            put(&mut entries, key, target_index);
            i += 1;
        }
        proof {
            assert(identity_indexes@.take(i as int) =~= identity_indexes@);
        }
        RoutingTable { entries }
    }

    /// The backend that owns `key`, or `None` where the table has no route for it.
    pub fn lookup(&self, key: &KeyData) -> (r: Option<usize>)
        ensures
            r == (if self@.contains_key(*key) {
                Some(self@[*key])
            } else {
                None
            }),
    {
        match position(&self.entries, key) {
            Some(p) => {
                proof {
                    use_type_invariant(self);
                    lemma_present_key_has_route(self.entries@, p as int);
                }
                Some(self.entries[p].target_index)
            },
            None => {
                proof {
                    lemma_unnamed_key_has_no_route(self.entries@, *key);
                }
                None
            },
        }
    }
}

/// The routing entries that tagged identities stand for, in the same order.
pub open spec fn key_indexes(identity_indexes: Seq<IdentityIndex>) -> Seq<KeyIndex> {
    identity_indexes.map_values(
        |tagged: IdentityIndex|
            KeyIndex { key: tagged.identity.pubkey, target_index: tagged.target_index },
    )
}

/// Where in `entries` the key stands, if it does.
fn position(entries: &Vec<KeyIndex>, key: &KeyData) -> (r: Option<usize>)
    ensures
        match r {
            Some(p) => p < entries@.len() && entries@[p as int].key == *key,
            None => !names_key(entries@, *key),
        },
{
    let mut i: usize = 0;
    while i < entries.len()
        invariant
            i <= entries@.len(),
            forall|j: int| 0 <= j < i ==> entries@[j].key != *key,
        decreases entries@.len() - i,
    {
        if same_key(&entries[i].key, key) {
            return Some(i);
        }
        i += 1;
    }
    None
}

/// Routes `key` to `target_index` in `entries`, in place of the entry that the
/// key had, if it had one.
fn put(entries: &mut Vec<KeyIndex>, key: KeyData, target_index: usize)
    requires
        distinct_keys(old(entries)@),
    ensures
        distinct_keys(final(entries)@),
        route_map(final(entries)@) == route_map(old(entries)@).insert(key, target_index),
{
    match position(entries, &key) {
        Some(p) => {
            proof {
                lemma_overwrite(entries@, p as int, target_index);
            }
            entries.set(p, KeyIndex { key, target_index });
        },
        None => {
            proof {
                let entry = KeyIndex { key, target_index };
                assert(entries@.push(entry).drop_last() =~= entries@);
            }
            entries.push(KeyIndex { key, target_index });
        },
    }
}

/// Where no key occurs twice, giving entry `p` a new target changes the route
/// of its key and no other.
proof fn lemma_overwrite(entries: Seq<KeyIndex>, p: int, target_index: usize)
    requires
        distinct_keys(entries),
        0 <= p < entries.len(),
    ensures
        distinct_keys(entries.update(p, KeyIndex { key: entries[p].key, target_index })),
        route_map(entries.update(p, KeyIndex { key: entries[p].key, target_index }))
            == route_map(entries).insert(entries[p].key, target_index),
{
    let key = entries[p].key;
    let after = entries.update(p, KeyIndex { key, target_index });
    assert(forall|i: int| 0 <= i < entries.len() ==> after[i].key == entries[i].key);
    assert(distinct_keys(after));
    let left = route_map(after);
    let right = route_map(entries).insert(key, target_index);
    assert forall|k: KeyData| left.contains_key(k) <==> right.contains_key(k) by {
        if left.contains_key(k) {
            let i = lemma_route_has_last_entry(after, k);
            if k != key {
                assert(entries[i].key == k);
                assert(names_key(entries, k));
                if !route_map(entries).contains_key(k) {
                    lemma_present_key_has_route(entries, i);
                }
            }
        }
        if right.contains_key(k) {
            if k == key {
                lemma_present_key_has_route(after, p);
            } else {
                let i = lemma_route_has_last_entry(entries, k);
                assert(after[i].key == k);
                lemma_present_key_has_route(after, i);
            }
        }
    }
    assert forall|k: KeyData| left.contains_key(k) implies left[k] == right[k] by {
        let i = lemma_route_has_last_entry(after, k);
        if k != key {
            let j = lemma_route_has_last_entry(entries, k);
            assert(i == j) by {
                if i < j {
                    assert(entries[i].key != entries[j].key);
                }
                if j < i {
                    assert(entries[j].key != entries[i].key);
                }
            }
        } else {
            assert(i == p) by {
                if i < p {
                    assert(after[i].key != after[p].key);
                }
                if p < i {
                    assert(after[p].key != after[i].key);
                }
            }
        }
    }
    assert(left =~= right);
}

/// Where no key occurs twice, every entry decides the route of its key.
proof fn lemma_present_key_has_route(entries: Seq<KeyIndex>, i: int)
    requires
        distinct_keys(entries),
        0 <= i < entries.len(),
    ensures
        route_map(entries).contains_key(entries[i].key),
        route_map(entries)[entries[i].key] == entries[i].target_index,
{
    assert(is_last_for_key(entries, i)) by {
        assert forall|j: int| i < j < entries.len() implies entries[j].key != entries[i].key by {
            assert(entries[i].key != entries[j].key);
        }
    }
    lemma_last_entry_wins(entries, i);
}

} // verus!
