use agent_mux::identity::{Identity, IdentityIndex};
use agent_mux::routing::RoutingTable;
use ssh_key::public::{Ed25519PublicKey, KeyData, RsaPublicKey};
use ssh_key::Mpint;

fn ed_key(seed: u8) -> KeyData {
    KeyData::Ed25519(Ed25519PublicKey([seed; 32]))
}

fn rsa_key(last: u8) -> KeyData {
    KeyData::Rsa(RsaPublicKey {
        e: Mpint::from_positive_bytes(&[1, 0, 1]).unwrap(),
        n: Mpint::from_positive_bytes(&[0x7f, 0x11, 0x22, last]).unwrap(),
    })
}

fn tagged_key(key: KeyData, comment: &str, target_index: usize) -> IdentityIndex {
    IdentityIndex { identity: Identity { pubkey: key, comment: String::from(comment) }, target_index }
}

#[test]
fn new_table_has_no_routes() {
    let table = RoutingTable::new();
    assert_eq!(table.len(), 0);
    assert_eq!(table.lookup(&ed_key(1)), None);
    assert_eq!(table.lookup(&rsa_key(1)), None);
}

#[test]
fn rebuild_of_nothing_is_empty() {
    let table = RoutingTable::rebuild(&[]);
    assert_eq!(table.len(), 0);
    assert_eq!(table.lookup(&ed_key(0)), None);
}

#[test]
fn rebuild_routes_each_key_to_its_tag() {
    let tagged = vec![
        tagged_key(ed_key(1), "one", 0),
        tagged_key(ed_key(2), "two", 0),
        tagged_key(ed_key(3), "three", 4),
        tagged_key(rsa_key(9), "rsa", 2),
    ];
    let table = RoutingTable::rebuild(&tagged);
    assert_eq!(table.len(), 4);
    assert_eq!(table.lookup(&ed_key(1)), Some(0));
    assert_eq!(table.lookup(&ed_key(2)), Some(0));
    assert_eq!(table.lookup(&ed_key(3)), Some(4));
    assert_eq!(table.lookup(&rsa_key(9)), Some(2));
    assert_eq!(table.lookup(&ed_key(4)), None);
    assert_eq!(table.lookup(&rsa_key(8)), None);
}

#[test]
fn rebuild_lets_the_later_entry_win() {
    let tagged = vec![
        tagged_key(ed_key(1), "first", 0),
        tagged_key(ed_key(2), "other", 1),
        tagged_key(ed_key(1), "second", 2),
        tagged_key(ed_key(1), "third", 1),
    ];
    let table = RoutingTable::rebuild(&tagged);
    assert_eq!(table.len(), 2);
    assert_eq!(table.lookup(&ed_key(1)), Some(1));
    assert_eq!(table.lookup(&ed_key(2)), Some(1));
}

#[test]
fn lookup_tells_keys_of_different_kinds_apart() {
    let tagged = vec![tagged_key(rsa_key(1), "rsa", 3)];
    let table = RoutingTable::rebuild(&tagged);
    assert_eq!(table.lookup(&rsa_key(1)), Some(3));
    assert_eq!(table.lookup(&rsa_key(2)), None);
    assert_eq!(table.lookup(&ed_key(1)), None);
}

#[test]
fn rebuild_leaves_the_identities_as_they_were() {
    let tagged = vec![tagged_key(ed_key(5), "five", 1), tagged_key(ed_key(6), "six", 0)];
    let before = tagged.clone();
    let table = RoutingTable::rebuild(&tagged);
    assert_eq!(tagged, before);
    assert_eq!(table.lookup(&tagged[0].identity.pubkey), Some(1));
    assert_eq!(table.lookup(&tagged[1].identity.pubkey), Some(0));
}

#[test]
fn comments_play_no_part_in_routing() {
    let tagged = vec![tagged_key(ed_key(1), "a", 0), tagged_key(ed_key(1), "b", 1)];
    let table = RoutingTable::rebuild(&tagged);
    assert_eq!(table.len(), 1);
    assert_eq!(table.lookup(&ed_key(1)), Some(1));
}
