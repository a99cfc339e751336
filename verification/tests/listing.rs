use agent_mux::identity::{Identity, IdentityIndex};
use agent_mux::listing::{gather, tag_identities, untag_identities};
use ssh_key::public::{Ed25519PublicKey, KeyData};

fn listed(seed: u8, comment: &str) -> Identity {
    Identity { pubkey: KeyData::Ed25519(Ed25519PublicKey([seed; 32])), comment: String::from(comment) }
}

#[test]
fn gather_of_answers_keeps_them_in_order() {
    let responses: Vec<Result<u32, String>> = vec![Ok(7), Ok(3), Ok(9)];
    assert_eq!(gather(responses), Ok(vec![7, 3, 9]));
}

#[test]
fn gather_of_nothing_is_an_empty_answer() {
    let responses: Vec<Result<u32, String>> = Vec::new();
    assert_eq!(gather(responses), Ok(Vec::new()));
}

#[test]
fn gather_fails_with_the_first_failure() {
    let responses: Vec<Result<u32, String>> =
        vec![Ok(1), Err(String::from("second")), Ok(3), Err(String::from("fourth"))];
    assert_eq!(gather(responses), Err(String::from("second")));
}

#[test]
fn gather_fails_where_only_the_last_failed() {
    let responses: Vec<Result<u32, String>> = vec![Ok(1), Ok(2), Err(String::from("last"))];
    assert_eq!(gather(responses), Err(String::from("last")));
}

#[test]
fn gather_fails_where_the_first_failed() {
    let responses: Vec<Result<u32, String>> = vec![Err(String::from("first")), Ok(2)];
    assert_eq!(gather(responses), Err(String::from("first")));
}

#[test]
fn tag_identities_numbers_the_backends_from_zero() {
    let listings = vec![
        vec![listed(1, "a"), listed(2, "b")],
        Vec::new(),
        vec![listed(3, "c")],
    ];
    let tagged = tag_identities(listings);
    assert_eq!(
        tagged,
        vec![
            IdentityIndex { identity: listed(1, "a"), target_index: 0 },
            IdentityIndex { identity: listed(2, "b"), target_index: 0 },
            IdentityIndex { identity: listed(3, "c"), target_index: 2 },
        ]
    );
}

#[test]
fn tag_identities_of_no_backend_is_empty() {
    assert_eq!(tag_identities(Vec::new()), Vec::new());
}

#[test]
fn untag_identities_keeps_the_order() {
    let tagged = vec![
        IdentityIndex { identity: listed(4, "d"), target_index: 1 },
        IdentityIndex { identity: listed(5, "e"), target_index: 0 },
    ];
    assert_eq!(untag_identities(tagged), vec![listed(4, "d"), listed(5, "e")]);
}

#[test]
fn tagging_and_untagging_concatenates_the_listings() {
    let listings = vec![
        vec![listed(1, "a")],
        vec![listed(2, "b"), listed(1, "again")],
        vec![listed(3, "c")],
    ];
    let flat: Vec<Identity> = listings.iter().flatten().cloned().collect();
    assert_eq!(untag_identities(tag_identities(listings)), flat);
}
