use tightbeam_ext::mpc::error::{Error, RosterError};
use tightbeam_ext::mpc::roster::{ClientEntry, Dialer, LocalIdentity, PartyEntry, Roster};

const ADDRESS: &str = "127.0.0.1:0";

/// A certificate stand-in: distinct octets per holder.
fn certificate(holder: u8) -> Vec<u8> {
    vec![0x30, 0x03, 0x02, 0x01, holder]
}

fn roster_of(count: usize) -> Roster<&'static str> {
    let entries = (0..count)
        .map(|id| PartyEntry::new(id, ADDRESS, certificate(id as u8)))
        .collect();
    Roster::new(entries).expect("the dense roster should assemble")
}

#[test]
fn dial_rule_targets_every_higher_id() {
    let roster = roster_of(4);

    let targets = roster.dial_targets(1);

    assert_eq!(targets, [2, 3]);
}

#[test]
fn highest_party_dials_nobody() {
    let roster = roster_of(3);

    let targets = roster.dial_targets(2);

    assert!(targets.is_empty());
}

#[test]
fn gapped_ids_are_rejected() {
    let entries = vec![
        PartyEntry::new(0, ADDRESS, certificate(0)),
        PartyEntry::new(2, ADDRESS, certificate(1)),
    ];

    let outcome = Roster::new(entries);

    assert!(matches!(
        outcome,
        Err(Error::Roster(RosterError::NonContiguousIds { expected: 1, found: 2 }))
    ));
}

#[test]
fn empty_roster_is_rejected() {
    let outcome = Roster::<&'static str>::new(Vec::new());
    assert!(matches!(outcome, Err(Error::Roster(RosterError::Empty))));
}

#[test]
fn entries_are_sorted_by_id() {
    let entries = vec![
        PartyEntry::new(2, "c", certificate(2)),
        PartyEntry::new(0, "a", certificate(0)),
        PartyEntry::new(1, "b", certificate(1)),
    ];
    let roster = Roster::new(entries).expect("the dense roster should assemble");
    let addresses: Vec<&str> = roster.entries().iter().map(|entry| *entry.address()).collect();
    assert_eq!(addresses, ["a", "b", "c"]);
    assert_eq!(roster.party_count(), 3);
    assert_eq!(roster.entry(1).map(PartyEntry::id), Some(1));
    assert!(roster.entry(3).is_none());
}

#[test]
fn duplicated_ids_name_the_first_gap() {
    let entries = vec![
        PartyEntry::new(0, ADDRESS, certificate(0)),
        PartyEntry::new(0, ADDRESS, certificate(1)),
    ];
    let outcome = Roster::new(entries);
    assert!(matches!(
        outcome,
        Err(Error::Roster(RosterError::NonContiguousIds { expected: 1, found: 0 }))
    ));
}

#[test]
fn certificates_map_back_to_their_party() {
    let roster = roster_of(3);
    let der = certificate(1);

    assert_eq!(roster.party_by_certificate(&der), Some(1));
}

#[test]
fn foreign_certificates_map_to_nobody() {
    let roster = roster_of(2);
    let der = certificate(77);

    assert_eq!(roster.party_by_certificate(&der), None);
}

#[test]
fn identity_with_foreign_certificate_is_rejected() {
    let roster = roster_of(2);
    let identity = LocalIdentity::new(0, certificate(77));

    let outcome = roster.verify_identity(&identity);

    assert!(matches!(
        outcome,
        Err(Error::Roster(RosterError::CertificateMismatch { id: 0 }))
    ));
}

#[test]
fn identity_outside_the_roster_is_missing() {
    let roster = roster_of(2);
    let identity = LocalIdentity::new(5, certificate(5));
    assert!(matches!(
        roster.verify_identity(&identity),
        Err(Error::Roster(RosterError::LocalPartyMissing { id: 5 }))
    ));
    assert!(roster.verify_identity(&LocalIdentity::new(1, certificate(1))).is_ok());
}

#[test]
fn client_certificates_map_back_to_their_client() {
    let roster = roster_of(2);
    let roster = roster
        .with_clients(vec![ClientEntry::new(100, certificate(100))])
        .expect("the client should be authorized");
    let der = certificate(100);

    assert_eq!(roster.client_by_certificate(&der), Some(100));
    assert_eq!(roster.party_by_certificate(&der), None);
}

#[test]
fn client_ids_inside_the_party_space_are_rejected() {
    let roster = roster_of(3);

    let outcome = roster.with_clients(vec![ClientEntry::new(2, certificate(100))]);

    assert!(matches!(outcome, Err(Error::Roster(RosterError::ClientIdTaken { id: 2 }))));
}

#[test]
fn duplicate_client_ids_are_rejected() {
    let roster = roster_of(2);

    let outcome = roster.with_clients(vec![
        ClientEntry::new(100, certificate(100)),
        ClientEntry::new(100, certificate(101)),
    ]);

    assert!(matches!(outcome, Err(Error::Roster(RosterError::ClientIdTaken { id: 100 }))));
}

#[test]
fn client_reusing_a_party_certificate_is_rejected() {
    let roster = roster_of(2);
    let masquerade = ClientEntry::new(100, certificate(0));

    let outcome = roster.with_clients(vec![masquerade]);

    assert!(matches!(
        outcome,
        Err(Error::Roster(RosterError::AmbiguousCertificate { id: 100 }))
    ));
}

#[test]
fn validator_chain_covers_parties_and_clients() {
    let roster = roster_of(2);
    let roster = roster
        .with_clients(vec![ClientEntry::new(100, certificate(100))])
        .expect("the client should be authorized");

    assert_eq!(roster.certificates().len(), 3);
    assert_eq!(roster.certificates()[2], certificate(100));
}

#[test]
fn client_identities_are_checked_against_the_directory() {
    let roster = roster_of(2)
        .with_clients(vec![ClientEntry::new(100, certificate(100))])
        .expect("the client should be authorized");
    assert!(roster.verify_client_identity(&LocalIdentity::new(100, certificate(100))).is_ok());
    assert!(matches!(
        roster.verify_client_identity(&LocalIdentity::new(100, certificate(1))),
        Err(Error::Roster(RosterError::CertificateMismatch { id: 100 }))
    ));
    assert!(matches!(
        roster.verify_client_identity(&LocalIdentity::new(101, certificate(101))),
        Err(Error::Roster(RosterError::UnknownClient { id: 101 }))
    ));
}

#[test]
fn only_lower_parties_and_known_clients_may_dial_in() {
    let roster = roster_of(4)
        .with_clients(vec![ClientEntry::new(100, certificate(200))])
        .expect("the client list should admit");
    assert_eq!(roster.classify_dialer(2, &certificate(1)), Ok(Dialer::Party(1)));
    assert_eq!(roster.classify_dialer(2, &certificate(3)), Err(Error::UnexpectedDialer { peer: 3 }));
    assert_eq!(roster.classify_dialer(2, &certificate(2)), Err(Error::UnexpectedDialer { peer: 2 }));
    assert_eq!(roster.classify_dialer(2, &certificate(200)), Ok(Dialer::Client(100)));
    assert_eq!(roster.classify_dialer(2, &certificate(99)), Err(Error::UnknownPeerCertificate));
}

#[test]
fn only_the_dialing_side_restores_a_link() {
    let roster = roster_of(3);
    assert_eq!(roster.redial_entry(1, 2).map(|entry| entry.id()), Ok(2));
    assert!(matches!(roster.redial_entry(1, 0), Err(Error::LinkUnavailable { peer: 0 })));
    assert!(matches!(roster.redial_entry(1, 1), Err(Error::LinkUnavailable { peer: 1 })));
    assert!(matches!(roster.redial_entry(1, 7), Err(Error::PartyNotFound { peer: 7 })));
}
