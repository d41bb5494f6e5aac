use der::asn1::{Any, OctetString};
use der::{Encode, Tag};
use tightbeam_ext::mpc::error::{Error, NetworkFault, RosterError};
use tightbeam_ext::mpc::frame::{build_body, open_body, Lane};

/// The same body shape, encoded by the `der` crate.
fn der_body(lane: u8, payload: &[u8]) -> Vec<u8> {
    let mut content = lane.to_der().expect("the lane encodes");
    content.extend(OctetString::new(payload.to_vec()).expect("short octets").to_der().expect("the octets encode"));
    Any::new(Tag::Sequence, content).expect("the sequence wraps").to_der().expect("the sequence encodes")
}

/// Build one body, expecting the builder to accept it.
fn built(lane: Lane, bytes: &[u8]) -> Vec<u8> {
    build_body(lane, bytes).expect("the body should build")
}

#[test]
fn payload_round_trips() {
    let body = built(Lane::Engine, b"wrapped-message");
    let (lane, lifted) = open_body(&body).expect("the opaque body should decode");
    assert_eq!(lane, Lane::Engine);
    assert_eq!(lifted, b"wrapped-message");
}

#[test]
fn control_lane_round_trips() {
    let body = built(Lane::Control, b"program-bytes");
    let (lane, lifted) = open_body(&body).expect("the opaque body should decode");
    assert_eq!(lane, Lane::Control);
    assert_eq!(lifted, b"program-bytes");
}

#[test]
fn empty_payload_round_trips() {
    let body = built(Lane::Engine, b"");
    let (_, lifted) = open_body(&body).expect("the opaque body should decode");
    assert_eq!(lifted, b"");
}

#[test]
fn unknown_lane_octets_are_rejected() {
    let outcome = Lane::try_from(9);
    assert!(matches!(outcome, Err(Error::UnknownLane { lane: 9 })));
}

#[test]
fn bodies_match_the_der_crate() {
    let ours = built(Lane::Control, b"abc");
    assert_eq!(ours, der_body(1, b"abc"));

    let foreign = der_body(200, b"x");
    assert_eq!(open_body(&foreign), Err(Error::UnknownLane { lane: 200 }));
}

#[test]
fn malformed_bodies_are_refused() {
    assert!(matches!(open_body(&[0x30, 0x00]), Err(Error::Beam(_))));
    assert!(matches!(open_body(&[]), Err(Error::Beam(_))));
    let mut trailing = built(Lane::Engine, b"x");
    trailing.push(0);
    assert!(matches!(open_body(&trailing), Err(Error::Beam(_))));
    assert_eq!(u8::from(Lane::Control), 1);
    assert_eq!(Lane::Engine.to_u8(), 0);
}

#[test]
fn every_variant_displays_context() {
    let errors = [
        Error::Roster(RosterError::Empty),
        Error::HandshakeIncomplete { peer: Some(3) },
        Error::HandshakeIncomplete { peer: None },
        Error::MuxNotNegotiated { peer: Some(2) },
        Error::MuxNotNegotiated { peer: None },
        Error::UnknownPeerCertificate,
        Error::UnexpectedDialer { peer: 4 },
        Error::MeshIncomplete { connected: 1, expected: 4 },
        Error::LinkUnavailable { peer: 1 },
        Error::PartyNotFound { peer: 9 },
        Error::ClientNotConnected { client: 100 },
        Error::ClientsNotReady { connected: 0, expected: 1 },
        Error::InboxClosed,
        Error::UnknownLane { lane: 9 },
    ];

    let all_named = errors.iter().all(|error| !error.to_string().is_empty());
    assert!(all_named);
    assert_eq!(
        Error::MeshIncomplete { connected: 1, expected: 4 }.to_string(),
        "the mesh established 1 of 4 links before the deadline"
    );
    assert_eq!(
        Error::from(RosterError::NonContiguousIds { expected: 1, found: 3 }).to_string(),
        "the roster refused to assemble: party ids must be dense: expected 1, found 3"
    );
}

#[test]
fn roster_cause_is_chained() {
    let error = Error::from(RosterError::NonContiguousIds { expected: 1, found: 3 });
    assert!(error.roster_cause().is_some());
}

#[test]
fn addressing_errors_keep_the_party_id() {
    let mapped = NetworkFault::from(Error::PartyNotFound { peer: 7 });
    assert_eq!(mapped, NetworkFault::PartyNotFound(7));
}

#[test]
fn mesh_deadline_maps_to_timeout() {
    let mapped = NetworkFault::from(Error::MeshIncomplete { connected: 0, expected: 2 });
    assert_eq!(mapped, NetworkFault::Timeout);
}

#[test]
fn delivery_failures_collapse_to_send_error() {
    let mapped = NetworkFault::from(Error::LinkUnavailable { peer: 2 });
    assert_eq!(mapped, NetworkFault::SendError);
}

#[test]
fn missing_clients_keep_the_client_id() {
    let mapped = NetworkFault::from(Error::ClientNotConnected { client: 100 });
    assert_eq!(mapped, NetworkFault::ClientNotFound(100));
}

#[test]
fn client_readiness_deadline_maps_to_timeout() {
    let mapped = NetworkFault::from(Error::ClientsNotReady { connected: 0, expected: 2 });
    assert_eq!(mapped, NetworkFault::Timeout);
}
