use der::asn1::{Any, OctetString};
use der::{Encode, Tag};
use tightbeam_ext::pubsub::frame::{end_id, opaque_body, opaque_payload};
use tightbeam_ext::pubsub::topic::Topic;
use tightbeam_ext::vm::error::DerError;

fn der_opaque(payload: &[u8]) -> Vec<u8> {
    let content = OctetString::new(payload.to_vec()).expect("short octets").to_der().expect("the octets encode");
    Any::new(Tag::Sequence, content).expect("the sequence wraps").to_der().expect("the sequence encodes")
}

#[test]
fn opaque_bodies_match_the_der_crate() {
    for payload in [&b""[..], b"tick", &[0u8; 300][..]] {
        let ours = opaque_body(payload).expect("the body wraps");
        assert_eq!(ours, der_opaque(payload));
        assert_eq!(opaque_payload(&ours), Ok(payload.to_vec()));
    }
}

#[test]
fn malformed_opaque_bodies_are_refused() {
    assert_eq!(opaque_payload(&[0x30, 0x00]), Err(DerError::Malformed));
    assert_eq!(opaque_payload(&[0x04, 0x00]), Err(DerError::Malformed));
    let mut trailing = opaque_body(b"x").expect("the body wraps");
    trailing.push(0);
    assert_eq!(opaque_payload(&trailing), Err(DerError::Malformed));
}

#[test]
fn end_frames_prefix_the_topic() {
    let topic: Topic = "prices".parse().expect("the topic parses");
    assert_eq!(end_id(&topic), "end/prices");
}
