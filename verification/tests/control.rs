use tightbeam_ext::vm::codec::ProgramDigest;
use tightbeam_ext::vm::control::{ControlMessage, KIND_ECHO};
use tightbeam_ext::vm::der::{push_bool, push_uint, wrap, TAG_OCTET_STRING, TAG_SEQUENCE};
use tightbeam_ext::vm::error::CodecError;

fn envelope(kind: u8, body: Vec<u8>) -> Vec<u8> {
    let mut content = Vec::new();
    push_uint(&mut content, u64::from(kind));
    content.extend(wrap(TAG_OCTET_STRING, body).expect("the body wraps"));
    wrap(TAG_SEQUENCE, content).expect("the envelope encodes")
}

#[test]
fn submissions_round_trip() {
    let message = ControlMessage::Submit { program: b"program-der".to_vec() };
    let bytes = message.encode().expect("the submission encodes");
    let recovered = ControlMessage::decode(&bytes).expect("the bytes decode");
    assert_eq!(recovered, message);
}

#[test]
fn echoes_round_trip_with_both_verdicts() {
    for accept in [true, false] {
        let message = ControlMessage::Echo { digest: ProgramDigest([9; 32]), accept };
        let bytes = message.encode().expect("the echo encodes");
        let recovered = ControlMessage::decode(&bytes).expect("the bytes decode");
        assert_eq!(recovered, message);
    }
}

#[test]
fn reveals_round_trip() {
    let message = ControlMessage::Reveal { ordinal: 7, payload: vec![1, 2, 3] };
    let bytes = message.encode().expect("the reveal encodes");
    let recovered = ControlMessage::decode(&bytes).expect("the bytes decode");
    assert_eq!(recovered, message);
}

#[test]
fn unknown_kinds_are_refused() {
    let bytes = envelope(200, b"x".to_vec());
    let outcome = ControlMessage::decode(&bytes);
    assert!(matches!(outcome, Err(CodecError::UnknownControlKind { kind: 200 })));
}

#[test]
fn short_digests_are_refused() {
    let mut echo = wrap(TAG_OCTET_STRING, b"short".to_vec()).expect("the digest wraps");
    push_bool(&mut echo, true);
    let body = wrap(TAG_SEQUENCE, echo).expect("the echo encodes");
    let bytes = envelope(KIND_ECHO, body);
    let outcome = ControlMessage::decode(&bytes);
    assert!(matches!(outcome, Err(CodecError::MalformedControlDigest { len: 5 })));
}

#[test]
fn submissions_carry_their_bytes_verbatim() {
    let message = ControlMessage::Submit { program: vec![0xde, 0xad] };
    let bytes = message.encode().expect("the submission encodes");
    assert_eq!(bytes, vec![0x30, 0x07, 0x02, 0x01, 0x01, 0x04, 0x02, 0xde, 0xad]);
}

#[test]
fn trailing_bytes_are_refused() {
    let message = ControlMessage::Reveal { ordinal: 1, payload: Vec::new() };
    let mut bytes = message.encode().expect("the reveal encodes");
    bytes.push(0);
    assert!(matches!(ControlMessage::decode(&bytes), Err(CodecError::Der(_))));
}
