use der::Encode;
use tightbeam_ext::vm::der::{push_bool, push_uint, wrap, TAG_OCTET_STRING, TAG_SEQUENCE};

#[test]
fn integers_encode_as_the_der_crate_does() {
    for value in [0u64, 1, 0x7f, 0x80, 0xff, 0x100, 0xffff, 0x8000_0000, u64::MAX] {
        let mut ours = Vec::new();
        push_uint(&mut ours, value);
        assert_eq!(ours, value.to_der().expect("the integer encodes"), "value {value}");
    }
}

#[test]
fn booleans_encode_as_the_der_crate_does() {
    for value in [true, false] {
        let mut ours = Vec::new();
        push_bool(&mut ours, value);
        assert_eq!(ours, value.to_der().expect("the boolean encodes"));
    }
}

#[test]
fn octet_strings_encode_as_the_der_crate_does() {
    for len in [0usize, 1, 127, 128, 300, 70_000] {
        let content = vec![0x5a; len];
        let ours = wrap(TAG_OCTET_STRING, content.clone()).expect("the octets wrap");
        let theirs = der::asn1::OctetString::new(content).expect("the octets wrap").to_der().expect("the octets encode");
        assert_eq!(ours, theirs, "length {len}");
    }
}

#[test]
fn integer_lists_encode_as_the_der_crate_does() {
    let values: Vec<u64> = vec![0, 3, 300, u64::from(u32::MAX)];
    let mut content = Vec::new();
    for value in &values {
        push_uint(&mut content, *value);
    }
    let ours = wrap(TAG_SEQUENCE, content).expect("the list wraps");
    assert_eq!(ours, values.to_der().expect("the list encodes"));
}
