use cms::asn1::{has_minimal_arcs, Any, ObjectIdentifier, OctetString};
use cms::codec::Codec;
use cms::error::Error;

fn id_data() -> Vec<u8> {
    vec![0x2a, 0x86, 0x48, 0x86, 0xf7, 0x0d, 0x01, 0x07, 0x01]
}

#[test]
fn object_identifier_round_trips() {
    let oid = ObjectIdentifier { bytes: id_data() };
    let der = oid.encode().unwrap();
    assert_eq!(der, vec![0x06, 0x09, 0x2a, 0x86, 0x48, 0x86, 0xf7, 0x0d, 0x01, 0x07, 0x01]);
    assert_eq!(ObjectIdentifier::decode(&der), Ok(oid));
}

#[test]
fn object_identifier_agrees_with_const_oid() {
    let theirs = const_oid::ObjectIdentifier::new_unwrap("1.2.840.113549.1.7.1");
    assert_eq!(theirs.as_bytes(), &id_data()[..]);
    let ours = ObjectIdentifier { bytes: theirs.as_bytes().to_vec() };
    assert!(ours.encode().is_ok());
}

#[test]
fn object_identifier_refuses_what_const_oid_refuses() {
    assert_eq!(ObjectIdentifier { bytes: vec![] }.encode(), Err(Error::InvalidValue));
    assert_eq!(ObjectIdentifier { bytes: vec![0x2a, 0x86] }.encode(), Err(Error::InvalidValue));
    assert_eq!(ObjectIdentifier::decode(&[0x06, 0x00]), Err(Error::InvalidValue));
    assert_eq!(ObjectIdentifier::decode(&[0x06, 0x03, 0x2a, 0x86, 0x80]), Err(Error::InvalidValue));
    let long = vec![0x2au8; 40];
    assert_eq!(ObjectIdentifier { bytes: long }.encode(), Err(Error::InvalidValue));
}

#[test]
fn object_identifier_with_a_padded_number_is_refused() {
    let padded = vec![0x2a, 0x80, 0x01];
    assert!(const_oid::ObjectIdentifier::from_bytes(&padded).is_ok());
    assert!(!has_minimal_arcs(&padded));
    assert_eq!(ObjectIdentifier::decode(&[0x06, 0x03, 0x2a, 0x80, 0x01]), Err(Error::InvalidValue));
    assert_eq!(ObjectIdentifier { bytes: padded }.encode(), Err(Error::InvalidValue));
    assert!(has_minimal_arcs(&[0x2a, 0x86, 0x48, 0x86, 0xf7, 0x0d, 0x01, 0x07, 0x01]));
    assert!(has_minimal_arcs(&[0x2a, 0x81, 0x80, 0x00]));
    assert!(!has_minimal_arcs(&[0x80, 0x01]));
    assert!(has_minimal_arcs(&[]));
    assert_eq!(
        ObjectIdentifier::decode(&[0x06, 0x04, 0x2a, 0x81, 0x80, 0x00]),
        Ok(ObjectIdentifier { bytes: vec![0x2a, 0x81, 0x80, 0x00] })
    );
}

#[test]
fn object_identifier_framing_failures() {
    assert_eq!(ObjectIdentifier::decode(&[]), Err(Error::MissingField));
    assert_eq!(ObjectIdentifier::decode(&[0x04, 0x03, 0x55, 0x04, 0x03]), Err(Error::UnexpectedTag));
    assert_eq!(
        ObjectIdentifier::decode(&[0x06, 0x03, 0x55, 0x04, 0x03, 0x00]),
        Err(Error::TrailingData)
    );
    assert_eq!(ObjectIdentifier::decode(&[0x06, 0x04, 0x55, 0x04, 0x03]), Err(Error::MalformedLength));
}

#[test]
fn octet_string_round_trips() {
    let s = OctetString { bytes: vec![0xde, 0xad, 0xbe, 0xef] };
    let der = s.encode().unwrap();
    assert_eq!(der, vec![0x04, 0x04, 0xde, 0xad, 0xbe, 0xef]);
    assert_eq!(OctetString::decode(&der), Ok(s));
    let empty = OctetString { bytes: vec![] };
    assert_eq!(empty.encode(), Ok(vec![0x04, 0x00]));
    assert_eq!(OctetString::decode(&[0x04, 0x00]), Ok(empty));
}

#[test]
fn octet_string_of_300_octets_uses_two_length_octets() {
    let s = OctetString { bytes: vec![7u8; 300] };
    let der = s.encode().unwrap();
    assert_eq!(&der[..4], &[0x04, 0x82, 0x01, 0x2c]);
    assert_eq!(der.len(), 304);
    assert_eq!(OctetString::decode(&der), Ok(s));
}

#[test]
fn octet_string_framing_failures() {
    assert_eq!(OctetString::decode(&[0x03, 0x01, 0x00]), Err(Error::UnexpectedTag));
    assert_eq!(OctetString::decode(&[0x04, 0x01, 0x00, 0x00]), Err(Error::TrailingData));
    assert_eq!(OctetString::decode(&[0x04, 0x81, 0x01, 0x00]), Err(Error::MalformedLength));
}

#[test]
fn any_keeps_tag_and_content() {
    let null = Any { tag: 0x05, value: vec![] };
    assert_eq!(null.encode(), Ok(vec![0x05, 0x00]));
    assert_eq!(Any::decode(&[0x05, 0x00]), Ok(null));
    let seq = Any { tag: 0x30, value: vec![0x02, 0x01, 0x07] };
    assert_eq!(seq.encode(), Ok(vec![0x30, 0x03, 0x02, 0x01, 0x07]));
    assert_eq!(Any::decode(&[0x30, 0x03, 0x02, 0x01, 0x07]), Ok(seq));
}

#[test]
fn any_refuses_multi_octet_tag() {
    assert_eq!(Any { tag: 0x1f, value: vec![] }.encode(), Err(Error::InvalidValue));
    assert_eq!(Any { tag: 0xff, value: vec![1] }.encode(), Err(Error::InvalidValue));
    assert_eq!(Any::decode(&[0x1f, 0x00]), Err(Error::UnexpectedTag));
    assert!(!Any::accepts_tag(0x3f));
    assert!(Any::accepts_tag(0xa0));
}

#[test]
fn any_framing_failures() {
    assert_eq!(Any::decode(&[]), Err(Error::MissingField));
    assert_eq!(Any::decode(&[0x05, 0x00, 0x00]), Err(Error::TrailingData));
    assert_eq!(Any::decode(&[0x05, 0x01]), Err(Error::MalformedLength));
}
