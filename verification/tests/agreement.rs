use cms::asn1::{Any, ObjectIdentifier, OctetString};
use cms::codec::Codec;
use cms::error::Error;
use cms::tlv::{encode_length, encode_tlv, split};
use der::{Decode, Encode};

#[test]
fn length_fields_are_those_of_der() {
    for n in [0usize, 1, 127, 128, 255, 256, 65535, 65536, 1 << 24, (1 << 28) - 1] {
        let theirs = der::Length::try_from(n).unwrap().to_der().unwrap();
        assert_eq!(encode_length(n), theirs);
    }
}

#[test]
fn octet_strings_are_those_of_der() {
    for n in [0usize, 1, 127, 128, 300, 70000] {
        let bytes = vec![0xa5u8; n];
        let theirs = der::asn1::OctetString::new(bytes.clone()).unwrap().to_der().unwrap();
        let ours = OctetString { bytes: bytes.clone() }.encode().unwrap();
        assert_eq!(ours, theirs);
        let back = der::asn1::OctetString::from_der(&ours).unwrap();
        assert_eq!(back.as_bytes(), &bytes[..]);
        assert_eq!(OctetString::decode(&theirs), Ok(OctetString { bytes }));
    }
}

#[test]
fn object_identifiers_are_those_of_der() {
    for text in ["1.2.840.113549.1.7.1", "2.5.4.3", "1.3.14.3.2.26", "2.16.840.1.101.3.4.2.1"] {
        let theirs = const_oid::ObjectIdentifier::new_unwrap(text);
        let ours = ObjectIdentifier { bytes: theirs.as_bytes().to_vec() };
        let der = ours.encode().unwrap();
        assert_eq!(der, theirs.to_der().unwrap());
        assert_eq!(const_oid::ObjectIdentifier::from_der(&der), Ok(theirs));
        assert_eq!(ObjectIdentifier::decode(&der), Ok(ours));
    }
}

#[test]
fn open_type_is_that_of_der() {
    let ours = Any { tag: 0x30, value: vec![0x02, 0x01, 0x05] };
    let der = ours.encode().unwrap();
    let theirs = der::asn1::Any::from_der(&der).unwrap();
    assert_eq!(theirs.value(), &[0x02, 0x01, 0x05]);
    assert_eq!(theirs.to_der().unwrap(), der);
    let null = der::asn1::Any::new(der::Tag::Null, Vec::<u8>::new()).unwrap();
    assert_eq!(Any::decode(&null.to_der().unwrap()), Ok(Any { tag: 0x05, value: vec![] }));
}

#[test]
fn der_refuses_the_length_fields_that_split_refuses() {
    let inputs: [&[u8]; 6] = [
        &[0x04, 0x81, 0x05, 1, 2, 3, 4, 5],
        &[0x04, 0x80, 0x00, 0x00],
        &[0x04, 0x82, 0x00, 0x01, 0x07],
        &[0x04, 0x05, 1, 2],
        &[0x04],
        &[0x04, 0x82, 0x01],
    ];
    for input in inputs {
        assert_eq!(split(input), Err(Error::MalformedLength));
        assert!(der::asn1::OctetString::from_der(input).is_err());
    }
}

#[test]
fn what_split_frames_der_frames() {
    for n in [0usize, 5, 127, 128, 255, 256, 4000] {
        let content = vec![0x11u8; n];
        let element = encode_tlv(0x04, &content);
        let (start, end) = split(&element).unwrap();
        assert_eq!(end, element.len());
        let theirs = der::asn1::OctetString::from_der(&element).unwrap();
        assert_eq!(theirs.as_bytes(), &element[start..end]);
    }
}
