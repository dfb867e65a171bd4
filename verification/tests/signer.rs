use core::cmp::Ordering;

use cms::cert::IssuerAndSerialNumber;
use cms::asn1::OctetString;
use cms::codec::Codec;
use cms::content_info::CmsVersion;
use cms::error::Error;
use cms::opaque::{AlgorithmIdentifier, Attributes, Name, SerialNumber};
use cms::set_of::SetOf;
use cms::signed_data::{SignerIdentifier, SignerInfo, SignerInfos};
use cms::tlv::encode_tlv;

fn hex(s: &str) -> Vec<u8> {
    (0..s.len()).step_by(2).map(|i| u8::from_str_radix(&s[i..i + 2], 16).unwrap()).collect()
}

const SIGNER_V1: &str = "303d0201013014300f310d300b06035504030c0454657374020101300d06096086480165030402010500300d06092a864886f70d01010105000404deadbeef";
const SIGNER_V3: &str = "3068020103a00704050102030405300d06096086480165030402010500a01a301806092a864886f70d010903310b06092a864886f70d010701300d06092a864886f70d01010105000404deadbeefa11a301806092a864886f70d010903310b06092a864886f70d010701";

fn sha256() -> AlgorithmIdentifier {
    AlgorithmIdentifier { content: hex("06096086480165030402010500") }
}

fn rsa() -> AlgorithmIdentifier {
    AlgorithmIdentifier { content: hex("06092a864886f70d0101010500") }
}

fn attributes() -> Attributes {
    Attributes { content: hex("301806092a864886f70d010903310b06092a864886f70d010701") }
}

fn issuer_and_serial() -> SignerIdentifier {
    SignerIdentifier::IssuerAndSerialNumber(IssuerAndSerialNumber {
        issuer: Name { content: hex("310d300b06035504030c0454657374") },
        serial_number: SerialNumber { content: vec![0x01] },
    })
}

fn key_identifier() -> SignerIdentifier {
    SignerIdentifier::SubjectKeyIdentifier(OctetString { bytes: vec![1, 2, 3, 4, 5] })
}

fn signer_v1() -> SignerInfo {
    SignerInfo {
        version: CmsVersion::V1,
        sid: issuer_and_serial(),
        digest_alg: sha256(),
        signed_attrs: None,
        signature_algorithm: rsa(),
        signature: OctetString { bytes: vec![0xde, 0xad, 0xbe, 0xef] },
        unsigned_attrs: None,
    }
}

fn signer_v3() -> SignerInfo {
    SignerInfo {
        version: CmsVersion::V3,
        sid: key_identifier(),
        digest_alg: sha256(),
        signed_attrs: Some(attributes()),
        signature_algorithm: rsa(),
        signature: OctetString { bytes: vec![0xde, 0xad, 0xbe, 0xef] },
        unsigned_attrs: Some(attributes()),
    }
}

#[test]
fn signer_identifier_issuer_and_serial_number_round_trips() {
    let der = issuer_and_serial().encode().unwrap();
    assert_eq!(der, hex("3014300f310d300b06035504030c0454657374020101"));
    assert_eq!(SignerIdentifier::decode(&der), Ok(issuer_and_serial()));
}

#[test]
fn signer_identifier_subject_key_identifier_round_trips() {
    let der = key_identifier().encode().unwrap();
    assert_eq!(der, hex("a00704050102030405"));
    let back = SignerIdentifier::decode(&der).unwrap();
    assert!(matches!(back, SignerIdentifier::SubjectKeyIdentifier(_)));
    assert_eq!(back, key_identifier());
}

#[test]
fn signer_identifier_is_resolved_by_the_leading_tag() {
    assert_eq!(SignerIdentifier::decode(&hex("a003020101")), Err(Error::UnexpectedTag));
    assert_eq!(SignerIdentifier::decode(&hex("3003040101")), Err(Error::MissingField));
    assert_eq!(SignerIdentifier::decode(&hex("040101")), Err(Error::UnexpectedTag));
    assert_eq!(SignerIdentifier::decode(&hex("80050102030405")), Err(Error::UnexpectedTag));
    assert_eq!(SignerIdentifier::decode(&[]), Err(Error::MissingField));
    assert!(SignerIdentifier::accepts_tag(0x30));
    assert!(SignerIdentifier::accepts_tag(0xa0));
    assert!(!SignerIdentifier::accepts_tag(0xa1));
}

#[test]
fn signer_identifier_explicit_wrapper_failures() {
    assert_eq!(SignerIdentifier::decode(&hex("a0080405010203040500")), Err(Error::TrailingData));
    assert_eq!(SignerIdentifier::decode(&hex("a0070405010203040500")), Err(Error::TrailingData));
    assert_eq!(SignerIdentifier::decode(&hex("a0090405010203040500")), Err(Error::MalformedLength));
    assert_eq!(SignerIdentifier::decode(&hex("a000")), Err(Error::MissingField));
    assert_eq!(SignerIdentifier::decode(&hex("a00904050102030405")), Err(Error::MalformedLength));
}

#[test]
fn signer_identifier_value_cmp_compares_encodings() {
    assert_eq!(issuer_and_serial().value_cmp(&key_identifier()), Ok(Ordering::Less));
    assert_eq!(key_identifier().value_cmp(&issuer_and_serial()), Ok(Ordering::Greater));
    assert_eq!(key_identifier().value_cmp(&key_identifier()), Ok(Ordering::Equal));
    let shorter = SignerIdentifier::SubjectKeyIdentifier(OctetString { bytes: vec![9] });
    assert_eq!(shorter.value_cmp(&key_identifier()), Ok(Ordering::Less));
    let larger = SignerIdentifier::SubjectKeyIdentifier(OctetString { bytes: vec![1, 2, 3, 4, 6] });
    assert_eq!(larger.value_cmp(&key_identifier()), Ok(Ordering::Greater));
}

#[test]
fn signer_identifier_value_cmp_fails_on_an_invalid_value() {
    let invalid = SignerIdentifier::IssuerAndSerialNumber(IssuerAndSerialNumber {
        issuer: Name { content: hex("020101") },
        serial_number: SerialNumber { content: vec![0x01] },
    });
    assert_eq!(invalid.value_cmp(&key_identifier()), Err(Error::InvalidValue));
    assert_eq!(key_identifier().value_cmp(&invalid), Err(Error::InvalidValue));
}

#[test]
fn signer_info_without_attributes_round_trips() {
    let der = signer_v1().encode().unwrap();
    assert_eq!(der, hex(SIGNER_V1));
    assert_eq!(SignerInfo::decode(&der), Ok(signer_v1()));
}

#[test]
fn signer_info_with_attributes_round_trips() {
    let der = signer_v3().encode().unwrap();
    assert_eq!(der, hex(SIGNER_V3));
    assert_eq!(SignerInfo::decode(&der), Ok(signer_v3()));
}

#[test]
fn absent_optional_fields_take_no_octets() {
    let mut with_signed = signer_v1();
    with_signed.signed_attrs = Some(attributes());
    let attrs_len = attributes().encode().unwrap().len();
    assert_eq!(
        with_signed.encode().unwrap().len(),
        signer_v1().encode().unwrap().len() + attrs_len
    );
    let mut with_unsigned = signer_v1();
    with_unsigned.unsigned_attrs = Some(attributes());
    let der = with_unsigned.encode().unwrap();
    assert_eq!(SignerInfo::decode(&der), Ok(with_unsigned));
    assert_eq!(der[der.len() - 28], 0xa1);
}

#[test]
fn signer_info_implicit_tag_replaces_the_set_tag() {
    let der = signer_v3().encode().unwrap();
    let attrs = attributes().encode().unwrap();
    assert_eq!(attrs[0], 0x31);
    let at = 2 + 3 + 9 + 15;
    assert_eq!(der[at], 0xa0);
    assert_eq!(&der[at + 1..at + 28], &attrs[1..]);
}

#[test]
fn signer_info_missing_mandatory_field() {
    let no_signature = hex("30370201013014300f310d300b06035504030c0454657374020101300d06096086480165030402010500300d06092a864886f70d0101010500");
    assert_eq!(SignerInfo::decode(&no_signature), Err(Error::MissingField));
    let no_version = hex("303a3014300f310d300b06035504030c0454657374020101300d06096086480165030402010500300d06092a864886f70d01010105000404deadbeef");
    assert_eq!(SignerInfo::decode(&no_version), Err(Error::MissingField));
    let no_sid = hex("3027020101300d06096086480165030402010500300d06092a864886f70d01010105000404deadbeef");
    assert_eq!(SignerInfo::decode(&no_sid), Err(Error::MissingField));
    assert_eq!(SignerInfo::decode(&hex("3000")), Err(Error::MissingField));
}

#[test]
fn signer_info_with_an_unknown_tag_where_the_identifier_is_due() {
    let mut content = hex("020101");
    content.extend(hex("0401aa"));
    content.extend(&hex(SIGNER_V1)[27..]);
    assert_eq!(SignerInfo::decode(&encode_tlv(0x30, &content)), Err(Error::UnexpectedTag));
    let mut content = hex("020101");
    content.extend(hex("a10704050102030405"));
    content.extend(&hex(SIGNER_V1)[27..]);
    assert_eq!(SignerInfo::decode(&encode_tlv(0x30, &content)), Err(Error::UnexpectedTag));
    assert_eq!(SignerInfo::decode(&hex("3003020101")), Err(Error::MissingField));
}

#[test]
fn signer_info_trailing_data() {
    let mut inside = hex(SIGNER_V1);
    inside[1] += 2;
    inside.extend([0x05, 0x00]);
    assert_eq!(SignerInfo::decode(&inside), Err(Error::TrailingData));
    let mut outside = hex(SIGNER_V1);
    outside.push(0x00);
    assert_eq!(SignerInfo::decode(&outside), Err(Error::TrailingData));
}

#[test]
fn signer_info_attributes_out_of_place_are_trailing_data() {
    let mut content = hex(SIGNER_V3)[2..].to_vec();
    content.extend(hex("a11a301806092a864886f70d010903310b06092a864886f70d010701"));
    let twice = encode_tlv(0x30, &content);
    assert_eq!(&twice[..3], &[0x30, 0x81, 0x84]);
    assert_eq!(SignerInfo::decode(&twice), Err(Error::TrailingData));
    let mut content = hex(SIGNER_V1)[2..].to_vec();
    content.extend(hex("a01a301806092a864886f70d010903310b06092a864886f70d010701"));
    assert_eq!(SignerInfo::decode(&encode_tlv(0x30, &content)), Err(Error::TrailingData));
}

#[test]
fn signer_info_invalid_version() {
    let mut der = hex(SIGNER_V1);
    der[4] = 0x06;
    assert_eq!(SignerInfo::decode(&der), Err(Error::InvalidVersion));
}

#[test]
fn signer_info_invalid_field_is_not_encoded() {
    let mut signer = signer_v1();
    signer.digest_alg = AlgorithmIdentifier { content: vec![] };
    assert_eq!(signer.encode(), Err(Error::InvalidValue));
    let mut signer = signer_v1();
    signer.signed_attrs = Some(Attributes { content: vec![] });
    assert_eq!(signer.encode(), Err(Error::InvalidValue));
}

#[test]
fn signer_info_version_goes_with_the_identifier() {
    assert_eq!(signer_v1().expected_version(), CmsVersion::V1);
    assert_eq!(signer_v3().expected_version(), CmsVersion::V3);
    assert_eq!(signer_v1().check_version(), Ok(()));
    assert_eq!(signer_v3().check_version(), Ok(()));
    let mut wrong = signer_v1();
    wrong.version = CmsVersion::V3;
    assert_eq!(wrong.check_version(), Err(Error::InconsistentVersion));
    let mut wrong = signer_v3();
    wrong.version = CmsVersion::V1;
    assert_eq!(wrong.check_version(), Err(Error::InconsistentVersion));
}

#[test]
fn decode_does_not_hold_version_against_identifier() {
    let mut der = hex(SIGNER_V1);
    der[4] = 0x03;
    let signer = SignerInfo::decode(&der).unwrap();
    assert_eq!(signer.version, CmsVersion::V3);
    assert_eq!(signer.check_version(), Err(Error::InconsistentVersion));
}

#[test]
fn signer_infos_are_placed_by_their_encodings() {
    let set = SignerInfos(SetOf(vec![signer_v3(), signer_v1()]));
    let der = set.encode().unwrap();
    let mut expected = vec![0x31, 0x81, 169];
    expected.extend(hex(SIGNER_V1));
    expected.extend(hex(SIGNER_V3));
    assert_eq!(der, expected);
    assert_eq!(SignerInfos::decode(&der), Ok(SignerInfos(SetOf(vec![signer_v1(), signer_v3()]))));

    let mut swapped = vec![0x31, 0x81, 169];
    swapped.extend(hex(SIGNER_V3));
    swapped.extend(hex(SIGNER_V1));
    assert_eq!(SignerInfos::decode(&swapped), Err(Error::NonCanonicalSetOrder));
}

#[test]
fn signer_infos_may_be_empty() {
    let set = SignerInfos(SetOf(vec![]));
    assert_eq!(set.encode(), Ok(vec![0x31, 0x00]));
    assert_eq!(SignerInfos::decode(&[0x31, 0x00]), Ok(set));
}
