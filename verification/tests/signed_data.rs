use cms::asn1::{Any, ObjectIdentifier, OctetString};
use cms::cert::{CertificateChoices, IssuerAndSerialNumber, OtherCertificateFormat};
use cms::codec::Codec;
use cms::content_info::{CmsVersion, ContentInfo};
use cms::error::Error;
use cms::opaque::{AlgorithmIdentifier, Certificate, CertificateList, Name, SerialNumber};
use cms::revocation::{OtherRevocationInfoFormat, RevocationInfoChoice, RevocationInfoChoices};
use cms::set_of::SetOf;
use cms::signed_data::{
    is_id_data, CertificateSet, DigestAlgorithmIdentifiers, EncapsulatedContentInfo, SignedData,
    SignerIdentifier, SignerInfo, SignerInfos,
};
use cms::tlv::encode_tlv;
use der::{Decode, Encode, Tagged};

fn hex(s: &str) -> Vec<u8> {
    (0..s.len()).step_by(2).map(|i| u8::from_str_radix(&s[i..i + 2], 16).unwrap()).collect()
}

const SIGNED_DATA: &str = "3062020101310f300d06096086480165030402010500300b06092a864886f70d010701313f303d0201013014300f310d300b06035504030c0454657374020101300d06096086480165030402010500300d06092a864886f70d01010105000404deadbeef";
const CONTENT_INFO: &str = "307106092a864886f70d010702a0643062020101310f300d06096086480165030402010500300b06092a864886f70d010701313f303d0201013014300f310d300b06035504030c0454657374020101300d06096086480165030402010500300d06092a864886f70d01010105000404deadbeef";
const SHA1: &str = "300906052b0e03021a0500";
const SHA256: &str = "300d06096086480165030402010500";
const CERT: &str = "308184306c020101300d06092a864886f70d01010b0500300f310d300b06035504030c0454657374301e170d3230303130313030303030305a170d3330303130313030303030305a300f310d300b06035504030c04546573743016300d06092a864886f70d0101010500030500deadbeef300d06092a864886f70d01010b0500030500deadbeef";
const CRL: &str = "304a3032020101300d06092a864886f70d01010b0500300f310d300b06035504030c0454657374170d3230303130313030303030305a300d06092a864886f70d01010b0500030500deadbeef";

fn id_data() -> ObjectIdentifier {
    ObjectIdentifier { bytes: hex("2a864886f70d010701") }
}

fn sha1() -> AlgorithmIdentifier {
    AlgorithmIdentifier { content: hex(SHA1)[2..].to_vec() }
}

fn sha256() -> AlgorithmIdentifier {
    AlgorithmIdentifier { content: hex(SHA256)[2..].to_vec() }
}

fn signer() -> SignerInfo {
    SignerInfo {
        version: CmsVersion::V1,
        sid: SignerIdentifier::IssuerAndSerialNumber(IssuerAndSerialNumber {
            issuer: Name { content: hex("310d300b06035504030c0454657374") },
            serial_number: SerialNumber { content: vec![0x01] },
        }),
        digest_alg: sha256(),
        signed_attrs: None,
        signature_algorithm: AlgorithmIdentifier { content: hex("06092a864886f70d0101010500") },
        signature: OctetString { bytes: vec![0xde, 0xad, 0xbe, 0xef] },
        unsigned_attrs: None,
    }
}

fn signed_data() -> SignedData {
    SignedData {
        version: CmsVersion::V1,
        digest_algorithms: SetOf(vec![sha256()]),
        encap_content_info: EncapsulatedContentInfo { econtent_type: id_data(), econtent: None },
        certificates: None,
        crls: None,
        signer_infos: SignerInfos(SetOf(vec![signer()])),
    }
}

fn other_certificate() -> CertificateChoices {
    CertificateChoices::Other(OtherCertificateFormat {
        other_cert_format: id_data(),
        other_cert: Any { tag: 0x04, value: vec![0xaa, 0xbb] },
    })
}

fn certificate() -> CertificateChoices {
    CertificateChoices::Certificate(Certificate { content: hex(CERT)[3..].to_vec() })
}

fn crl() -> RevocationInfoChoice {
    RevocationInfoChoice::Crl(CertificateList { content: hex(CRL)[2..].to_vec() })
}

#[test]
fn detached_signed_data_with_one_signer_encodes_to_the_fixture() {
    assert_eq!(signed_data().encode(), Ok(hex(SIGNED_DATA)));
}

#[test]
fn detached_signed_data_with_one_signer_decodes_from_the_fixture() {
    let decoded = SignedData::decode(&hex(SIGNED_DATA)).unwrap();
    assert_eq!(decoded, signed_data());
    assert_eq!(decoded.version, CmsVersion::V1);
    assert_eq!(decoded.encap_content_info.econtent, None);
    assert_eq!(decoded.certificates, None);
    assert_eq!(decoded.crls, None);
    assert_eq!(decoded.signer_infos.0 .0.len(), 1);
    assert_eq!(decoded.digest_algorithms.0.len(), 1);
    assert_eq!(decoded.check_version(), Ok(()));
    assert_eq!(decoded.signer_infos.0 .0[0].check_version(), Ok(()));
}

#[test]
fn encoding_is_the_same_on_every_call() {
    let value = signed_data();
    assert_eq!(value.encode(), value.encode());
    assert_eq!(value.clone().encode(), value.encode());
}

#[test]
fn fixture_is_der_to_the_der_crate() {
    let any = der::asn1::Any::from_der(&hex(SIGNED_DATA)).unwrap();
    assert_eq!(any.tag(), der::Tag::Sequence);
    let digests = signed_data().digest_algorithms.encode().unwrap();
    let theirs =
        der::asn1::SetOfVec::<spki::AlgorithmIdentifierOwned>::from_der(&digests).unwrap();
    assert_eq!(theirs.len(), 1);
}

#[test]
fn content_info_wraps_signed_data_under_tag_zero() {
    let info = ContentInfo {
        content_type: ObjectIdentifier { bytes: hex("2a864886f70d010702") },
        content: Any { tag: 0x30, value: hex(SIGNED_DATA)[2..].to_vec() },
    };
    let der = info.encode().unwrap();
    assert_eq!(der, hex(CONTENT_INFO));
    let back = ContentInfo::decode(&der).unwrap();
    assert_eq!(back, info);
    let inner = back.content.encode().unwrap();
    assert_eq!(SignedData::decode(&inner), Ok(signed_data()));
}

#[test]
fn content_info_failures() {
    assert_eq!(ContentInfo::decode(&hex("300b06092a864886f70d010702")), Err(Error::MissingField));
    assert_eq!(
        ContentInfo::decode(&hex("300d06092a864886f70d010702a100")),
        Err(Error::MissingField)
    );
    assert_eq!(
        ContentInfo::decode(&hex("300d06092a864886f70d010702a000")),
        Err(Error::MissingField)
    );
    assert_eq!(
        ContentInfo::decode(&hex("301106092a864886f70d010702a00405000500")),
        Err(Error::TrailingData)
    );
    assert_eq!(
        ContentInfo::decode(&hex("301106092a864886f70d010702a00205000500")),
        Err(Error::TrailingData)
    );
    assert_eq!(
        ContentInfo::decode(&hex("300f06092a864886f70d010702a0021f00")),
        Err(Error::UnexpectedTag)
    );
    assert_eq!(ContentInfo::decode(&hex("3100")), Err(Error::UnexpectedTag));
}

#[test]
fn encapsulated_content_keeps_the_inner_tag() {
    let with_content = EncapsulatedContentInfo {
        econtent_type: id_data(),
        econtent: Some(Any { tag: 0x04, value: b"hello".to_vec() }),
    };
    let der = with_content.encode().unwrap();
    assert_eq!(der, hex("301406092a864886f70d010701a007040568656c6c6f"));
    assert_eq!(EncapsulatedContentInfo::decode(&der), Ok(with_content));
    let detached = EncapsulatedContentInfo { econtent_type: id_data(), econtent: None };
    assert_eq!(detached.encode(), Ok(hex("300b06092a864886f70d010701")));
    assert_eq!(
        EncapsulatedContentInfo::decode(&hex("300b06092a864886f70d010701")),
        Ok(detached)
    );
}

#[test]
fn encapsulated_content_failures() {
    assert_eq!(
        EncapsulatedContentInfo::decode(&hex("300d06092a864886f70d010701a100")),
        Err(Error::TrailingData)
    );
    assert_eq!(
        EncapsulatedContentInfo::decode(&hex("3009a007040568656c6c6f")),
        Err(Error::MissingField)
    );
    assert_eq!(
        EncapsulatedContentInfo::decode(&hex("300d06092a864886f70d010701a000")),
        Err(Error::MissingField)
    );
}

#[test]
fn set_elements_are_encoded_in_octet_order() {
    let mut value = signed_data();
    value.digest_algorithms = SetOf(vec![sha256(), sha1()]);
    let der = value.encode().unwrap();
    let mut sorted = hex(SHA1);
    sorted.extend(hex(SHA256));
    assert_eq!(&der[5..7], &[0x31, 26]);
    assert_eq!(&der[7..33], &sorted[..]);

    let decoded = SignedData::decode(&der).unwrap();
    assert_eq!(decoded.digest_algorithms, SetOf(vec![sha1(), sha256()]));
    assert_eq!(decoded.encode(), Ok(der.clone()));

    let mut in_order = signed_data();
    in_order.digest_algorithms = SetOf(vec![sha1(), sha256()]);
    assert_eq!(in_order.encode(), Ok(der.clone()));
    assert_eq!(decoded, in_order);
}

#[test]
fn set_elements_out_of_order_are_refused() {
    let mut value = signed_data();
    value.digest_algorithms = SetOf(vec![sha1(), sha256()]);
    let good = value.encode().unwrap();
    let mut bad = good.clone();
    bad[7..22].copy_from_slice(&hex(SHA256));
    bad[22..33].copy_from_slice(&hex(SHA1));
    assert_ne!(good, bad);
    assert!(SignedData::decode(&good).is_ok());
    assert_eq!(SignedData::decode(&bad), Err(Error::NonCanonicalSetOrder));
}

#[test]
fn set_order_is_that_of_the_der_crate() {
    let ours = DigestAlgorithmIdentifiers::decode(
        &SetOf(vec![sha256(), sha1()]).encode().unwrap(),
    )
    .unwrap();
    let theirs = der::asn1::SetOfVec::<spki::AlgorithmIdentifierOwned>::from_der(
        &SetOf(vec![sha256(), sha1()]).encode().unwrap(),
    )
    .unwrap();
    assert_eq!(theirs.len(), 2);
    assert_eq!(ours.0.len(), 2);
    let first = AlgorithmIdentifier::decode(&theirs.get(0).unwrap().to_der().unwrap()).unwrap();
    let second = AlgorithmIdentifier::decode(&theirs.get(1).unwrap().to_der().unwrap()).unwrap();
    assert_eq!(ours, SetOf(vec![first, second]));
    let mut swapped = vec![0x31, 26];
    swapped.extend(hex(SHA256));
    swapped.extend(hex(SHA1));
    assert_eq!(DigestAlgorithmIdentifiers::decode(&swapped), Err(Error::NonCanonicalSetOrder));
}

#[test]
fn set_with_an_element_twice_is_refused() {
    let twice: DigestAlgorithmIdentifiers = SetOf(vec![sha256(), sha256()]);
    assert_eq!(twice.encode(), Err(Error::InvalidValue));
    let mut der = vec![0x31, 30];
    der.extend(hex(SHA256));
    der.extend(hex(SHA256));
    assert_eq!(DigestAlgorithmIdentifiers::decode(&der), Err(Error::NonCanonicalSetOrder));
    let mut value = signed_data();
    value.digest_algorithms = twice;
    assert_eq!(value.encode(), Err(Error::InvalidValue));
}

#[test]
fn set_with_an_invalid_element_is_refused() {
    let set: DigestAlgorithmIdentifiers =
        SetOf(vec![sha256(), AlgorithmIdentifier { content: vec![] }]);
    assert_eq!(set.encode(), Err(Error::InvalidValue));
    assert_eq!(DigestAlgorithmIdentifiers::decode(&hex("31023000")), Err(Error::InvalidValue));
    assert_eq!(DigestAlgorithmIdentifiers::decode(&hex("3103020101")), Err(Error::UnexpectedTag));
    assert_eq!(DigestAlgorithmIdentifiers::decode(&hex("31021f00")), Err(Error::UnexpectedTag));
}

#[test]
fn empty_set_round_trips() {
    let empty: DigestAlgorithmIdentifiers = SetOf(vec![]);
    assert_eq!(empty.encode(), Ok(vec![0x31, 0x00]));
    assert_eq!(DigestAlgorithmIdentifiers::decode(&[0x31, 0x00]), Ok(empty));
}

#[test]
fn outer_length_with_one_octet_too_many_is_refused() {
    let good = hex(SIGNED_DATA);
    let mut padded = vec![0x30, 0x81, 0x62];
    padded.extend(&good[2..]);
    assert_eq!(SignedData::decode(&padded), Err(Error::MalformedLength));
    let mut padded = vec![0x30, 0x82, 0x00, 0x62];
    padded.extend(&good[2..]);
    assert_eq!(SignedData::decode(&padded), Err(Error::MalformedLength));
}

#[test]
fn inner_length_with_one_octet_too_many_is_refused() {
    let good = hex(SIGNED_DATA);
    let mut content = good[2..5].to_vec();
    content.extend([0x31, 0x81, 0x0f]);
    content.extend(&good[7..]);
    let padded = encode_tlv(0x30, &content);
    assert_eq!(SignedData::decode(&padded), Err(Error::MalformedLength));
}

#[test]
fn indefinite_length_is_refused() {
    let good = hex(SIGNED_DATA);
    let mut indefinite = vec![0x30, 0x80];
    indefinite.extend(&good[2..]);
    indefinite.extend([0x00, 0x00]);
    assert_eq!(SignedData::decode(&indefinite), Err(Error::MalformedLength));
}

#[test]
fn every_truncation_of_the_fixture_fails() {
    let good = hex(SIGNED_DATA);
    assert_eq!(SignedData::decode(&good[..0]), Err(Error::MissingField));
    for n in 1..good.len() {
        assert_eq!(SignedData::decode(&good[..n]), Err(Error::MalformedLength));
    }
    let info = hex(CONTENT_INFO);
    for n in 1..info.len() {
        assert_eq!(ContentInfo::decode(&info[..n]), Err(Error::MalformedLength));
    }
}

#[test]
fn oversized_claimed_length_fails() {
    let mut der = hex(SIGNED_DATA);
    der[1] = 0x63;
    assert_eq!(SignedData::decode(&der), Err(Error::MalformedLength));
    let huge = [0x30, 0x88, 0xff, 0xff, 0xff, 0xff, 0xff, 0xff, 0xff, 0xff, 0x02, 0x01, 0x01];
    assert_eq!(SignedData::decode(&huge), Err(Error::MalformedLength));
    let mut inner = hex(SIGNED_DATA);
    inner[6] = 0x7f;
    assert_eq!(SignedData::decode(&inner), Err(Error::MalformedLength));
}

#[test]
fn version_outside_the_enumeration_fails() {
    let mut der = hex(SIGNED_DATA);
    der[4] = 0x06;
    assert_eq!(SignedData::decode(&der), Err(Error::InvalidVersion));
    der[4] = 0x80;
    assert_eq!(SignedData::decode(&der), Err(Error::InvalidVersion));
    let mut signer_version = hex(SIGNED_DATA);
    signer_version[41] = 0x09;
    assert_eq!(SignedData::decode(&signer_version), Err(Error::InvalidVersion));
}

#[test]
fn what_decodes_after_a_change_of_one_octet_encodes_to_the_changed_input() {
    let good = hex(SIGNED_DATA);
    let mut accepted = 0;
    for at in 0..good.len() {
        for flip in [0x01u8, 0x02, 0x04, 0x08, 0x10, 0x20, 0x40, 0x80, 0xff] {
            let mut changed = good.clone();
            changed[at] ^= flip;
            match SignedData::decode(&changed) {
                Ok(value) => {
                    accepted += 1;
                    assert_eq!(value.encode(), Ok(changed));
                },
                Err(_) => {},
            }
        }
    }
    assert!(accepted > 0);
}

#[test]
fn trailing_data_fails() {
    let mut der = hex(SIGNED_DATA);
    der.push(0x00);
    assert_eq!(SignedData::decode(&der), Err(Error::TrailingData));
    let mut content = hex(SIGNED_DATA)[2..].to_vec();
    content.extend([0x05, 0x00]);
    assert_eq!(SignedData::decode(&encode_tlv(0x30, &content)), Err(Error::TrailingData));
}

#[test]
fn missing_mandatory_fields_fail() {
    let good = hex(SIGNED_DATA);
    let no_signers = encode_tlv(0x30, &good[2..35]);
    assert_eq!(SignedData::decode(&no_signers), Err(Error::MissingField));
    let no_version = encode_tlv(0x30, &good[5..]);
    assert_eq!(SignedData::decode(&no_version), Err(Error::MissingField));
    let mut no_digests = good[2..5].to_vec();
    no_digests.extend(&good[22..]);
    assert_eq!(SignedData::decode(&encode_tlv(0x30, &no_digests)), Err(Error::MissingField));
    assert_eq!(SignedData::decode(&[0x30, 0x00]), Err(Error::MissingField));
}

#[test]
fn wrong_outer_tag_fails() {
    let mut der = hex(SIGNED_DATA);
    der[0] = 0x31;
    assert_eq!(SignedData::decode(&der), Err(Error::UnexpectedTag));
    assert_eq!(SignedData::decode(&[]), Err(Error::MissingField));
}

#[test]
fn certificates_and_crls_stand_under_implicit_tags() {
    let mut value = signed_data();
    value.version = CmsVersion::V5;
    value.certificates = Some(CertificateSet(SetOf(vec![other_certificate(), certificate()])));
    value.crls = Some(RevocationInfoChoices(SetOf(vec![crl()])));
    let der = value.encode().unwrap();

    let mut content = hex(SIGNED_DATA)[2..35].to_vec();
    content[2] = 0x05;
    let mut certs = hex(CERT);
    certs.extend(hex("a30f06092a864886f70d0107010402aabb"));
    content.extend(encode_tlv(0xa0, &certs));
    content.extend(encode_tlv(0xa1, &hex(CRL)));
    content.extend(&hex(SIGNED_DATA)[35..]);
    assert_eq!(der, encode_tlv(0x30, &content));

    let decoded = SignedData::decode(&der).unwrap();
    assert_eq!(
        decoded.certificates,
        Some(CertificateSet(SetOf(vec![certificate(), other_certificate()])))
    );
    assert_eq!(decoded.crls, value.crls);
    assert_eq!(decoded.encode(), Ok(der));
}

#[test]
fn only_crls_present() {
    let mut value = signed_data();
    value.crls = Some(RevocationInfoChoices(SetOf(vec![crl()])));
    let der = value.encode().unwrap();
    assert_eq!(SignedData::decode(&der), Ok(value));
}

#[test]
fn crls_before_certificates_are_refused() {
    let mut content = hex(SIGNED_DATA)[2..35].to_vec();
    content.extend(encode_tlv(0xa1, &hex(CRL)));
    content.extend(encode_tlv(0xa0, &hex(CERT)));
    content.extend(&hex(SIGNED_DATA)[35..]);
    assert_eq!(SignedData::decode(&encode_tlv(0x30, &content)), Err(Error::MissingField));
}

#[test]
fn version_goes_with_the_other_fields() {
    assert_eq!(signed_data().expected_version(), CmsVersion::V1);
    assert_eq!(signed_data().check_version(), Ok(()));

    let mut wrong = signed_data();
    wrong.version = CmsVersion::V3;
    assert_eq!(wrong.check_version(), Err(Error::InconsistentVersion));

    let mut other_content = signed_data();
    other_content.encap_content_info.econtent_type =
        ObjectIdentifier { bytes: hex("2a864886f70d010702") };
    assert_eq!(other_content.expected_version(), CmsVersion::V3);
    assert_eq!(other_content.check_version(), Err(Error::InconsistentVersion));

    let mut by_key = signed_data();
    by_key.signer_infos.0 .0[0].version = CmsVersion::V3;
    assert!(by_key.has_version3_signer());
    assert_eq!(by_key.expected_version(), CmsVersion::V3);

    let mut plain_certificate = signed_data();
    plain_certificate.certificates = Some(CertificateSet(SetOf(vec![certificate()])));
    assert!(!plain_certificate.has_other_certificate());
    assert_eq!(plain_certificate.expected_version(), CmsVersion::V1);

    let mut with_other = signed_data();
    with_other.certificates = Some(CertificateSet(SetOf(vec![certificate(), other_certificate()])));
    assert!(with_other.has_other_certificate());
    assert!(!with_other.has_other_revocation());
    assert_eq!(with_other.expected_version(), CmsVersion::V5);
    with_other.version = CmsVersion::V5;
    assert_eq!(with_other.check_version(), Ok(()));

    let mut with_crl = signed_data();
    with_crl.crls = Some(RevocationInfoChoices(SetOf(vec![crl()])));
    assert!(!with_crl.has_other_revocation());
    assert_eq!(with_crl.expected_version(), CmsVersion::V1);
    with_crl.crls = Some(RevocationInfoChoices(SetOf(vec![
        crl(),
        RevocationInfoChoice::Other(OtherRevocationInfoFormat {
            other_format: id_data(),
            other: Any { tag: 0x05, value: vec![] },
        }),
    ])));
    assert!(with_crl.has_other_revocation());
    assert_eq!(with_crl.expected_version(), CmsVersion::V5);
    assert_eq!(with_crl.check_version(), Err(Error::InconsistentVersion));
}

#[test]
fn id_data_is_recognised() {
    assert!(is_id_data(&hex("2a864886f70d010701")));
    assert!(!is_id_data(&hex("2a864886f70d010702")));
    assert!(!is_id_data(&hex("2a864886f70d0107")));
    assert!(!is_id_data(&[]));
}
