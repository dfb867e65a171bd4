use cms::cert::{CertificateChoices, IssuerAndSerialNumber, OtherCertificateFormat};
use cms::asn1::{Any, ObjectIdentifier};
use cms::codec::Codec;
use cms::error::Error;
use cms::opaque::{
    AlgorithmIdentifier, Attributes, Certificate, CertificateList, Name, SerialNumber,
};
use cms::revocation::{OtherRevocationInfoFormat, RevocationInfoChoice, RevocationInfoChoices};
use cms::set_of::SetOf;
use cms::tlv::encode_tlv;
use der::{Decode, Encode};

fn hex(s: &str) -> Vec<u8> {
    (0..s.len()).step_by(2).map(|i| u8::from_str_radix(&s[i..i + 2], 16).unwrap()).collect()
}

const SHA256: &str = "300d06096086480165030402010500";
const NAME: &str = "300f310d300b06035504030c0454657374";
const ATTRS: &str = "311a301806092a864886f70d010903310b06092a864886f70d010701";
const CERT: &str = "308184306c020101300d06092a864886f70d01010b0500300f310d300b06035504030c0454657374301e170d3230303130313030303030305a170d3330303130313030303030305a300f310d300b06035504030c04546573743016300d06092a864886f70d0101010500030500deadbeef300d06092a864886f70d01010b0500030500deadbeef";
const CRL: &str = "304a3032020101300d06092a864886f70d01010b0500300f310d300b06035504030c0454657374170d3230303130313030303030305a300d06092a864886f70d01010b0500030500deadbeef";

#[test]
fn algorithm_identifier_round_trips() {
    let der = hex(SHA256);
    let alg = AlgorithmIdentifier::decode(&der).unwrap();
    assert_eq!(alg.content, der[2..].to_vec());
    assert_eq!(alg.encode(), Ok(der));
}

#[test]
fn algorithm_identifier_agrees_with_spki() {
    let theirs = spki::AlgorithmIdentifierOwned::from_der(&hex(SHA256)).unwrap();
    let ours = AlgorithmIdentifier::decode(&theirs.to_der().unwrap()).unwrap();
    assert_eq!(ours.encode().unwrap(), hex(SHA256));
}

#[test]
fn algorithm_identifier_refuses_what_spki_refuses() {
    assert_eq!(AlgorithmIdentifier::decode(&hex("3003040100")), Err(Error::InvalidValue));
    assert_eq!(AlgorithmIdentifier::decode(&hex("3000")), Err(Error::InvalidValue));
    assert_eq!(
        AlgorithmIdentifier { content: hex("040100") }.encode(),
        Err(Error::InvalidValue)
    );
    assert_eq!(AlgorithmIdentifier { content: vec![] }.encode(), Err(Error::InvalidValue));
}

#[test]
fn algorithm_identifier_framing_failures() {
    assert_eq!(AlgorithmIdentifier::decode(&[]), Err(Error::MissingField));
    assert_eq!(AlgorithmIdentifier::decode(&hex("310d06096086480165030402010500")), Err(Error::UnexpectedTag));
    let mut trailing = hex(SHA256);
    trailing.push(0);
    assert_eq!(AlgorithmIdentifier::decode(&trailing), Err(Error::TrailingData));
    assert_eq!(
        AlgorithmIdentifier::decode(&hex("30810d06096086480165030402010500")),
        Err(Error::MalformedLength)
    );
}

#[test]
fn attributes_round_trip() {
    let der = hex(ATTRS);
    let attrs = Attributes::decode(&der).unwrap();
    assert_eq!(attrs.content, der[2..].to_vec());
    assert_eq!(attrs.encode(), Ok(der));
}

#[test]
fn attributes_need_one_attribute() {
    assert_eq!(Attributes::decode(&hex("3100")), Err(Error::InvalidValue));
    assert_eq!(Attributes { content: vec![] }.encode(), Err(Error::InvalidValue));
}

#[test]
fn attributes_must_ascend() {
    let digest = hex("301306092a864886f70d0109043106040401020304");
    let kind = hex("301806092a864886f70d010903310b06092a864886f70d010701");
    let mut sorted = digest.clone();
    sorted.extend(&kind);
    let mut swapped = kind.clone();
    swapped.extend(&digest);
    let good = encode_tlv(0x31, &sorted);
    let bad = encode_tlv(0x31, &swapped);
    assert!(x509_cert::attr::Attributes::from_der(&good).is_ok());
    assert!(x509_cert::attr::Attributes::from_der(&bad).is_ok());
    assert_eq!(Attributes::decode(&good), Ok(Attributes { content: sorted }));
    assert_eq!(Attributes::decode(&bad), Err(Error::NonCanonicalSetOrder));
    assert_eq!(Attributes { content: swapped }.encode(), Err(Error::InvalidValue));
    let mut twice = kind.clone();
    twice.extend(&kind);
    assert_eq!(Attributes::decode(&encode_tlv(0x31, &twice)), Err(Error::NonCanonicalSetOrder));
    assert_eq!(Attributes::decode(&hex("3103300500")), Err(Error::MalformedLength));
}

#[test]
fn attributes_refuse_what_x509_cert_refuses() {
    assert_eq!(Attributes::decode(&hex("3103020101")), Err(Error::InvalidValue));
    assert_eq!(Attributes { content: hex("020101") }.encode(), Err(Error::InvalidValue));
    assert_eq!(Attributes::decode(&hex("3003020101")), Err(Error::UnexpectedTag));
}

#[test]
fn name_round_trips() {
    let der = hex(NAME);
    let name = Name::decode(&der).unwrap();
    assert_eq!(name.encode(), Ok(der));
    let empty = Name::decode(&hex("3000")).unwrap();
    assert_eq!(empty.content, Vec::<u8>::new());
}

#[test]
fn name_refuses_what_x509_cert_refuses() {
    assert_eq!(Name::decode(&hex("3003020101")), Err(Error::InvalidValue));
    assert_eq!(Name { content: hex("020101") }.encode(), Err(Error::InvalidValue));
    assert_eq!(Name::decode(&hex("3100")), Err(Error::UnexpectedTag));
}

#[test]
fn serial_number_round_trips() {
    let serial = SerialNumber::decode(&hex("020101")).unwrap();
    assert_eq!(serial.content, vec![0x01]);
    assert_eq!(serial.encode(), Ok(hex("020101")));
    let big = SerialNumber { content: hex("00ffeeddccbbaa99887766554433221100ffeeddcc") };
    assert_eq!(SerialNumber::decode(&big.encode().unwrap()), Ok(big));
}

#[test]
fn serial_number_refuses_what_x509_cert_refuses() {
    let long = SerialNumber { content: vec![0x01; 22] };
    assert_eq!(long.encode(), Err(Error::InvalidValue));
    let mut der = vec![0x02, 22];
    der.extend(vec![0x01; 22]);
    assert_eq!(SerialNumber::decode(&der), Err(Error::InvalidValue));
    assert_eq!(SerialNumber::decode(&hex("0200")), Err(Error::InvalidValue));
    assert_eq!(SerialNumber::decode(&hex("02020001")), Err(Error::InvalidValue));
    assert_eq!(SerialNumber::decode(&hex("0202ff80")), Err(Error::InvalidValue));
    assert_eq!(SerialNumber { content: vec![0x00, 0x01] }.encode(), Err(Error::InvalidValue));
    assert_eq!(SerialNumber { content: vec![] }.encode(), Err(Error::InvalidValue));
    assert_eq!(SerialNumber::decode(&hex("02810101")), Err(Error::MalformedLength));
    let longest = SerialNumber { content: vec![0x01; 21] };
    assert_eq!(SerialNumber::decode(&longest.encode().unwrap()), Ok(longest));
    for der in [hex("020101"), hex("0200"), hex("02020001"), hex("020200ff"), hex("0201ff")] {
        assert_eq!(
            SerialNumber::decode(&der).is_ok(),
            x509_cert::serial_number::SerialNumber::<x509_cert::certificate::Rfc5280>::from_der(&der)
                .is_ok()
        );
    }
    assert_eq!(SerialNumber::decode(&hex("040101")), Err(Error::UnexpectedTag));
}

#[test]
fn certificate_round_trips() {
    let der = hex(CERT);
    assert!(x509_cert::Certificate::from_der(&der).is_ok());
    let cert = Certificate::decode(&der).unwrap();
    assert_eq!(cert.content, der[3..].to_vec());
    assert_eq!(cert.encode(), Ok(der));
}

#[test]
fn certificate_refuses_what_x509_cert_refuses() {
    assert_eq!(Certificate::decode(&hex("3003020101")), Err(Error::InvalidValue));
    assert_eq!(Certificate::decode(&hex(SHA256)), Err(Error::InvalidValue));
    assert_eq!(Certificate { content: vec![] }.encode(), Err(Error::InvalidValue));
    let mut cut = hex(CERT);
    cut.pop();
    assert_eq!(Certificate::decode(&cut), Err(Error::MalformedLength));
}

#[test]
fn certificate_list_round_trips() {
    let der = hex(CRL);
    assert!(x509_cert::crl::CertificateList::from_der(&der).is_ok());
    let crl = CertificateList::decode(&der).unwrap();
    assert_eq!(crl.encode(), Ok(der));
}

#[test]
fn certificate_list_refuses_what_x509_cert_refuses() {
    assert_eq!(CertificateList::decode(&hex("3003020101")), Err(Error::InvalidValue));
    assert_eq!(CertificateList::decode(&hex(CERT)), Err(Error::InvalidValue));
}

#[test]
fn issuer_and_serial_number_round_trips() {
    let der = hex("3014300f310d300b06035504030c0454657374020101");
    let value = IssuerAndSerialNumber {
        issuer: Name { content: hex(NAME)[2..].to_vec() },
        serial_number: SerialNumber { content: vec![0x01] },
    };
    assert_eq!(value.encode(), Ok(der.clone()));
    assert_eq!(IssuerAndSerialNumber::decode(&der), Ok(value));
}

#[test]
fn issuer_and_serial_number_failures() {
    assert_eq!(
        IssuerAndSerialNumber::decode(&hex("3011300f310d300b06035504030c0454657374")),
        Err(Error::MissingField)
    );
    assert_eq!(
        IssuerAndSerialNumber::decode(&hex("3014020101300f310d300b06035504030c0454657374")),
        Err(Error::MissingField)
    );
    assert_eq!(
        IssuerAndSerialNumber::decode(&hex("3016300f310d300b06035504030c04546573740201010500")),
        Err(Error::TrailingData)
    );
    assert_eq!(IssuerAndSerialNumber::decode(&hex("3000")), Err(Error::MissingField));
    let invalid = IssuerAndSerialNumber {
        issuer: Name { content: hex("020101") },
        serial_number: SerialNumber { content: vec![0x01] },
    };
    assert_eq!(invalid.encode(), Err(Error::InvalidValue));
}

#[test]
fn certificate_choices_tells_variants_by_tag() {
    let cert = CertificateChoices::Certificate(Certificate { content: hex(CERT)[3..].to_vec() });
    let der = cert.encode().unwrap();
    assert_eq!(der, hex(CERT));
    assert_eq!(CertificateChoices::decode(&der), Ok(cert));

    let other = CertificateChoices::Other(OtherCertificateFormat {
        other_cert_format: ObjectIdentifier { bytes: hex("2a864886f70d010701") },
        other_cert: Any { tag: 0x04, value: vec![0xaa, 0xbb] },
    });
    let der = other.encode().unwrap();
    assert_eq!(der, hex("a30f06092a864886f70d0107010402aabb"));
    assert_eq!(CertificateChoices::decode(&der), Ok(other));
}

#[test]
fn certificate_choices_failures() {
    assert_eq!(CertificateChoices::decode(&[]), Err(Error::MissingField));
    assert_eq!(CertificateChoices::decode(&hex("a20f06092a864886f70d0107010402aabb")), Err(Error::UnexpectedTag));
    assert_eq!(CertificateChoices::decode(&hex("040100")), Err(Error::UnexpectedTag));
    assert_eq!(
        CertificateChoices::decode(&hex("a30b06092a864886f70d010701")),
        Err(Error::MissingField)
    );
    assert_eq!(
        CertificateChoices::decode(&hex("a30d06092a864886f70d0107011f00")),
        Err(Error::UnexpectedTag)
    );
    assert_eq!(
        CertificateChoices::decode(&hex("a30d0400a006092a864886f70d010701")),
        Err(Error::MissingField)
    );
    assert_eq!(
        CertificateChoices::decode(&hex("a30f06092a864886f70d0107010402aabb00")),
        Err(Error::TrailingData)
    );
}

#[test]
fn other_certificate_format_round_trips_under_its_own_tag() {
    let other = OtherCertificateFormat {
        other_cert_format: ObjectIdentifier { bytes: hex("2a864886f70d010701") },
        other_cert: Any { tag: 0x04, value: vec![0xaa, 0xbb] },
    };
    let der = other.encode().unwrap();
    assert_eq!(der, hex("300f06092a864886f70d0107010402aabb"));
    assert_eq!(OtherCertificateFormat::decode(&der), Ok(other));
}

#[test]
fn revocation_info_choice_tells_variants_by_tag() {
    let crl = RevocationInfoChoice::Crl(CertificateList { content: hex(CRL)[2..].to_vec() });
    let der = crl.encode().unwrap();
    assert_eq!(der, hex(CRL));
    assert_eq!(RevocationInfoChoice::decode(&der), Ok(crl));

    let other = RevocationInfoChoice::Other(OtherRevocationInfoFormat {
        other_format: ObjectIdentifier { bytes: hex("2a864886f70d010701") },
        other: Any { tag: 0x04, value: vec![0xaa, 0xbb] },
    });
    let der = other.encode().unwrap();
    assert_eq!(der, hex("a10f06092a864886f70d0107010402aabb"));
    assert_eq!(RevocationInfoChoice::decode(&der), Ok(other));
    assert_eq!(RevocationInfoChoice::decode(&hex("a30f06092a864886f70d0107010402aabb")), Err(Error::UnexpectedTag));
}

#[test]
fn revocation_info_choices_is_a_set() {
    let other = RevocationInfoChoice::Other(OtherRevocationInfoFormat {
        other_format: ObjectIdentifier { bytes: hex("2a864886f70d010701") },
        other: Any { tag: 0x04, value: vec![0xaa, 0xbb] },
    });
    let crl = RevocationInfoChoice::Crl(CertificateList { content: hex(CRL)[2..].to_vec() });
    let set = RevocationInfoChoices(SetOf(vec![other.clone(), crl.clone()]));
    let der = set.encode().unwrap();
    let mut expected = vec![0x31, 93];
    expected.extend(hex(CRL));
    expected.extend(hex("a10f06092a864886f70d0107010402aabb"));
    assert_eq!(der, expected);
    assert_eq!(RevocationInfoChoices::decode(&der), Ok(RevocationInfoChoices(SetOf(vec![crl, other]))));
}
