//! Certificates and the ways of naming one.
use vstd::prelude::*;
use vstd::slice::slice_subrange;
use crate::asn1::{Any, AnyView, ObjectIdentifier};
use crate::codec::{
    decode_choice_field, decode_exact, decode_field, encode_field, lemma_choice_field,
    lemma_exact_canonical, lemma_exact_roundtrip, lemma_field_canonical, lemma_field_roundtrip,
    lemma_open_canonical, lemma_open_tlv, lemma_wrap, open, spec_choice_field, spec_exact,
    spec_field, spec_open, spec_wrap, Codec, Tagging,
};
use crate::error::Error;
use crate::opaque::{Certificate, Name, SerialNumber};
use crate::tlv::{encode_tlv, max_length, spec_tlv};

verus! {

/// A certificate named by its issuer and serial number.
///
/// ```text
/// IssuerAndSerialNumber ::= SEQUENCE {
///     issuer Name,
///     serialNumber CertificateSerialNumber }
/// ```
#[derive(Clone, Debug, PartialEq, Eq)]
#[allow(missing_docs)]
pub struct IssuerAndSerialNumber {
    pub issuer: Name,
    pub serial_number: SerialNumber,
}

/// What an `IssuerAndSerialNumber` holds.
#[allow(missing_docs)]
pub struct IssuerAndSerialNumberView {
    pub issuer: Seq<u8>,
    pub serial_number: Seq<u8>,
}

impl View for IssuerAndSerialNumber {
    type V = IssuerAndSerialNumberView;

    open spec fn view(&self) -> IssuerAndSerialNumberView {
        IssuerAndSerialNumberView { issuer: self.issuer@, serial_number: self.serial_number@ }
    }
}

impl IssuerAndSerialNumber {
    /// The content of the SEQUENCE: the fields in their order.
    pub open spec fn spec_content(v: IssuerAndSerialNumberView) -> Seq<u8> {
        spec_wrap::<Name>(Tagging::Natural, v.issuer) + spec_wrap::<SerialNumber>(
            Tagging::Natural,
            v.serial_number,
        )
    }

    /// Reads the fields from the content of the SEQUENCE.
    pub open spec fn spec_decode_content(c: Seq<u8>) -> Result<IssuerAndSerialNumberView, Error> {
        match spec_field::<Name>(Tagging::Natural, c) {
            Err(e) => Err(e),
            Ok((issuer, c1)) => match spec_field::<SerialNumber>(Tagging::Natural, c1) {
                Err(e) => Err(e),
                Ok((serial_number, c2)) => if c2.len() > 0 {
                    Err(Error::TrailingData)
                } else {
                    Ok(IssuerAndSerialNumberView { issuer, serial_number })
                },
            },
        }
    }
}

impl Codec for IssuerAndSerialNumber {
    open spec fn spec_tag(tag: u8) -> bool {
        tag == 0x30
    }

    open spec fn spec_valid(v: IssuerAndSerialNumberView) -> bool {
        &&& Name::spec_valid(v.issuer)
        &&& SerialNumber::spec_valid(v.serial_number)
        &&& Self::spec_content(v).len() <= max_length()
    }

    open spec fn spec_canonical(v: IssuerAndSerialNumberView) -> bool {
        true
    }

    open spec fn spec_encode(v: IssuerAndSerialNumberView) -> Seq<u8> {
        spec_tlv(0x30, Self::spec_content(v))
    }

    open spec fn spec_decode(s: Seq<u8>) -> Result<IssuerAndSerialNumberView, Error> {
        match spec_open(s, 0x30) {
            Err(e) => Err(e),
            Ok(content) => Self::spec_decode_content(content),
        }
    }

    proof fn lemma_encode(v: IssuerAndSerialNumberView) {
        lemma_open_tlv(0x30, Self::spec_content(v));
    }

    proof fn lemma_roundtrip(v: IssuerAndSerialNumberView) {
        let w2 = spec_wrap::<SerialNumber>(Tagging::Natural, v.serial_number);
        lemma_open_tlv(0x30, Self::spec_content(v));
        lemma_field_roundtrip::<Name>(Tagging::Natural, v.issuer, w2);
        lemma_field_roundtrip::<SerialNumber>(Tagging::Natural, v.serial_number, Seq::empty());
        assert(w2 + Seq::<u8>::empty() =~= w2);
    }

    proof fn lemma_canonical(s: Seq<u8>) {
        lemma_open_canonical(s, 0x30);
        let c = spec_open(s, 0x30)->Ok_0;
        lemma_field_canonical::<Name>(Tagging::Natural, c);
        let (issuer, c1) = spec_field::<Name>(Tagging::Natural, c)->Ok_0;
        lemma_field_canonical::<SerialNumber>(Tagging::Natural, c1);
        let (serial_number, c2) = spec_field::<SerialNumber>(Tagging::Natural, c1)->Ok_0;
        let v = IssuerAndSerialNumberView { issuer, serial_number };
        assert(c =~= Self::spec_content(v));
    }

    fn accepts_tag(tag: u8) -> (r: bool) {
        tag == 0x30
    }

    fn encode(&self) -> (r: Result<Vec<u8>, Error>) {
        let mut content: Vec<u8> = Vec::new();
        match encode_field::<Name>(Tagging::Natural, &self.issuer, &mut content) {
            Err(e) => {
                return Err(e);
            },
            Ok(_) => {},
        }
        match encode_field::<SerialNumber>(Tagging::Natural, &self.serial_number, &mut content) {
            Err(e) => {
                return Err(e);
            },
            Ok(_) => {},
        }
        assert(content@ =~= Self::spec_content(self@));
        Ok(encode_tlv(0x30, content.as_slice()))
    }

    fn decode(s: &[u8]) -> (r: Result<Self, Error>) {
        let start = match open(s, 0x30) {
            Err(e) => {
                return Err(e);
            },
            Ok(start) => start,
        };
        let c = slice_subrange(s, start, s.len());
        assert(c@ =~= s@.skip(start as int));
        let (issuer, n1) = match decode_field::<Name>(Tagging::Natural, c) {
            Err(e) => {
                return Err(e);
            },
            Ok(found) => found,
        };
        let c1 = slice_subrange(c, n1, c.len());
        assert(c1@ =~= c@.skip(n1 as int));
        let (serial_number, n2) = match decode_field::<SerialNumber>(Tagging::Natural, c1) {
            Err(e) => {
                return Err(e);
            },
            Ok(found) => found,
        };
        if n2 < c1.len() {
            return Err(Error::TrailingData);
        }
        Ok(IssuerAndSerialNumber { issuer, serial_number })
    }
}

/// A certificate in a format that this schema does not know: the format's
/// identifier and the certificate as the format defines it.
///
/// ```text
/// OtherCertificateFormat ::= SEQUENCE {
///     otherCertFormat OBJECT IDENTIFIER,
///     otherCert ANY DEFINED BY otherCertFormat }
/// ```
#[derive(Clone, Debug, PartialEq, Eq)]
#[allow(missing_docs)]
pub struct OtherCertificateFormat {
    pub other_cert_format: ObjectIdentifier,
    pub other_cert: Any,
}

/// What an `OtherCertificateFormat` holds.
#[allow(missing_docs)]
pub struct OtherCertificateFormatView {
    pub other_cert_format: Seq<u8>,
    pub other_cert: AnyView,
}

impl View for OtherCertificateFormat {
    type V = OtherCertificateFormatView;

    open spec fn view(&self) -> OtherCertificateFormatView {
        OtherCertificateFormatView {
            other_cert_format: self.other_cert_format@,
            other_cert: self.other_cert@,
        }
    }
}

impl OtherCertificateFormat {
    /// The content of the SEQUENCE: the fields in their order.
    pub open spec fn spec_content(v: OtherCertificateFormatView) -> Seq<u8> {
        spec_wrap::<ObjectIdentifier>(Tagging::Natural, v.other_cert_format) + spec_wrap::<Any>(
            Tagging::Natural,
            v.other_cert,
        )
    }

    /// Reads the fields from the content of the SEQUENCE.
    pub open spec fn spec_decode_content(c: Seq<u8>) -> Result<OtherCertificateFormatView, Error> {
        match spec_field::<ObjectIdentifier>(Tagging::Natural, c) {
            Err(e) => Err(e),
            Ok((other_cert_format, c1)) => match spec_choice_field::<Any>(c1) {
                Err(e) => Err(e),
                Ok((other_cert, c2)) => if c2.len() > 0 {
                    Err(Error::TrailingData)
                } else {
                    Ok(OtherCertificateFormatView { other_cert_format, other_cert })
                },
            },
        }
    }
}

impl Codec for OtherCertificateFormat {
    open spec fn spec_tag(tag: u8) -> bool {
        tag == 0x30
    }

    open spec fn spec_valid(v: OtherCertificateFormatView) -> bool {
        &&& ObjectIdentifier::spec_valid(v.other_cert_format)
        &&& Any::spec_valid(v.other_cert)
        &&& Self::spec_content(v).len() <= max_length()
    }

    open spec fn spec_canonical(v: OtherCertificateFormatView) -> bool {
        true
    }

    open spec fn spec_encode(v: OtherCertificateFormatView) -> Seq<u8> {
        spec_tlv(0x30, Self::spec_content(v))
    }

    open spec fn spec_decode(s: Seq<u8>) -> Result<OtherCertificateFormatView, Error> {
        match spec_open(s, 0x30) {
            Err(e) => Err(e),
            Ok(content) => Self::spec_decode_content(content),
        }
    }

    proof fn lemma_encode(v: OtherCertificateFormatView) {
        lemma_open_tlv(0x30, Self::spec_content(v));
    }

    proof fn lemma_roundtrip(v: OtherCertificateFormatView) {
        let w2 = spec_wrap::<Any>(Tagging::Natural, v.other_cert);
        lemma_open_tlv(0x30, Self::spec_content(v));
        lemma_field_roundtrip::<ObjectIdentifier>(Tagging::Natural, v.other_cert_format, w2);
        lemma_field_roundtrip::<Any>(Tagging::Natural, v.other_cert, Seq::empty());
        assert(w2 + Seq::<u8>::empty() =~= w2);
        lemma_choice_field::<Any>(w2);
    }

    proof fn lemma_canonical(s: Seq<u8>) {
        lemma_open_canonical(s, 0x30);
        let c = spec_open(s, 0x30)->Ok_0;
        lemma_field_canonical::<ObjectIdentifier>(Tagging::Natural, c);
        let (other_cert_format, c1) = spec_field::<ObjectIdentifier>(Tagging::Natural, c)->Ok_0;
        lemma_choice_field::<Any>(c1);
        lemma_field_canonical::<Any>(Tagging::Natural, c1);
        let (other_cert, c2) = spec_choice_field::<Any>(c1)->Ok_0;
        let v = OtherCertificateFormatView { other_cert_format, other_cert };
        assert(c =~= Self::spec_content(v));
    }

    fn accepts_tag(tag: u8) -> (r: bool) {
        tag == 0x30
    }

    fn encode(&self) -> (r: Result<Vec<u8>, Error>) {
        let mut content: Vec<u8> = Vec::new();
        match encode_field::<ObjectIdentifier>(
            Tagging::Natural,
            &self.other_cert_format,
            &mut content,
        ) {
            Err(e) => {
                return Err(e);
            },
            Ok(_) => {},
        }
        match encode_field::<Any>(Tagging::Natural, &self.other_cert, &mut content) {
            Err(e) => {
                return Err(e);
            },
            Ok(_) => {},
        }
        assert(content@ =~= Self::spec_content(self@));
        Ok(encode_tlv(0x30, content.as_slice()))
    }

    fn decode(s: &[u8]) -> (r: Result<Self, Error>) {
        let start = match open(s, 0x30) {
            Err(e) => {
                return Err(e);
            },
            Ok(start) => start,
        };
        let c = slice_subrange(s, start, s.len());
        assert(c@ =~= s@.skip(start as int));
        let (other_cert_format, n1) = match decode_field::<ObjectIdentifier>(
            Tagging::Natural,
            c,
        ) {
            Err(e) => {
                return Err(e);
            },
            Ok(found) => found,
        };
        let c1 = slice_subrange(c, n1, c.len());
        assert(c1@ =~= c@.skip(n1 as int));
        let (other_cert, n2) = match decode_choice_field::<Any>(c1) {
            Err(e) => {
                return Err(e);
            },
            Ok(found) => found,
        };
        if n2 < c1.len() {
            return Err(Error::TrailingData);
        }
        Ok(OtherCertificateFormat { other_cert_format, other_cert })
    }
}

/// How `OtherCertificateFormat` is tagged as a variant of
/// `CertificateChoices`: `[3] IMPLICIT`.
pub open spec fn other_certificate_tagging() -> Tagging {
    Tagging::Implicit(0xa3, 0x30)
}

/// A certificate, or a certificate in another format.
///
/// ```text
/// CertificateChoices ::= CHOICE {
///     certificate Certificate,
///     other [3] IMPLICIT OtherCertificateFormat }
/// ```
#[derive(Clone, Debug, PartialEq, Eq)]
#[allow(missing_docs)]
pub enum CertificateChoices {
    Certificate(Certificate),
    Other(OtherCertificateFormat),
}

/// What a `CertificateChoices` holds.
#[allow(missing_docs)]
pub enum CertificateChoicesView {
    Certificate(Seq<u8>),
    Other(OtherCertificateFormatView),
}

impl View for CertificateChoices {
    type V = CertificateChoicesView;

    open spec fn view(&self) -> CertificateChoicesView {
        match self {
            CertificateChoices::Certificate(c) => CertificateChoicesView::Certificate(c@),
            CertificateChoices::Other(o) => CertificateChoicesView::Other(o@),
        }
    }
}

impl Codec for CertificateChoices {
    open spec fn spec_tag(tag: u8) -> bool {
        tag == 0x30 || tag == 0xa3
    }

    open spec fn spec_valid(v: CertificateChoicesView) -> bool {
        match v {
            CertificateChoicesView::Certificate(c) => Certificate::spec_valid(c),
            CertificateChoicesView::Other(o) => OtherCertificateFormat::spec_valid(o),
        }
    }

    open spec fn spec_canonical(v: CertificateChoicesView) -> bool {
        true
    }

    open spec fn spec_encode(v: CertificateChoicesView) -> Seq<u8> {
        match v {
            CertificateChoicesView::Certificate(c) => spec_wrap::<Certificate>(
                Tagging::Natural,
                c,
            ),
            CertificateChoicesView::Other(o) => spec_wrap::<OtherCertificateFormat>(
                other_certificate_tagging(),
                o,
            ),
        }
    }

    open spec fn spec_decode(s: Seq<u8>) -> Result<CertificateChoicesView, Error> {
        if s.len() == 0 {
            Err(Error::MissingField)
        } else if s[0] == 0x30 {
            match spec_exact::<Certificate>(Tagging::Natural, s) {
                Err(e) => Err(e),
                Ok(c) => Ok(CertificateChoicesView::Certificate(c)),
            }
        } else if s[0] == 0xa3 {
            match spec_exact::<OtherCertificateFormat>(other_certificate_tagging(), s) {
                Err(e) => Err(e),
                Ok(o) => Ok(CertificateChoicesView::Other(o)),
            }
        } else {
            Err(Error::UnexpectedTag)
        }
    }

    proof fn lemma_encode(v: CertificateChoicesView) {
        match v {
            CertificateChoicesView::Certificate(c) => {
                lemma_wrap::<Certificate>(Tagging::Natural, c);
            },
            CertificateChoicesView::Other(o) => {
                lemma_wrap::<OtherCertificateFormat>(other_certificate_tagging(), o);
            },
        }
    }

    proof fn lemma_roundtrip(v: CertificateChoicesView) {
        match v {
            CertificateChoicesView::Certificate(c) => {
                lemma_wrap::<Certificate>(Tagging::Natural, c);
                lemma_exact_roundtrip::<Certificate>(Tagging::Natural, c);
            },
            CertificateChoicesView::Other(o) => {
                lemma_wrap::<OtherCertificateFormat>(other_certificate_tagging(), o);
                lemma_exact_roundtrip::<OtherCertificateFormat>(other_certificate_tagging(), o);
            },
        }
    }

    proof fn lemma_canonical(s: Seq<u8>) {
        if s[0] == 0x30 {
            lemma_exact_canonical::<Certificate>(Tagging::Natural, s);
        } else {
            lemma_exact_canonical::<OtherCertificateFormat>(other_certificate_tagging(), s);
        }
    }

    fn accepts_tag(tag: u8) -> (r: bool) {
        tag == 0x30 || tag == 0xa3
    }

    fn encode(&self) -> (r: Result<Vec<u8>, Error>) {
        let mut out: Vec<u8> = Vec::new();
        let done = match self {
            CertificateChoices::Certificate(c) => encode_field::<Certificate>(
                Tagging::Natural,
                c,
                &mut out,
            ),
            CertificateChoices::Other(o) => encode_field::<OtherCertificateFormat>(
                Tagging::Implicit(0xa3, 0x30),
                o,
                &mut out,
            ),
        };
        match done {
            Err(e) => Err(e),
            Ok(_) => {
                assert(out@ =~= Self::spec_encode(self@));
                Ok(out)
            },
        }
    }

    fn decode(s: &[u8]) -> (r: Result<Self, Error>) {
        if s.len() == 0 {
            Err(Error::MissingField)
        } else if s[0] == 0x30 {
            match decode_exact::<Certificate>(Tagging::Natural, s) {
                Err(e) => Err(e),
                Ok(c) => Ok(CertificateChoices::Certificate(c)),
            }
        } else if s[0] == 0xa3 {
            match decode_exact::<OtherCertificateFormat>(Tagging::Implicit(0xa3, 0x30), s) {
                Err(e) => Err(e),
                Ok(o) => Ok(CertificateChoices::Other(o)),
            }
        } else {
            Err(Error::UnexpectedTag)
        }
    }
}

} // verus!
