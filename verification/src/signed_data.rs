//! `SignedData` and what it is made of.
use core::cmp::Ordering;
use vstd::prelude::*;
use vstd::slice::slice_subrange;
use crate::asn1::{Any, AnyView, ObjectIdentifier, OctetString};
use crate::cert::{
    CertificateChoices, CertificateChoicesView, IssuerAndSerialNumber, IssuerAndSerialNumberView,
};
use crate::codec::{
    decode_choice_field, decode_exact, decode_field, decode_optional, encode_field, encode_optional,
    lemma_choice_field, lemma_exact_canonical, lemma_exact_roundtrip, lemma_field_canonical,
    lemma_field_roundtrip, lemma_join6, lemma_join7, lemma_open_canonical, lemma_open_tlv,
    lemma_optional_canonical, lemma_optional_roundtrip, lemma_wrap, lemma_wrap_optional, open,
    option_view, spec_choice_field, spec_exact, spec_field, spec_open, spec_optional,
    spec_optional_canonical, spec_wrap, spec_wrap_optional, spec_wrap_optional_valid,
    spec_wrap_valid, Codec, Tagging,
};
use crate::content_info::CmsVersion;
use crate::error::Error;
use crate::opaque::{AlgorithmIdentifier, Attributes};
use crate::order::{octet_order_of, octet_ordering};
use crate::revocation::{RevocationInfoChoice, RevocationInfoChoiceView, RevocationInfoChoices};
use crate::set_of::{lemma_set_round_trip, SetOf};
use crate::tlv::{encode_tlv, max_length, spec_tlv};

verus! {

/// ```text
/// DigestAlgorithmIdentifiers ::= SET OF DigestAlgorithmIdentifier
/// ```
pub type DigestAlgorithmIdentifiers = SetOf<AlgorithmIdentifier>;

/// ```text
/// SignedAttributes ::= SET SIZE (1..MAX) OF Attribute
/// ```
pub type SignedAttributes = Attributes;

/// ```text
/// UnsignedAttributes ::= SET SIZE (1..MAX) OF Attribute
/// ```
pub type UnsignedAttributes = Attributes;

/// ```text
/// SignatureValue ::= OCTET STRING
/// ```
pub type SignatureValue = OctetString;

/// ```text
/// SubjectKeyIdentifier ::= OCTET STRING
/// ```
pub type SubjectKeyIdentifier = OctetString;

/// Who signed: the signer's certificate named by issuer and serial number,
/// or by its key identifier under `[0] EXPLICIT`.
///
/// ```text
/// SignerIdentifier ::= CHOICE {
///     issuerAndSerialNumber IssuerAndSerialNumber,
///     subjectKeyIdentifier [0] SubjectKeyIdentifier }
/// ```
///
/// The leading tag tells the variants apart: `0x30` for the first, `0xa0`
/// for the second.
#[derive(Clone, Debug, Eq, PartialEq)]
#[allow(missing_docs)]
pub enum SignerIdentifier {
    IssuerAndSerialNumber(IssuerAndSerialNumber),
    SubjectKeyIdentifier(SubjectKeyIdentifier),
}

/// What a `SignerIdentifier` holds.
#[allow(missing_docs)]
pub enum SignerIdentifierView {
    IssuerAndSerialNumber(IssuerAndSerialNumberView),
    SubjectKeyIdentifier(Seq<u8>),
}

impl View for SignerIdentifier {
    type V = SignerIdentifierView;

    open spec fn view(&self) -> SignerIdentifierView {
        match self {
            SignerIdentifier::IssuerAndSerialNumber(i) => {
                SignerIdentifierView::IssuerAndSerialNumber(i@)
            },
            SignerIdentifier::SubjectKeyIdentifier(k) => {
                SignerIdentifierView::SubjectKeyIdentifier(k@)
            },
        }
    }
}

impl Codec for SignerIdentifier {
    open spec fn spec_tag(tag: u8) -> bool {
        tag == 0x30 || tag == 0xa0
    }

    open spec fn spec_valid(v: SignerIdentifierView) -> bool {
        match v {
            SignerIdentifierView::IssuerAndSerialNumber(i) => IssuerAndSerialNumber::spec_valid(
                i,
            ),
            SignerIdentifierView::SubjectKeyIdentifier(k) => spec_wrap_valid::<OctetString>(
                Tagging::Explicit(0xa0),
                k,
            ),
        }
    }

    open spec fn spec_canonical(v: SignerIdentifierView) -> bool {
        true
    }

    open spec fn spec_encode(v: SignerIdentifierView) -> Seq<u8> {
        match v {
            SignerIdentifierView::IssuerAndSerialNumber(i) => spec_wrap::<IssuerAndSerialNumber>(
                Tagging::Natural,
                i,
            ),
            SignerIdentifierView::SubjectKeyIdentifier(k) => spec_wrap::<OctetString>(
                Tagging::Explicit(0xa0),
                k,
            ),
        }
    }

    open spec fn spec_decode(s: Seq<u8>) -> Result<SignerIdentifierView, Error> {
        if s.len() == 0 {
            Err(Error::MissingField)
        } else if s[0] == 0x30 {
            match spec_exact::<IssuerAndSerialNumber>(Tagging::Natural, s) {
                Err(e) => Err(e),
                Ok(i) => Ok(SignerIdentifierView::IssuerAndSerialNumber(i)),
            }
        } else if s[0] == 0xa0 {
            match spec_exact::<OctetString>(Tagging::Explicit(0xa0), s) {
                Err(e) => Err(e),
                Ok(k) => Ok(SignerIdentifierView::SubjectKeyIdentifier(k)),
            }
        } else {
            Err(Error::UnexpectedTag)
        }
    }

    proof fn lemma_encode(v: SignerIdentifierView) {
        match v {
            SignerIdentifierView::IssuerAndSerialNumber(i) => {
                lemma_wrap::<IssuerAndSerialNumber>(Tagging::Natural, i);
            },
            SignerIdentifierView::SubjectKeyIdentifier(k) => {
                lemma_wrap::<OctetString>(Tagging::Explicit(0xa0), k);
            },
        }
    }

    proof fn lemma_roundtrip(v: SignerIdentifierView) {
        match v {
            SignerIdentifierView::IssuerAndSerialNumber(i) => {
                lemma_wrap::<IssuerAndSerialNumber>(Tagging::Natural, i);
                lemma_exact_roundtrip::<IssuerAndSerialNumber>(Tagging::Natural, i);
            },
            SignerIdentifierView::SubjectKeyIdentifier(k) => {
                lemma_wrap::<OctetString>(Tagging::Explicit(0xa0), k);
                lemma_exact_roundtrip::<OctetString>(Tagging::Explicit(0xa0), k);
            },
        }
    }

    proof fn lemma_canonical(s: Seq<u8>) {
        if s[0] == 0x30 {
            lemma_exact_canonical::<IssuerAndSerialNumber>(Tagging::Natural, s);
        } else {
            lemma_exact_canonical::<OctetString>(Tagging::Explicit(0xa0), s);
        }
    }

    fn accepts_tag(tag: u8) -> (r: bool) {
        tag == 0x30 || tag == 0xa0
    }

    fn encode(&self) -> (r: Result<Vec<u8>, Error>) {
        let mut out: Vec<u8> = Vec::new();
        let done = match self {
            SignerIdentifier::IssuerAndSerialNumber(i) => encode_field::<IssuerAndSerialNumber>(
                Tagging::Natural,
                i,
                &mut out,
            ),
            SignerIdentifier::SubjectKeyIdentifier(k) => encode_field::<OctetString>(
                Tagging::Explicit(0xa0),
                k,
                &mut out,
            ),
        };
        match done {
            Err(e) => Err(e),
            Ok(_) => {
                assert(out@ =~= Self::spec_encode(self@));
                Ok(out)
            },
        }
    }

    fn decode(s: &[u8]) -> (r: Result<Self, Error>) {
        if s.len() == 0 {
            Err(Error::MissingField)
        } else if s[0] == 0x30 {
            match decode_exact::<IssuerAndSerialNumber>(Tagging::Natural, s) {
                Err(e) => Err(e),
                Ok(i) => Ok(SignerIdentifier::IssuerAndSerialNumber(i)),
            }
        } else if s[0] == 0xa0 {
            match decode_exact::<OctetString>(Tagging::Explicit(0xa0), s) {
                Err(e) => Err(e),
                Ok(k) => Ok(SignerIdentifier::SubjectKeyIdentifier(k)),
            }
        } else {
            Err(Error::UnexpectedTag)
        }
    }
}

impl SignerIdentifier {
    /// Compares two identifiers by the octet order of their encodings.
    /// Fails where one of them is not valid, and only there.
    pub fn value_cmp(&self, other: &Self) -> (r: Result<Ordering, Error>)
        ensures
            match r {
                Ok(o) => Self::spec_valid(self@) && Self::spec_valid(other@) && o
                    == octet_ordering(Self::spec_encode(self@), Self::spec_encode(other@)),
                Err(e) => !(Self::spec_valid(self@) && Self::spec_valid(other@)) && e
                    == Error::InvalidValue,
            },
    {
        let a = match self.encode() {
            Err(e) => {
                return Err(e);
            },
            Ok(a) => a,
        };
        let b = match other.encode() {
            Err(e) => {
                return Err(e);
            },
            Ok(b) => b,
        };
        Ok(octet_order_of(a.as_slice(), b.as_slice()))
    }
}

/// The leading tag decides the variant: what starts with `0x30` decodes to
/// an issuer and serial number or not at all, what starts with `0xa0` to a
/// key identifier or not at all, and nothing else decodes.
pub proof fn lemma_signer_identifier_by_tag(s: Seq<u8>)
    requires
        SignerIdentifier::spec_decode(s) is Ok,
    ensures
        s.len() > 0,
        s[0] == 0x30 || s[0] == 0xa0,
        s[0] == 0x30 <==> SignerIdentifier::spec_decode(s)->Ok_0 is IssuerAndSerialNumber,
        s[0] == 0xa0 <==> SignerIdentifier::spec_decode(s)->Ok_0 is SubjectKeyIdentifier,
{
}

/// A key identifier, encoded as a signer identifier, starts with `0xa0` and
/// decodes to that key identifier.
pub proof fn lemma_subject_key_identifier_roundtrip(k: Seq<u8>)
    requires
        SignerIdentifier::spec_valid(SignerIdentifierView::SubjectKeyIdentifier(k)),
    ensures
        SignerIdentifier::spec_encode(SignerIdentifierView::SubjectKeyIdentifier(k))[0] == 0xa0,
        SignerIdentifier::spec_decode(
            SignerIdentifier::spec_encode(SignerIdentifierView::SubjectKeyIdentifier(k)),
        ) == Ok::<SignerIdentifierView, Error>(SignerIdentifierView::SubjectKeyIdentifier(k)),
{
    let v = SignerIdentifierView::SubjectKeyIdentifier(k);
    SignerIdentifier::lemma_roundtrip(v);
    lemma_wrap::<OctetString>(Tagging::Explicit(0xa0), k);
}

/// The content that was signed, or only its kind where the content is
/// kept elsewhere.
///
/// ```text
/// EncapsulatedContentInfo ::= SEQUENCE {
///     eContentType ContentType,
///     eContent [0] EXPLICIT OCTET STRING OPTIONAL }
/// ```
///
/// The element under `[0]` is kept as it stands, with its own tag.
#[derive(Clone, Debug, Eq, PartialEq)]
#[allow(missing_docs)]
pub struct EncapsulatedContentInfo {
    pub econtent_type: ObjectIdentifier,
    pub econtent: Option<Any>,
}

/// What an `EncapsulatedContentInfo` holds.
#[allow(missing_docs)]
pub struct EncapsulatedContentInfoView {
    pub econtent_type: Seq<u8>,
    pub econtent: Option<AnyView>,
}

impl View for EncapsulatedContentInfo {
    type V = EncapsulatedContentInfoView;

    open spec fn view(&self) -> EncapsulatedContentInfoView {
        EncapsulatedContentInfoView {
            econtent_type: self.econtent_type@,
            econtent: option_view(self.econtent),
        }
    }
}

impl EncapsulatedContentInfo {
    /// The content of the SEQUENCE: the fields in their order, nothing for
    /// an absent one.
    pub open spec fn spec_content(v: EncapsulatedContentInfoView) -> Seq<u8> {
        spec_wrap::<ObjectIdentifier>(Tagging::Natural, v.econtent_type) + spec_wrap_optional::<
            Any,
        >(Tagging::Explicit(0xa0), v.econtent)
    }

    /// Reads the fields from the content of the SEQUENCE.
    pub open spec fn spec_decode_content(c: Seq<u8>) -> Result<
        EncapsulatedContentInfoView,
        Error,
    > {
        match spec_field::<ObjectIdentifier>(Tagging::Natural, c) {
            Err(e) => Err(e),
            Ok((econtent_type, c1)) => match spec_optional::<Any>(Tagging::Explicit(0xa0), c1) {
                Err(e) => Err(e),
                Ok((econtent, c2)) => if c2.len() > 0 {
                    Err(Error::TrailingData)
                } else {
                    Ok(EncapsulatedContentInfoView { econtent_type, econtent })
                },
            },
        }
    }
}

impl Codec for EncapsulatedContentInfo {
    open spec fn spec_tag(tag: u8) -> bool {
        tag == 0x30
    }

    open spec fn spec_valid(v: EncapsulatedContentInfoView) -> bool {
        &&& ObjectIdentifier::spec_valid(v.econtent_type)
        &&& spec_wrap_optional_valid::<Any>(Tagging::Explicit(0xa0), v.econtent)
        &&& Self::spec_content(v).len() <= max_length()
    }

    open spec fn spec_canonical(v: EncapsulatedContentInfoView) -> bool {
        true
    }

    open spec fn spec_encode(v: EncapsulatedContentInfoView) -> Seq<u8> {
        spec_tlv(0x30, Self::spec_content(v))
    }

    open spec fn spec_decode(s: Seq<u8>) -> Result<EncapsulatedContentInfoView, Error> {
        match spec_open(s, 0x30) {
            Err(e) => Err(e),
            Ok(content) => Self::spec_decode_content(content),
        }
    }

    proof fn lemma_encode(v: EncapsulatedContentInfoView) {
        lemma_open_tlv(0x30, Self::spec_content(v));
    }

    proof fn lemma_roundtrip(v: EncapsulatedContentInfoView) {
        let o2 = spec_wrap_optional::<Any>(Tagging::Explicit(0xa0), v.econtent);
        lemma_open_tlv(0x30, Self::spec_content(v));
        lemma_field_roundtrip::<ObjectIdentifier>(Tagging::Natural, v.econtent_type, o2);
        lemma_optional_roundtrip::<Any>(Tagging::Explicit(0xa0), v.econtent, Seq::empty());
        assert(o2 + Seq::<u8>::empty() =~= o2);
    }

    proof fn lemma_canonical(s: Seq<u8>) {
        lemma_open_canonical(s, 0x30);
        let c = spec_open(s, 0x30)->Ok_0;
        lemma_field_canonical::<ObjectIdentifier>(Tagging::Natural, c);
        let (econtent_type, c1) = spec_field::<ObjectIdentifier>(Tagging::Natural, c)->Ok_0;
        lemma_optional_canonical::<Any>(Tagging::Explicit(0xa0), c1);
        let (econtent, c2) = spec_optional::<Any>(Tagging::Explicit(0xa0), c1)->Ok_0;
        let v = EncapsulatedContentInfoView { econtent_type, econtent };
        assert(c =~= Self::spec_content(v));
    }

    fn accepts_tag(tag: u8) -> (r: bool) {
        tag == 0x30
    }

    fn encode(&self) -> (r: Result<Vec<u8>, Error>) {
        let mut content: Vec<u8> = Vec::new();
        match encode_field::<ObjectIdentifier>(
            Tagging::Natural,
            &self.econtent_type,
            &mut content,
        ) {
            Err(e) => {
                return Err(e);
            },
            Ok(_) => {},
        }
        match encode_optional::<Any>(Tagging::Explicit(0xa0), &self.econtent, &mut content) {
            Err(e) => {
                return Err(e);
            },
            Ok(_) => {},
        }
        assert(content@ =~= Self::spec_content(self@));
        Ok(encode_tlv(0x30, content.as_slice()))
    }

    fn decode(s: &[u8]) -> (r: Result<Self, Error>) {
        let start = match open(s, 0x30) {
            Err(e) => {
                return Err(e);
            },
            Ok(start) => start,
        };
        let c = slice_subrange(s, start, s.len());
        assert(c@ =~= s@.skip(start as int));
        let (econtent_type, n1) = match decode_field::<ObjectIdentifier>(Tagging::Natural, c) {
            Err(e) => {
                return Err(e);
            },
            Ok(found) => found,
        };
        let c1 = slice_subrange(c, n1, c.len());
        assert(c1@ =~= c@.skip(n1 as int));
        let (econtent, n2) = match decode_optional::<Any>(Tagging::Explicit(0xa0), c1) {
            Err(e) => {
                return Err(e);
            },
            Ok(found) => found,
        };
        if n2 < c1.len() {
            return Err(Error::TrailingData);
        }
        Ok(EncapsulatedContentInfo { econtent_type, econtent })
    }
}

/// What one signer contributes: who signed, with which algorithms, and the
/// signature.
///
/// ```text
/// SignerInfo ::= SEQUENCE {
///     version CMSVersion,
///     sid SignerIdentifier,
///     digestAlgorithm DigestAlgorithmIdentifier,
///     signedAttrs [0] IMPLICIT SignedAttributes OPTIONAL,
///     signatureAlgorithm SignatureAlgorithmIdentifier,
///     signature SignatureValue,
///     unsignedAttrs [1] IMPLICIT UnsignedAttributes OPTIONAL }
/// ```
///
/// Decoding does not hold `version` against `sid`: `check_version` does.
#[derive(Clone, Debug, Eq, PartialEq)]
#[allow(missing_docs)]
pub struct SignerInfo {
    pub version: CmsVersion,
    pub sid: SignerIdentifier,
    pub digest_alg: AlgorithmIdentifier,
    pub signed_attrs: Option<SignedAttributes>,
    pub signature_algorithm: AlgorithmIdentifier,
    pub signature: SignatureValue,
    pub unsigned_attrs: Option<UnsignedAttributes>,
}

/// What a `SignerInfo` holds.
#[allow(missing_docs)]
pub struct SignerInfoView {
    pub version: CmsVersion,
    pub sid: SignerIdentifierView,
    pub digest_alg: Seq<u8>,
    pub signed_attrs: Option<Seq<u8>>,
    pub signature_algorithm: Seq<u8>,
    pub signature: Seq<u8>,
    pub unsigned_attrs: Option<Seq<u8>>,
}

impl View for SignerInfo {
    type V = SignerInfoView;

    open spec fn view(&self) -> SignerInfoView {
        SignerInfoView {
            version: self.version,
            sid: self.sid@,
            digest_alg: self.digest_alg@,
            signed_attrs: option_view(self.signed_attrs),
            signature_algorithm: self.signature_algorithm@,
            signature: self.signature@,
            unsigned_attrs: option_view(self.unsigned_attrs),
        }
    }
}

/// How `signed_attrs` is tagged: `[0] IMPLICIT`, constructed.
pub open spec fn signed_attrs_tagging() -> Tagging {
    Tagging::Implicit(0xa0, 0x31)
}

/// How `unsigned_attrs` is tagged: `[1] IMPLICIT`, constructed.
pub open spec fn unsigned_attrs_tagging() -> Tagging {
    Tagging::Implicit(0xa1, 0x31)
}

impl SignerInfo {
    /// The content of the SEQUENCE: the fields in their order, nothing for
    /// an absent one.
    pub open spec fn spec_content(v: SignerInfoView) -> Seq<u8> {
        spec_wrap::<CmsVersion>(Tagging::Natural, v.version) + (spec_wrap::<SignerIdentifier>(
            Tagging::Natural,
            v.sid,
        ) + (spec_wrap::<AlgorithmIdentifier>(Tagging::Natural, v.digest_alg)
            + (spec_wrap_optional::<Attributes>(signed_attrs_tagging(), v.signed_attrs)
            + (spec_wrap::<AlgorithmIdentifier>(Tagging::Natural, v.signature_algorithm)
            + (spec_wrap::<OctetString>(Tagging::Natural, v.signature) + spec_wrap_optional::<
            Attributes,
        >(unsigned_attrs_tagging(), v.unsigned_attrs))))))
    }

    /// Reads the fields from the content of the SEQUENCE.
    pub open spec fn spec_decode_content(c: Seq<u8>) -> Result<SignerInfoView, Error> {
        match spec_field::<CmsVersion>(Tagging::Natural, c) {
            Err(e) => Err(e),
            Ok((version, c1)) => match spec_choice_field::<SignerIdentifier>(c1) {
                Err(e) => Err(e),
                Ok((sid, c2)) => match spec_field::<AlgorithmIdentifier>(Tagging::Natural, c2) {
                    Err(e) => Err(e),
                    Ok((digest_alg, c3)) => match spec_optional::<Attributes>(
                        signed_attrs_tagging(),
                        c3,
                    ) {
                        Err(e) => Err(e),
                        Ok((signed_attrs, c4)) => match spec_field::<AlgorithmIdentifier>(
                            Tagging::Natural,
                            c4,
                        ) {
                            Err(e) => Err(e),
                            Ok((signature_algorithm, c5)) => match spec_field::<OctetString>(
                                Tagging::Natural,
                                c5,
                            ) {
                                Err(e) => Err(e),
                                Ok((signature, c6)) => match spec_optional::<Attributes>(
                                    unsigned_attrs_tagging(),
                                    c6,
                                ) {
                                    Err(e) => Err(e),
                                    Ok((unsigned_attrs, c7)) => if c7.len() > 0 {
                                        Err(Error::TrailingData)
                                    } else {
                                        Ok(
                                            SignerInfoView {
                                                version,
                                                sid,
                                                digest_alg,
                                                signed_attrs,
                                                signature_algorithm,
                                                signature,
                                                unsigned_attrs,
                                            },
                                        )
                                    },
                                },
                            },
                        },
                    },
                },
            },
        }
    }

    /// The version that goes with the signer identifier: 3 with a key
    /// identifier, 1 with an issuer and serial number.
    pub open spec fn spec_expected_version(v: SignerInfoView) -> CmsVersion {
        if v.sid is SubjectKeyIdentifier {
            CmsVersion::V3
        } else {
            CmsVersion::V1
        }
    }

    /// The version that goes with the signer identifier.
    pub fn expected_version(&self) -> (r: CmsVersion)
        ensures
            r == Self::spec_expected_version(self@),
    {
        match self.sid {
            SignerIdentifier::SubjectKeyIdentifier(_) => CmsVersion::V3,
            SignerIdentifier::IssuerAndSerialNumber(_) => CmsVersion::V1,
        }
    }

    /// Holds `version` against the signer identifier.
    pub fn check_version(&self) -> (r: Result<(), Error>)
        ensures
            r is Ok <==> self@.version == Self::spec_expected_version(self@),
            r is Err ==> r == Err::<(), Error>(Error::InconsistentVersion),
    {
        if self.version.number() == self.expected_version().number() {
            Ok(())
        } else {
            Err(Error::InconsistentVersion)
        }
    }
}

impl Codec for SignerInfo {
    open spec fn spec_tag(tag: u8) -> bool {
        tag == 0x30
    }

    open spec fn spec_valid(v: SignerInfoView) -> bool {
        &&& SignerIdentifier::spec_valid(v.sid)
        &&& AlgorithmIdentifier::spec_valid(v.digest_alg)
        &&& spec_wrap_optional_valid::<Attributes>(signed_attrs_tagging(), v.signed_attrs)
        &&& AlgorithmIdentifier::spec_valid(v.signature_algorithm)
        &&& OctetString::spec_valid(v.signature)
        &&& spec_wrap_optional_valid::<Attributes>(unsigned_attrs_tagging(), v.unsigned_attrs)
        &&& Self::spec_content(v).len() <= max_length()
    }

    open spec fn spec_canonical(v: SignerInfoView) -> bool {
        true
    }

    open spec fn spec_encode(v: SignerInfoView) -> Seq<u8> {
        spec_tlv(0x30, Self::spec_content(v))
    }

    open spec fn spec_decode(s: Seq<u8>) -> Result<SignerInfoView, Error> {
        match spec_open(s, 0x30) {
            Err(e) => Err(e),
            Ok(content) => Self::spec_decode_content(content),
        }
    }

    proof fn lemma_encode(v: SignerInfoView) {
        lemma_open_tlv(0x30, Self::spec_content(v));
    }

    proof fn lemma_roundtrip(v: SignerInfoView) {
        let o7 = spec_wrap_optional::<Attributes>(unsigned_attrs_tagging(), v.unsigned_attrs);
        let w6 = spec_wrap::<OctetString>(Tagging::Natural, v.signature);
        let w5 = spec_wrap::<AlgorithmIdentifier>(Tagging::Natural, v.signature_algorithm);
        let o4 = spec_wrap_optional::<Attributes>(signed_attrs_tagging(), v.signed_attrs);
        let w3 = spec_wrap::<AlgorithmIdentifier>(Tagging::Natural, v.digest_alg);
        let w2 = spec_wrap::<SignerIdentifier>(Tagging::Natural, v.sid);
        let t6 = w6 + o7;
        let t5 = w5 + t6;
        let t4 = o4 + t5;
        let t3 = w3 + t4;
        let t2 = w2 + t3;
        let w1 = spec_wrap::<CmsVersion>(Tagging::Natural, v.version);
        let c = w1 + t2;
        assert(c == Self::spec_content(v));
        lemma_open_tlv(0x30, c);
        lemma_field_roundtrip::<CmsVersion>(Tagging::Natural, v.version, t2);
        assert(spec_field::<CmsVersion>(Tagging::Natural, c) == Ok::<(CmsVersion, Seq<u8>), Error>(
            (v.version, t2),
        ));
        lemma_field_roundtrip::<SignerIdentifier>(Tagging::Natural, v.sid, t3);
        lemma_choice_field::<SignerIdentifier>(t2);
        assert(spec_choice_field::<SignerIdentifier>(t2) == Ok::<
            (SignerIdentifierView, Seq<u8>),
            Error,
        >((v.sid, t3)));
        lemma_field_roundtrip::<AlgorithmIdentifier>(Tagging::Natural, v.digest_alg, t4);
        assert(spec_field::<AlgorithmIdentifier>(Tagging::Natural, t3) == Ok::<
            (Seq<u8>, Seq<u8>),
            Error,
        >((v.digest_alg, t4)));
        lemma_wrap::<AlgorithmIdentifier>(Tagging::Natural, v.signature_algorithm);
        assert(t5[0] == w5[0]);
        lemma_optional_roundtrip::<Attributes>(signed_attrs_tagging(), v.signed_attrs, t5);
        assert(spec_optional::<Attributes>(signed_attrs_tagging(), t4) == Ok::<
            (Option<Seq<u8>>, Seq<u8>),
            Error,
        >((v.signed_attrs, t5)));
        lemma_field_roundtrip::<AlgorithmIdentifier>(
            Tagging::Natural,
            v.signature_algorithm,
            t6,
        );
        assert(spec_field::<AlgorithmIdentifier>(Tagging::Natural, t5) == Ok::<
            (Seq<u8>, Seq<u8>),
            Error,
        >((v.signature_algorithm, t6)));
        lemma_field_roundtrip::<OctetString>(Tagging::Natural, v.signature, o7);
        assert(spec_field::<OctetString>(Tagging::Natural, t6) == Ok::<
            (Seq<u8>, Seq<u8>),
            Error,
        >((v.signature, o7)));
        lemma_optional_roundtrip::<Attributes>(
            unsigned_attrs_tagging(),
            v.unsigned_attrs,
            Seq::empty(),
        );
        assert(o7 + Seq::<u8>::empty() =~= o7);
        assert(spec_optional::<Attributes>(unsigned_attrs_tagging(), o7) == Ok::<
            (Option<Seq<u8>>, Seq<u8>),
            Error,
        >((v.unsigned_attrs, Seq::empty())));
        assert(Self::spec_decode_content(c) == Ok::<SignerInfoView, Error>(v));
    }

    proof fn lemma_canonical(s: Seq<u8>) {
        lemma_open_canonical(s, 0x30);
        let c = spec_open(s, 0x30)->Ok_0;
        lemma_field_canonical::<CmsVersion>(Tagging::Natural, c);
        let (version, c1) = spec_field::<CmsVersion>(Tagging::Natural, c)->Ok_0;
        lemma_choice_field::<SignerIdentifier>(c1);
        lemma_field_canonical::<SignerIdentifier>(Tagging::Natural, c1);
        let (sid, c2) = spec_choice_field::<SignerIdentifier>(c1)->Ok_0;
        lemma_field_canonical::<AlgorithmIdentifier>(Tagging::Natural, c2);
        let (digest_alg, c3) = spec_field::<AlgorithmIdentifier>(Tagging::Natural, c2)->Ok_0;
        lemma_optional_canonical::<Attributes>(signed_attrs_tagging(), c3);
        let (signed_attrs, c4) = spec_optional::<Attributes>(signed_attrs_tagging(), c3)->Ok_0;
        lemma_field_canonical::<AlgorithmIdentifier>(Tagging::Natural, c4);
        let (signature_algorithm, c5) = spec_field::<AlgorithmIdentifier>(
            Tagging::Natural,
            c4,
        )->Ok_0;
        lemma_field_canonical::<OctetString>(Tagging::Natural, c5);
        let (signature, c6) = spec_field::<OctetString>(Tagging::Natural, c5)->Ok_0;
        lemma_optional_canonical::<Attributes>(unsigned_attrs_tagging(), c6);
        let (unsigned_attrs, c7) = spec_optional::<Attributes>(
            unsigned_attrs_tagging(),
            c6,
        )->Ok_0;
        let v = SignerInfoView {
            version,
            sid,
            digest_alg,
            signed_attrs,
            signature_algorithm,
            signature,
            unsigned_attrs,
        };
        assert(c7 =~= Seq::<u8>::empty());
        assert(c6 =~= spec_wrap_optional::<Attributes>(unsigned_attrs_tagging(), unsigned_attrs));
        assert(c =~= Self::spec_content(v));
    }

    fn accepts_tag(tag: u8) -> (r: bool) {
        tag == 0x30
    }

    fn encode(&self) -> (r: Result<Vec<u8>, Error>) {
        let mut content: Vec<u8> = Vec::new();
        match encode_field::<CmsVersion>(Tagging::Natural, &self.version, &mut content) {
            Err(e) => {
                return Err(e);
            },
            Ok(_) => {},
        }
        match encode_field::<SignerIdentifier>(Tagging::Natural, &self.sid, &mut content) {
            Err(e) => {
                return Err(e);
            },
            Ok(_) => {},
        }
        match encode_field::<AlgorithmIdentifier>(
            Tagging::Natural,
            &self.digest_alg,
            &mut content,
        ) {
            Err(e) => {
                return Err(e);
            },
            Ok(_) => {},
        }
        match encode_optional::<Attributes>(
            Tagging::Implicit(0xa0, 0x31),
            &self.signed_attrs,
            &mut content,
        ) {
            Err(e) => {
                return Err(e);
            },
            Ok(_) => {},
        }
        match encode_field::<AlgorithmIdentifier>(
            Tagging::Natural,
            &self.signature_algorithm,
            &mut content,
        ) {
            Err(e) => {
                return Err(e);
            },
            Ok(_) => {},
        }
        match encode_field::<OctetString>(Tagging::Natural, &self.signature, &mut content) {
            Err(e) => {
                return Err(e);
            },
            Ok(_) => {},
        }
        match encode_optional::<Attributes>(
            Tagging::Implicit(0xa1, 0x31),
            &self.unsigned_attrs,
            &mut content,
        ) {
            Err(e) => {
                return Err(e);
            },
            Ok(_) => {},
        }
        proof {
            let v = self@;
            lemma_join7(
                spec_wrap::<CmsVersion>(Tagging::Natural, v.version),
                spec_wrap::<SignerIdentifier>(Tagging::Natural, v.sid),
                spec_wrap::<AlgorithmIdentifier>(Tagging::Natural, v.digest_alg),
                spec_wrap_optional::<Attributes>(signed_attrs_tagging(), v.signed_attrs),
                spec_wrap::<AlgorithmIdentifier>(Tagging::Natural, v.signature_algorithm),
                spec_wrap::<OctetString>(Tagging::Natural, v.signature),
                spec_wrap_optional::<Attributes>(unsigned_attrs_tagging(), v.unsigned_attrs),
            );
        }
        Ok(encode_tlv(0x30, content.as_slice()))
    }

    fn decode(s: &[u8]) -> (r: Result<Self, Error>) {
        let start = match open(s, 0x30) {
            Err(e) => {
                return Err(e);
            },
            Ok(start) => start,
        };
        let c = slice_subrange(s, start, s.len());
        assert(c@ =~= s@.skip(start as int));
        let (version, n1) = match decode_field::<CmsVersion>(Tagging::Natural, c) {
            Err(e) => {
                return Err(e);
            },
            Ok(found) => found,
        };
        let c1 = slice_subrange(c, n1, c.len());
        assert(c1@ =~= c@.skip(n1 as int));
        let (sid, n2) = match decode_choice_field::<SignerIdentifier>(c1) {
            Err(e) => {
                return Err(e);
            },
            Ok(found) => found,
        };
        let c2 = slice_subrange(c1, n2, c1.len());
        assert(c2@ =~= c1@.skip(n2 as int));
        let (digest_alg, n3) = match decode_field::<AlgorithmIdentifier>(Tagging::Natural, c2) {
            Err(e) => {
                return Err(e);
            },
            Ok(found) => found,
        };
        let c3 = slice_subrange(c2, n3, c2.len());
        assert(c3@ =~= c2@.skip(n3 as int));
        let (signed_attrs, n4) = match decode_optional::<Attributes>(
            Tagging::Implicit(0xa0, 0x31),
            c3,
        ) {
            Err(e) => {
                return Err(e);
            },
            Ok(found) => found,
        };
        let c4 = slice_subrange(c3, n4, c3.len());
        assert(c4@ =~= c3@.skip(n4 as int));
        let (signature_algorithm, n5) = match decode_field::<AlgorithmIdentifier>(
            Tagging::Natural,
            c4,
        ) {
            Err(e) => {
                return Err(e);
            },
            Ok(found) => found,
        };
        let c5 = slice_subrange(c4, n5, c4.len());
        assert(c5@ =~= c4@.skip(n5 as int));
        let (signature, n6) = match decode_field::<OctetString>(Tagging::Natural, c5) {
            Err(e) => {
                return Err(e);
            },
            Ok(found) => found,
        };
        let c6 = slice_subrange(c5, n6, c5.len());
        assert(c6@ =~= c5@.skip(n6 as int));
        let (unsigned_attrs, n7) = match decode_optional::<Attributes>(
            Tagging::Implicit(0xa1, 0x31),
            c6,
        ) {
            Err(e) => {
                return Err(e);
            },
            Ok(found) => found,
        };
        if n7 < c6.len() {
            return Err(Error::TrailingData);
        }
        Ok(
            SignerInfo {
                version,
                sid,
                digest_alg,
                signed_attrs,
                signature_algorithm,
                signature,
                unsigned_attrs,
            },
        )
    }
}

/// The signers of a `SignedData`.
///
/// ```text
/// SignerInfos ::= SET OF SignerInfo
/// ```
#[derive(Clone, Eq, PartialEq, Debug)]
pub struct SignerInfos(pub SetOf<SignerInfo>);

impl View for SignerInfos {
    type V = Seq<SignerInfoView>;

    open spec fn view(&self) -> Seq<SignerInfoView> {
        self.0@
    }
}

impl Codec for SignerInfos {
    open spec fn spec_tag(tag: u8) -> bool {
        SetOf::<SignerInfo>::spec_tag(tag)
    }

    open spec fn spec_valid(v: Seq<SignerInfoView>) -> bool {
        SetOf::<SignerInfo>::spec_valid(v)
    }

    open spec fn spec_canonical(v: Seq<SignerInfoView>) -> bool {
        SetOf::<SignerInfo>::spec_canonical(v)
    }

    open spec fn spec_encode(v: Seq<SignerInfoView>) -> Seq<u8> {
        SetOf::<SignerInfo>::spec_encode(v)
    }

    open spec fn spec_decode(s: Seq<u8>) -> Result<Seq<SignerInfoView>, Error> {
        SetOf::<SignerInfo>::spec_decode(s)
    }

    proof fn lemma_encode(v: Seq<SignerInfoView>) {
        SetOf::<SignerInfo>::lemma_encode(v);
    }

    proof fn lemma_roundtrip(v: Seq<SignerInfoView>) {
        SetOf::<SignerInfo>::lemma_roundtrip(v);
    }

    proof fn lemma_canonical(s: Seq<u8>) {
        SetOf::<SignerInfo>::lemma_canonical(s);
    }

    fn accepts_tag(tag: u8) -> (r: bool) {
        SetOf::<SignerInfo>::accepts_tag(tag)
    }

    fn encode(&self) -> (r: Result<Vec<u8>, Error>) {
        self.0.encode()
    }

    fn decode(s: &[u8]) -> (r: Result<Self, Error>) {
        match SetOf::<SignerInfo>::decode(s) {
            Err(e) => Err(e),
            Ok(set) => Ok(SignerInfos(set)),
        }
    }
}

/// The certificates that accompany a `SignedData`.
///
/// ```text
/// CertificateSet ::= SET OF CertificateChoices
/// ```
#[derive(Clone, Eq, PartialEq, Debug)]
pub struct CertificateSet(pub SetOf<CertificateChoices>);

impl View for CertificateSet {
    type V = Seq<CertificateChoicesView>;

    open spec fn view(&self) -> Seq<CertificateChoicesView> {
        self.0@
    }
}

impl Codec for CertificateSet {
    open spec fn spec_tag(tag: u8) -> bool {
        SetOf::<CertificateChoices>::spec_tag(tag)
    }

    open spec fn spec_valid(v: Seq<CertificateChoicesView>) -> bool {
        SetOf::<CertificateChoices>::spec_valid(v)
    }

    open spec fn spec_canonical(v: Seq<CertificateChoicesView>) -> bool {
        SetOf::<CertificateChoices>::spec_canonical(v)
    }

    open spec fn spec_encode(v: Seq<CertificateChoicesView>) -> Seq<u8> {
        SetOf::<CertificateChoices>::spec_encode(v)
    }

    open spec fn spec_decode(s: Seq<u8>) -> Result<Seq<CertificateChoicesView>, Error> {
        SetOf::<CertificateChoices>::spec_decode(s)
    }

    proof fn lemma_encode(v: Seq<CertificateChoicesView>) {
        SetOf::<CertificateChoices>::lemma_encode(v);
    }

    proof fn lemma_roundtrip(v: Seq<CertificateChoicesView>) {
        SetOf::<CertificateChoices>::lemma_roundtrip(v);
    }

    proof fn lemma_canonical(s: Seq<u8>) {
        SetOf::<CertificateChoices>::lemma_canonical(s);
    }

    fn accepts_tag(tag: u8) -> (r: bool) {
        SetOf::<CertificateChoices>::accepts_tag(tag)
    }

    fn encode(&self) -> (r: Result<Vec<u8>, Error>) {
        self.0.encode()
    }

    fn decode(s: &[u8]) -> (r: Result<Self, Error>) {
        match SetOf::<CertificateChoices>::decode(s) {
            Err(e) => Err(e),
            Ok(set) => Ok(CertificateSet(set)),
        }
    }
}

/// Content that is signed, with the certificates and revocation
/// information that help to check the signatures, and one `SignerInfo` for
/// each signer.
///
/// ```text
/// SignedData ::= SEQUENCE {
///     version CMSVersion,
///     digestAlgorithms SET OF DigestAlgorithmIdentifier,
///     encapContentInfo EncapsulatedContentInfo,
///     certificates [0] IMPLICIT CertificateSet OPTIONAL,
///     crls [1] IMPLICIT RevocationInfoChoices OPTIONAL,
///     signerInfos SignerInfos }
/// ```
///
/// Decoding does not hold `version` against the other fields:
/// `check_version` does.
#[derive(Clone, Debug, Eq, PartialEq)]
#[allow(missing_docs)]
pub struct SignedData {
    pub version: CmsVersion,
    pub digest_algorithms: DigestAlgorithmIdentifiers,
    pub encap_content_info: EncapsulatedContentInfo,
    pub certificates: Option<CertificateSet>,
    pub crls: Option<RevocationInfoChoices>,
    pub signer_infos: SignerInfos,
}

/// What a `SignedData` holds.
#[allow(missing_docs)]
pub struct SignedDataView {
    pub version: CmsVersion,
    pub digest_algorithms: Seq<Seq<u8>>,
    pub encap_content_info: EncapsulatedContentInfoView,
    pub certificates: Option<Seq<CertificateChoicesView>>,
    pub crls: Option<Seq<RevocationInfoChoiceView>>,
    pub signer_infos: Seq<SignerInfoView>,
}

impl View for SignedData {
    type V = SignedDataView;

    open spec fn view(&self) -> SignedDataView {
        SignedDataView {
            version: self.version,
            digest_algorithms: self.digest_algorithms@,
            encap_content_info: self.encap_content_info@,
            certificates: option_view(self.certificates),
            crls: option_view(self.crls),
            signer_infos: self.signer_infos@,
        }
    }
}

/// How `certificates` is tagged: `[0] IMPLICIT`.
pub open spec fn certificates_tagging() -> Tagging {
    Tagging::Implicit(0xa0, 0x31)
}

/// How `crls` is tagged: `[1] IMPLICIT`.
pub open spec fn crls_tagging() -> Tagging {
    Tagging::Implicit(0xa1, 0x31)
}

impl SignedData {
    /// The content of the SEQUENCE: the fields in their order, nothing for
    /// an absent one.
    pub open spec fn spec_content(v: SignedDataView) -> Seq<u8> {
        spec_wrap::<CmsVersion>(Tagging::Natural, v.version) + (spec_wrap::<
            DigestAlgorithmIdentifiers,
        >(Tagging::Natural, v.digest_algorithms) + (spec_wrap::<EncapsulatedContentInfo>(
            Tagging::Natural,
            v.encap_content_info,
        ) + (spec_wrap_optional::<CertificateSet>(certificates_tagging(), v.certificates)
            + (spec_wrap_optional::<RevocationInfoChoices>(crls_tagging(), v.crls) + spec_wrap::<
            SignerInfos,
        >(Tagging::Natural, v.signer_infos)))))
    }

    /// Reads the fields from the content of the SEQUENCE.
    pub open spec fn spec_decode_content(c: Seq<u8>) -> Result<SignedDataView, Error> {
        match spec_field::<CmsVersion>(Tagging::Natural, c) {
            Err(e) => Err(e),
            Ok((version, c1)) => match spec_field::<DigestAlgorithmIdentifiers>(
                Tagging::Natural,
                c1,
            ) {
                Err(e) => Err(e),
                Ok((digest_algorithms, c2)) => match spec_field::<EncapsulatedContentInfo>(
                    Tagging::Natural,
                    c2,
                ) {
                    Err(e) => Err(e),
                    Ok((encap_content_info, c3)) => match spec_optional::<CertificateSet>(
                        certificates_tagging(),
                        c3,
                    ) {
                        Err(e) => Err(e),
                        Ok((certificates, c4)) => match spec_optional::<RevocationInfoChoices>(
                            crls_tagging(),
                            c4,
                        ) {
                            Err(e) => Err(e),
                            Ok((crls, c5)) => match spec_field::<SignerInfos>(
                                Tagging::Natural,
                                c5,
                            ) {
                                Err(e) => Err(e),
                                Ok((signer_infos, c6)) => if c6.len() > 0 {
                                    Err(Error::TrailingData)
                                } else {
                                    Ok(
                                        SignedDataView {
                                            version,
                                            digest_algorithms,
                                            encap_content_info,
                                            certificates,
                                            crls,
                                            signer_infos,
                                        },
                                    )
                                },
                            },
                        },
                    },
                },
            },
        }
    }
}

impl Codec for SignedData {
    open spec fn spec_tag(tag: u8) -> bool {
        tag == 0x30
    }

    open spec fn spec_valid(v: SignedDataView) -> bool {
        &&& DigestAlgorithmIdentifiers::spec_valid(v.digest_algorithms)
        &&& EncapsulatedContentInfo::spec_valid(v.encap_content_info)
        &&& spec_wrap_optional_valid::<CertificateSet>(certificates_tagging(), v.certificates)
        &&& spec_wrap_optional_valid::<RevocationInfoChoices>(crls_tagging(), v.crls)
        &&& SignerInfos::spec_valid(v.signer_infos)
        &&& Self::spec_content(v).len() <= max_length()
    }

    open spec fn spec_canonical(v: SignedDataView) -> bool {
        &&& DigestAlgorithmIdentifiers::spec_canonical(v.digest_algorithms)
        &&& spec_optional_canonical::<CertificateSet>(v.certificates)
        &&& spec_optional_canonical::<RevocationInfoChoices>(v.crls)
        &&& SignerInfos::spec_canonical(v.signer_infos)
    }

    open spec fn spec_encode(v: SignedDataView) -> Seq<u8> {
        spec_tlv(0x30, Self::spec_content(v))
    }

    open spec fn spec_decode(s: Seq<u8>) -> Result<SignedDataView, Error> {
        match spec_open(s, 0x30) {
            Err(e) => Err(e),
            Ok(content) => Self::spec_decode_content(content),
        }
    }

    proof fn lemma_encode(v: SignedDataView) {
        lemma_open_tlv(0x30, Self::spec_content(v));
    }

    proof fn lemma_roundtrip(v: SignedDataView) {
        let w6 = spec_wrap::<SignerInfos>(Tagging::Natural, v.signer_infos);
        let o5 = spec_wrap_optional::<RevocationInfoChoices>(crls_tagging(), v.crls);
        let o4 = spec_wrap_optional::<CertificateSet>(certificates_tagging(), v.certificates);
        let w3 = spec_wrap::<EncapsulatedContentInfo>(Tagging::Natural, v.encap_content_info);
        let w2 = spec_wrap::<DigestAlgorithmIdentifiers>(Tagging::Natural, v.digest_algorithms);
        let w1 = spec_wrap::<CmsVersion>(Tagging::Natural, v.version);
        let t5 = o5 + w6;
        let t4 = o4 + t5;
        let t3 = w3 + t4;
        let t2 = w2 + t3;
        let c = w1 + t2;
        assert(c == Self::spec_content(v));
        lemma_open_tlv(0x30, c);
        lemma_field_roundtrip::<CmsVersion>(Tagging::Natural, v.version, t2);
        let r1 = spec_field::<CmsVersion>(Tagging::Natural, c);
        assert(r1 == Ok::<(CmsVersion, Seq<u8>), Error>((v.version, t2)));
        lemma_field_roundtrip::<DigestAlgorithmIdentifiers>(
            Tagging::Natural,
            v.digest_algorithms,
            t3,
        );
        let r2 = spec_field::<DigestAlgorithmIdentifiers>(Tagging::Natural, t2);
        assert(r2 is Ok && r2->Ok_0.1 == t3);
        lemma_field_roundtrip::<EncapsulatedContentInfo>(
            Tagging::Natural,
            v.encap_content_info,
            t4,
        );
        let r3 = spec_field::<EncapsulatedContentInfo>(Tagging::Natural, t3);
        assert(r3 == Ok::<(EncapsulatedContentInfoView, Seq<u8>), Error>(
            (v.encap_content_info, t4),
        ));
        lemma_wrap::<SignerInfos>(Tagging::Natural, v.signer_infos);
        lemma_wrap_optional::<RevocationInfoChoices>(crls_tagging(), v.crls);
        assert(t5.len() > 0 && (t5[0] == 0xa1 || t5[0] == 0x31)) by {
            if v.crls is Some {
                assert(t5[0] == o5[0]);
            } else {
                assert(t5 =~= w6);
            }
        }
        lemma_optional_roundtrip::<CertificateSet>(certificates_tagging(), v.certificates, t5);
        let r4 = spec_optional::<CertificateSet>(certificates_tagging(), t4);
        assert(r4 is Ok && r4->Ok_0.1 == t5);
        lemma_optional_roundtrip::<RevocationInfoChoices>(crls_tagging(), v.crls, w6);
        let r5 = spec_optional::<RevocationInfoChoices>(crls_tagging(), t5);
        assert(r5 is Ok && r5->Ok_0.1 == w6);
        lemma_field_roundtrip::<SignerInfos>(Tagging::Natural, v.signer_infos, Seq::empty());
        assert(w6 + Seq::<u8>::empty() =~= w6);
        let r6 = spec_field::<SignerInfos>(Tagging::Natural, w6);
        assert(r6 is Ok && r6->Ok_0.1 == Seq::<u8>::empty());
        assert(Self::spec_decode_content(c) is Ok);
        if Self::spec_canonical(v) {
            assert(r2->Ok_0.0 == v.digest_algorithms);
            assert(r4->Ok_0.0 == v.certificates);
            assert(r5->Ok_0.0 == v.crls);
            assert(r6->Ok_0.0 == v.signer_infos);
            assert(Self::spec_decode_content(c) == Ok::<SignedDataView, Error>(v));
        }
    }

    proof fn lemma_canonical(s: Seq<u8>) {
        lemma_open_canonical(s, 0x30);
        let c = spec_open(s, 0x30)->Ok_0;
        lemma_field_canonical::<CmsVersion>(Tagging::Natural, c);
        let (version, c1) = spec_field::<CmsVersion>(Tagging::Natural, c)->Ok_0;
        lemma_field_canonical::<DigestAlgorithmIdentifiers>(Tagging::Natural, c1);
        let (digest_algorithms, c2) = spec_field::<DigestAlgorithmIdentifiers>(
            Tagging::Natural,
            c1,
        )->Ok_0;
        lemma_field_canonical::<EncapsulatedContentInfo>(Tagging::Natural, c2);
        let (encap_content_info, c3) = spec_field::<EncapsulatedContentInfo>(
            Tagging::Natural,
            c2,
        )->Ok_0;
        lemma_optional_canonical::<CertificateSet>(certificates_tagging(), c3);
        let (certificates, c4) = spec_optional::<CertificateSet>(
            certificates_tagging(),
            c3,
        )->Ok_0;
        lemma_optional_canonical::<RevocationInfoChoices>(crls_tagging(), c4);
        let (crls, c5) = spec_optional::<RevocationInfoChoices>(crls_tagging(), c4)->Ok_0;
        lemma_field_canonical::<SignerInfos>(Tagging::Natural, c5);
        let (signer_infos, c6) = spec_field::<SignerInfos>(Tagging::Natural, c5)->Ok_0;
        let v = SignedDataView {
            version,
            digest_algorithms,
            encap_content_info,
            certificates,
            crls,
            signer_infos,
        };
        assert(c6 =~= Seq::<u8>::empty());
        assert(c5 =~= spec_wrap::<SignerInfos>(Tagging::Natural, signer_infos));
        assert(c =~= Self::spec_content(v));
    }

    fn accepts_tag(tag: u8) -> (r: bool) {
        tag == 0x30
    }

    fn encode(&self) -> (r: Result<Vec<u8>, Error>) {
        let mut content: Vec<u8> = Vec::new();
        match encode_field::<CmsVersion>(Tagging::Natural, &self.version, &mut content) {
            Err(e) => {
                return Err(e);
            },
            Ok(_) => {},
        }
        match encode_field::<DigestAlgorithmIdentifiers>(
            Tagging::Natural,
            &self.digest_algorithms,
            &mut content,
        ) {
            Err(e) => {
                return Err(e);
            },
            Ok(_) => {},
        }
        match encode_field::<EncapsulatedContentInfo>(
            Tagging::Natural,
            &self.encap_content_info,
            &mut content,
        ) {
            Err(e) => {
                return Err(e);
            },
            Ok(_) => {},
        }
        match encode_optional::<CertificateSet>(
            Tagging::Implicit(0xa0, 0x31),
            &self.certificates,
            &mut content,
        ) {
            Err(e) => {
                return Err(e);
            },
            Ok(_) => {},
        }
        match encode_optional::<RevocationInfoChoices>(
            Tagging::Implicit(0xa1, 0x31),
            &self.crls,
            &mut content,
        ) {
            Err(e) => {
                return Err(e);
            },
            Ok(_) => {},
        }
        match encode_field::<SignerInfos>(Tagging::Natural, &self.signer_infos, &mut content) {
            Err(e) => {
                return Err(e);
            },
            Ok(_) => {},
        }
        proof {
            let v = self@;
            lemma_join6(
                spec_wrap::<CmsVersion>(Tagging::Natural, v.version),
                spec_wrap::<DigestAlgorithmIdentifiers>(Tagging::Natural, v.digest_algorithms),
                spec_wrap::<EncapsulatedContentInfo>(Tagging::Natural, v.encap_content_info),
                spec_wrap_optional::<CertificateSet>(certificates_tagging(), v.certificates),
                spec_wrap_optional::<RevocationInfoChoices>(crls_tagging(), v.crls),
                spec_wrap::<SignerInfos>(Tagging::Natural, v.signer_infos),
            );
        }
        Ok(encode_tlv(0x30, content.as_slice()))
    }

    fn decode(s: &[u8]) -> (r: Result<Self, Error>) {
        let start = match open(s, 0x30) {
            Err(e) => {
                return Err(e);
            },
            Ok(start) => start,
        };
        let c = slice_subrange(s, start, s.len());
        assert(c@ =~= s@.skip(start as int));
        let (version, n1) = match decode_field::<CmsVersion>(Tagging::Natural, c) {
            Err(e) => {
                return Err(e);
            },
            Ok(found) => found,
        };
        let c1 = slice_subrange(c, n1, c.len());
        assert(c1@ =~= c@.skip(n1 as int));
        let (digest_algorithms, n2) = match decode_field::<DigestAlgorithmIdentifiers>(
            Tagging::Natural,
            c1,
        ) {
            Err(e) => {
                return Err(e);
            },
            Ok(found) => found,
        };
        let c2 = slice_subrange(c1, n2, c1.len());
        assert(c2@ =~= c1@.skip(n2 as int));
        let (encap_content_info, n3) = match decode_field::<EncapsulatedContentInfo>(
            Tagging::Natural,
            c2,
        ) {
            Err(e) => {
                return Err(e);
            },
            Ok(found) => found,
        };
        let c3 = slice_subrange(c2, n3, c2.len());
        assert(c3@ =~= c2@.skip(n3 as int));
        let (certificates, n4) = match decode_optional::<CertificateSet>(
            Tagging::Implicit(0xa0, 0x31),
            c3,
        ) {
            Err(e) => {
                return Err(e);
            },
            Ok(found) => found,
        };
        let c4 = slice_subrange(c3, n4, c3.len());
        assert(c4@ =~= c3@.skip(n4 as int));
        let (crls, n5) = match decode_optional::<RevocationInfoChoices>(
            Tagging::Implicit(0xa1, 0x31),
            c4,
        ) {
            Err(e) => {
                return Err(e);
            },
            Ok(found) => found,
        };
        let c5 = slice_subrange(c4, n5, c4.len());
        assert(c5@ =~= c4@.skip(n5 as int));
        let (signer_infos, n6) = match decode_field::<SignerInfos>(Tagging::Natural, c5) {
            Err(e) => {
                return Err(e);
            },
            Ok(found) => found,
        };
        if n6 < c5.len() {
            return Err(Error::TrailingData);
        }
        Ok(
            SignedData {
                version,
                digest_algorithms,
                encap_content_info,
                certificates,
                crls,
                signer_infos,
            },
        )
    }
}

/// The content octets of the object identifier `id-data`,
/// 1.2.840.113549.1.7.1.
pub open spec fn id_data() -> Seq<u8> {
    seq![0x2au8, 0x86u8, 0x48u8, 0x86u8, 0xf7u8, 0x0du8, 0x01u8, 0x07u8, 0x01u8]
}

/// Whether `bytes` are the content octets of `id-data`.
pub fn is_id_data(bytes: &[u8]) -> (r: bool)
    ensures
        r == (bytes@ == id_data()),
{
    let r = bytes.len() == 9 && bytes[0] == 0x2a && bytes[1] == 0x86 && bytes[2] == 0x48
        && bytes[3] == 0x86 && bytes[4] == 0xf7 && bytes[5] == 0x0d && bytes[6] == 0x01
        && bytes[7] == 0x07 && bytes[8] == 0x01;
    proof {
        if r {
            assert(bytes@ =~= id_data());
        } else if bytes@ == id_data() {
            assert(id_data().len() == 9);
            assert(id_data()[0] == 0x2a && id_data()[1] == 0x86 && id_data()[2] == 0x48
                && id_data()[3] == 0x86 && id_data()[4] == 0xf7 && id_data()[5] == 0x0d
                && id_data()[6] == 0x01 && id_data()[7] == 0x07 && id_data()[8] == 0x01);
        }
    }
    r
}

impl SignedData {
    /// Whether a certificate in another format is among the certificates.
    pub open spec fn spec_has_other_certificate(v: SignedDataView) -> bool {
        v.certificates matches Some(cs) && exists|i: int|
            0 <= i < cs.len() && (#[trigger] cs[i]) is Other
    }

    /// Whether revocation information in another format is among the
    /// revocation information.
    pub open spec fn spec_has_other_revocation(v: SignedDataView) -> bool {
        v.crls matches Some(rs) && exists|i: int| 0 <= i < rs.len() && (#[trigger] rs[i]) is Other
    }

    /// Whether a signer of version 3 is among the signers.
    pub open spec fn spec_has_version3_signer(v: SignedDataView) -> bool {
        exists|i: int|
            0 <= i < v.signer_infos.len() && (#[trigger] v.signer_infos[i]).version
                == CmsVersion::V3
    }

    /// The version that goes with the other fields: 5 where a certificate
    /// or revocation information in another format is there; else 3 where
    /// a signer has version 3 or the content is of another kind than
    /// `id-data`; else 1.
    pub open spec fn spec_expected_version(v: SignedDataView) -> CmsVersion {
        if Self::spec_has_other_certificate(v) || Self::spec_has_other_revocation(v) {
            CmsVersion::V5
        } else if Self::spec_has_version3_signer(v) || v.encap_content_info.econtent_type
            != id_data() {
            CmsVersion::V3
        } else {
            CmsVersion::V1
        }
    }

    /// Whether a certificate in another format is among the certificates.
    pub fn has_other_certificate(&self) -> (r: bool)
        ensures
            r == Self::spec_has_other_certificate(self@),
    {
        match &self.certificates {
            None => false,
            Some(set) => {
                let items = &set.0.0;
                let mut i: usize = 0;
                while i < items.len()
                    invariant
                        i <= items@.len(),
                        self@.certificates == Some(set@),
                        set@.len() == items@.len(),
                        forall|q: int| 0 <= q < items@.len() ==> set@[q] == (#[trigger] items@[q])@,
                        forall|q: int| 0 <= q < i ==> !((#[trigger] set@[q]) is Other),
                    decreases items@.len() - i,
                {
                    match &items[i] {
                        CertificateChoices::Other(_) => {
                            assert(set@[i as int] is Other);
                            return true;
                        },
                        CertificateChoices::Certificate(_) => {},
                    }
                    i += 1;
                }
                false
            },
        }
    }

    /// Whether revocation information in another format is among the
    /// revocation information.
    pub fn has_other_revocation(&self) -> (r: bool)
        ensures
            r == Self::spec_has_other_revocation(self@),
    {
        match &self.crls {
            None => false,
            Some(set) => {
                let items = &set.0.0;
                let mut i: usize = 0;
                while i < items.len()
                    invariant
                        i <= items@.len(),
                        self@.crls == Some(set@),
                        set@.len() == items@.len(),
                        forall|q: int| 0 <= q < items@.len() ==> set@[q] == (#[trigger] items@[q])@,
                        forall|q: int| 0 <= q < i ==> !((#[trigger] set@[q]) is Other),
                    decreases items@.len() - i,
                {
                    match &items[i] {
                        RevocationInfoChoice::Other(_) => {
                            assert(set@[i as int] is Other);
                            return true;
                        },
                        RevocationInfoChoice::Crl(_) => {},
                    }
                    i += 1;
                }
                false
            },
        }
    }

    /// Whether a signer of version 3 is among the signers.
    pub fn has_version3_signer(&self) -> (r: bool)
        ensures
            r == Self::spec_has_version3_signer(self@),
    {
        let items = &self.signer_infos.0.0;
        let ghost infos = self@.signer_infos;
        let mut i: usize = 0;
        while i < items.len()
            invariant
                i <= items@.len(),
                infos == self@.signer_infos,
                infos.len() == items@.len(),
                forall|q: int| 0 <= q < items@.len() ==> infos[q] == (#[trigger] items@[q])@,
                forall|q: int| 0 <= q < i ==> (#[trigger] infos[q]).version != CmsVersion::V3,
            decreases items@.len() - i,
        {
            if items[i].version.number() == 3 {
                assert(infos[i as int].version == CmsVersion::V3);
                return true;
            }
            i += 1;
        }
        false
    }

    /// The version that goes with the other fields.
    pub fn expected_version(&self) -> (r: CmsVersion)
        ensures
            r == Self::spec_expected_version(self@),
    {
        if self.has_other_certificate() || self.has_other_revocation() {
            CmsVersion::V5
        } else if self.has_version3_signer() || !is_id_data(
            self.encap_content_info.econtent_type.bytes.as_slice(),
        ) {
            CmsVersion::V3
        } else {
            CmsVersion::V1
        }
    }

    /// Holds `version` against the other fields.
    pub fn check_version(&self) -> (r: Result<(), Error>)
        ensures
            r is Ok <==> self@.version == Self::spec_expected_version(self@),
            r is Err ==> r == Err::<(), Error>(Error::InconsistentVersion),
    {
        if self.version.number() == self.expected_version().number() {
            Ok(())
        } else {
            Err(Error::InconsistentVersion)
        }
    }
}

/// Whether `a` and `b` hold the same elements, each as often in the one as
/// in the other.
pub open spec fn same_elements<V>(a: Seq<V>, b: Seq<V>) -> bool {
    a.to_multiset() == b.to_multiset()
}

/// Whether `a` and `b` are both absent, or both there with the same
/// elements.
pub open spec fn same_optional_elements<V>(a: Option<Seq<V>>, b: Option<Seq<V>>) -> bool {
    match (a, b) {
        (Some(x), Some(y)) => same_elements(x, y),
        (None, None) => true,
        _ => false,
    }
}

/// Whether `v` and `w` differ at most in the order in which they hold the
/// elements of their sets.
pub open spec fn same_up_to_order(v: SignedDataView, w: SignedDataView) -> bool {
    &&& w.version == v.version
    &&& same_elements(v.digest_algorithms, w.digest_algorithms)
    &&& w.encap_content_info == v.encap_content_info
    &&& same_optional_elements(v.certificates, w.certificates)
    &&& same_optional_elements(v.crls, w.crls)
    &&& same_elements(v.signer_infos, w.signer_infos)
}

/// The round trip of every valid `SignedData`, in whatever order it holds
/// its sets: its encoding decodes to a canonical value with the same
/// fields and, in each set, the same elements.
pub proof fn lemma_signed_data_round_trip(v: SignedDataView)
    requires
        SignedData::spec_valid(v),
    ensures
        SignedData::spec_decode(SignedData::spec_encode(v)) is Ok,
        SignedData::spec_canonical(SignedData::spec_decode(SignedData::spec_encode(v))->Ok_0),
        same_up_to_order(v, SignedData::spec_decode(SignedData::spec_encode(v))->Ok_0),
{
    let w6 = spec_wrap::<SignerInfos>(Tagging::Natural, v.signer_infos);
    let o5 = spec_wrap_optional::<RevocationInfoChoices>(crls_tagging(), v.crls);
    let o4 = spec_wrap_optional::<CertificateSet>(certificates_tagging(), v.certificates);
    let w3 = spec_wrap::<EncapsulatedContentInfo>(Tagging::Natural, v.encap_content_info);
    let w2 = spec_wrap::<DigestAlgorithmIdentifiers>(Tagging::Natural, v.digest_algorithms);
    let w1 = spec_wrap::<CmsVersion>(Tagging::Natural, v.version);
    let t5 = o5 + w6;
    let t4 = o4 + t5;
    let t3 = w3 + t4;
    let t2 = w2 + t3;
    let c = w1 + t2;
    assert(c == SignedData::spec_content(v));
    SignedData::lemma_roundtrip(v);
    SignedData::lemma_canonical(SignedData::spec_encode(v));
    lemma_open_tlv(0x30, c);
    lemma_field_roundtrip::<CmsVersion>(Tagging::Natural, v.version, t2);
    let r1 = spec_field::<CmsVersion>(Tagging::Natural, c);
    assert(r1 == Ok::<(CmsVersion, Seq<u8>), Error>((v.version, t2)));
    lemma_field_roundtrip::<DigestAlgorithmIdentifiers>(
        Tagging::Natural,
        v.digest_algorithms,
        t3,
    );
    let r2 = spec_field::<DigestAlgorithmIdentifiers>(Tagging::Natural, t2);
    assert(r2 is Ok && r2->Ok_0.1 == t3);
    lemma_set_round_trip::<AlgorithmIdentifier>(v.digest_algorithms);
    assert(same_elements(v.digest_algorithms, r2->Ok_0.0));
    lemma_field_roundtrip::<EncapsulatedContentInfo>(
        Tagging::Natural,
        v.encap_content_info,
        t4,
    );
    let r3 = spec_field::<EncapsulatedContentInfo>(Tagging::Natural, t3);
    assert(r3 == Ok::<(EncapsulatedContentInfoView, Seq<u8>), Error>(
        (v.encap_content_info, t4),
    ));
    lemma_wrap::<SignerInfos>(Tagging::Natural, v.signer_infos);
    lemma_wrap_optional::<RevocationInfoChoices>(crls_tagging(), v.crls);
    assert(t5.len() > 0 && (t5[0] == 0xa1 || t5[0] == 0x31)) by {
        if v.crls is Some {
            assert(t5[0] == o5[0]);
        } else {
            assert(t5 =~= w6);
        }
    }
    lemma_optional_roundtrip::<CertificateSet>(certificates_tagging(), v.certificates, t5);
    let r4 = spec_optional::<CertificateSet>(certificates_tagging(), t4);
    assert(r4 is Ok && r4->Ok_0.1 == t5);
    if let Some(cs) = v.certificates {
        lemma_set_round_trip::<CertificateChoices>(cs);
    }
    assert(same_optional_elements(v.certificates, r4->Ok_0.0));
    lemma_optional_roundtrip::<RevocationInfoChoices>(crls_tagging(), v.crls, w6);
    let r5 = spec_optional::<RevocationInfoChoices>(crls_tagging(), t5);
    assert(r5 is Ok && r5->Ok_0.1 == w6);
    if let Some(rs) = v.crls {
        lemma_set_round_trip::<RevocationInfoChoice>(rs);
    }
    assert(same_optional_elements(v.crls, r5->Ok_0.0));
    lemma_field_roundtrip::<SignerInfos>(Tagging::Natural, v.signer_infos, Seq::empty());
    assert(w6 + Seq::<u8>::empty() =~= w6);
    let r6 = spec_field::<SignerInfos>(Tagging::Natural, w6);
    assert(r6 is Ok && r6->Ok_0.1 == Seq::<u8>::empty());
    lemma_set_round_trip::<SignerInfo>(v.signer_infos);
    assert(same_elements(v.signer_infos, r6->Ok_0.0));
    assert(SignedData::spec_decode_content(c) is Ok);
}

} // verus!
