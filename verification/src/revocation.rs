//! Revocation information.
use vstd::prelude::*;
use vstd::slice::slice_subrange;
use crate::asn1::{Any, AnyView, ObjectIdentifier};
use crate::codec::{
    decode_choice_field, decode_exact, decode_field, encode_field, lemma_choice_field,
    lemma_exact_canonical, lemma_exact_roundtrip, lemma_field_canonical, lemma_field_roundtrip,
    lemma_open_canonical, lemma_open_tlv, lemma_wrap, open, spec_choice_field, spec_exact,
    spec_field, spec_open, spec_wrap, Codec, Tagging,
};
use crate::error::Error;
use crate::opaque::CertificateList;
use crate::set_of::SetOf;
use crate::tlv::{encode_tlv, max_length, spec_tlv};

verus! {

/// Revocation information in a format that this schema does not know: the
/// format's identifier and the information as the format defines it.
///
/// ```text
/// OtherRevocationInfoFormat ::= SEQUENCE {
///     otherRevInfoFormat OBJECT IDENTIFIER,
///     otherRevInfo ANY DEFINED BY otherRevInfoFormat }
/// ```
#[derive(Clone, Debug, PartialEq, Eq)]
#[allow(missing_docs)]
pub struct OtherRevocationInfoFormat {
    pub other_format: ObjectIdentifier,
    pub other: Any,
}

/// What an `OtherRevocationInfoFormat` holds.
#[allow(missing_docs)]
pub struct OtherRevocationInfoFormatView {
    pub other_format: Seq<u8>,
    pub other: AnyView,
}

impl View for OtherRevocationInfoFormat {
    type V = OtherRevocationInfoFormatView;

    open spec fn view(&self) -> OtherRevocationInfoFormatView {
        OtherRevocationInfoFormatView {
            other_format: self.other_format@,
            other: self.other@,
        }
    }
}

impl OtherRevocationInfoFormat {
    /// The content of the SEQUENCE: the fields in their order.
    pub open spec fn spec_content(v: OtherRevocationInfoFormatView) -> Seq<u8> {
        spec_wrap::<ObjectIdentifier>(Tagging::Natural, v.other_format) + spec_wrap::<Any>(
            Tagging::Natural,
            v.other,
        )
    }

    /// Reads the fields from the content of the SEQUENCE.
    pub open spec fn spec_decode_content(c: Seq<u8>) -> Result<OtherRevocationInfoFormatView, Error> {
        match spec_field::<ObjectIdentifier>(Tagging::Natural, c) {
            Err(e) => Err(e),
            Ok((other_format, c1)) => match spec_choice_field::<Any>(c1) {
                Err(e) => Err(e),
                Ok((other, c2)) => if c2.len() > 0 {
                    Err(Error::TrailingData)
                } else {
                    Ok(OtherRevocationInfoFormatView { other_format, other })
                },
            },
        }
    }
}

impl Codec for OtherRevocationInfoFormat {
    open spec fn spec_tag(tag: u8) -> bool {
        tag == 0x30
    }

    open spec fn spec_valid(v: OtherRevocationInfoFormatView) -> bool {
        &&& ObjectIdentifier::spec_valid(v.other_format)
        &&& Any::spec_valid(v.other)
        &&& Self::spec_content(v).len() <= max_length()
    }

    open spec fn spec_canonical(v: OtherRevocationInfoFormatView) -> bool {
        true
    }

    open spec fn spec_encode(v: OtherRevocationInfoFormatView) -> Seq<u8> {
        spec_tlv(0x30, Self::spec_content(v))
    }

    open spec fn spec_decode(s: Seq<u8>) -> Result<OtherRevocationInfoFormatView, Error> {
        match spec_open(s, 0x30) {
            Err(e) => Err(e),
            Ok(content) => Self::spec_decode_content(content),
        }
    }

    proof fn lemma_encode(v: OtherRevocationInfoFormatView) {
        lemma_open_tlv(0x30, Self::spec_content(v));
    }

    proof fn lemma_roundtrip(v: OtherRevocationInfoFormatView) {
        let w2 = spec_wrap::<Any>(Tagging::Natural, v.other);
        lemma_open_tlv(0x30, Self::spec_content(v));
        lemma_field_roundtrip::<ObjectIdentifier>(Tagging::Natural, v.other_format, w2);
        lemma_field_roundtrip::<Any>(Tagging::Natural, v.other, Seq::empty());
        assert(w2 + Seq::<u8>::empty() =~= w2);
        lemma_choice_field::<Any>(w2);
    }

    proof fn lemma_canonical(s: Seq<u8>) {
        lemma_open_canonical(s, 0x30);
        let c = spec_open(s, 0x30)->Ok_0;
        lemma_field_canonical::<ObjectIdentifier>(Tagging::Natural, c);
        let (other_format, c1) = spec_field::<ObjectIdentifier>(Tagging::Natural, c)->Ok_0;
        lemma_choice_field::<Any>(c1);
        lemma_field_canonical::<Any>(Tagging::Natural, c1);
        let (other, c2) = spec_choice_field::<Any>(c1)->Ok_0;
        let v = OtherRevocationInfoFormatView { other_format, other };
        assert(c =~= Self::spec_content(v));
    }

    fn accepts_tag(tag: u8) -> (r: bool) {
        tag == 0x30
    }

    fn encode(&self) -> (r: Result<Vec<u8>, Error>) {
        let mut content: Vec<u8> = Vec::new();
        match encode_field::<ObjectIdentifier>(
            Tagging::Natural,
            &self.other_format,
            &mut content,
        ) {
            Err(e) => {
                return Err(e);
            },
            Ok(_) => {},
        }
        match encode_field::<Any>(Tagging::Natural, &self.other, &mut content) {
            Err(e) => {
                return Err(e);
            },
            Ok(_) => {},
        }
        assert(content@ =~= Self::spec_content(self@));
        Ok(encode_tlv(0x30, content.as_slice()))
    }

    fn decode(s: &[u8]) -> (r: Result<Self, Error>) {
        let start = match open(s, 0x30) {
            Err(e) => {
                return Err(e);
            },
            Ok(start) => start,
        };
        let c = slice_subrange(s, start, s.len());
        assert(c@ =~= s@.skip(start as int));
        let (other_format, n1) = match decode_field::<ObjectIdentifier>(
            Tagging::Natural,
            c,
        ) {
            Err(e) => {
                return Err(e);
            },
            Ok(found) => found,
        };
        let c1 = slice_subrange(c, n1, c.len());
        assert(c1@ =~= c@.skip(n1 as int));
        let (other, n2) = match decode_choice_field::<Any>(c1) {
            Err(e) => {
                return Err(e);
            },
            Ok(found) => found,
        };
        if n2 < c1.len() {
            return Err(Error::TrailingData);
        }
        Ok(OtherRevocationInfoFormat { other_format, other })
    }
}

/// How `OtherRevocationInfoFormat` is tagged as a variant of
/// `RevocationInfoChoice`: `[1] IMPLICIT`.
pub open spec fn other_revocation_tagging() -> Tagging {
    Tagging::Implicit(0xa1, 0x30)
}

/// A certificate revocation list, or revocation information in another
/// format.
///
/// ```text
/// RevocationInfoChoice ::= CHOICE {
///     crl CertificateList,
///     other [1] IMPLICIT OtherRevocationInfoFormat }
/// ```
#[derive(Clone, Debug, PartialEq, Eq)]
#[allow(missing_docs)]
pub enum RevocationInfoChoice {
    Crl(CertificateList),
    Other(OtherRevocationInfoFormat),
}

/// What a `RevocationInfoChoice` holds.
#[allow(missing_docs)]
pub enum RevocationInfoChoiceView {
    Crl(Seq<u8>),
    Other(OtherRevocationInfoFormatView),
}

impl View for RevocationInfoChoice {
    type V = RevocationInfoChoiceView;

    open spec fn view(&self) -> RevocationInfoChoiceView {
        match self {
            RevocationInfoChoice::Crl(c) => RevocationInfoChoiceView::Crl(c@),
            RevocationInfoChoice::Other(o) => RevocationInfoChoiceView::Other(o@),
        }
    }
}

impl Codec for RevocationInfoChoice {
    open spec fn spec_tag(tag: u8) -> bool {
        tag == 0x30 || tag == 0xa1
    }

    open spec fn spec_valid(v: RevocationInfoChoiceView) -> bool {
        match v {
            RevocationInfoChoiceView::Crl(c) => CertificateList::spec_valid(c),
            RevocationInfoChoiceView::Other(o) => OtherRevocationInfoFormat::spec_valid(o),
        }
    }

    open spec fn spec_canonical(v: RevocationInfoChoiceView) -> bool {
        true
    }

    open spec fn spec_encode(v: RevocationInfoChoiceView) -> Seq<u8> {
        match v {
            RevocationInfoChoiceView::Crl(c) => spec_wrap::<CertificateList>(
                Tagging::Natural,
                c,
            ),
            RevocationInfoChoiceView::Other(o) => spec_wrap::<OtherRevocationInfoFormat>(
                other_revocation_tagging(),
                o,
            ),
        }
    }

    open spec fn spec_decode(s: Seq<u8>) -> Result<RevocationInfoChoiceView, Error> {
        if s.len() == 0 {
            Err(Error::MissingField)
        } else if s[0] == 0x30 {
            match spec_exact::<CertificateList>(Tagging::Natural, s) {
                Err(e) => Err(e),
                Ok(c) => Ok(RevocationInfoChoiceView::Crl(c)),
            }
        } else if s[0] == 0xa1 {
            match spec_exact::<OtherRevocationInfoFormat>(other_revocation_tagging(), s) {
                Err(e) => Err(e),
                Ok(o) => Ok(RevocationInfoChoiceView::Other(o)),
            }
        } else {
            Err(Error::UnexpectedTag)
        }
    }

    proof fn lemma_encode(v: RevocationInfoChoiceView) {
        match v {
            RevocationInfoChoiceView::Crl(c) => {
                lemma_wrap::<CertificateList>(Tagging::Natural, c);
            },
            RevocationInfoChoiceView::Other(o) => {
                lemma_wrap::<OtherRevocationInfoFormat>(other_revocation_tagging(), o);
            },
        }
    }

    proof fn lemma_roundtrip(v: RevocationInfoChoiceView) {
        match v {
            RevocationInfoChoiceView::Crl(c) => {
                lemma_wrap::<CertificateList>(Tagging::Natural, c);
                lemma_exact_roundtrip::<CertificateList>(Tagging::Natural, c);
            },
            RevocationInfoChoiceView::Other(o) => {
                lemma_wrap::<OtherRevocationInfoFormat>(other_revocation_tagging(), o);
                lemma_exact_roundtrip::<OtherRevocationInfoFormat>(other_revocation_tagging(), o);
            },
        }
    }

    proof fn lemma_canonical(s: Seq<u8>) {
        if s[0] == 0x30 {
            lemma_exact_canonical::<CertificateList>(Tagging::Natural, s);
        } else {
            lemma_exact_canonical::<OtherRevocationInfoFormat>(other_revocation_tagging(), s);
        }
    }

    fn accepts_tag(tag: u8) -> (r: bool) {
        tag == 0x30 || tag == 0xa1
    }

    fn encode(&self) -> (r: Result<Vec<u8>, Error>) {
        let mut out: Vec<u8> = Vec::new();
        let done = match self {
            RevocationInfoChoice::Crl(c) => encode_field::<CertificateList>(
                Tagging::Natural,
                c,
                &mut out,
            ),
            RevocationInfoChoice::Other(o) => encode_field::<OtherRevocationInfoFormat>(
                Tagging::Implicit(0xa1, 0x30),
                o,
                &mut out,
            ),
        };
        match done {
            Err(e) => Err(e),
            Ok(_) => {
                assert(out@ =~= Self::spec_encode(self@));
                Ok(out)
            },
        }
    }

    fn decode(s: &[u8]) -> (r: Result<Self, Error>) {
        if s.len() == 0 {
            Err(Error::MissingField)
        } else if s[0] == 0x30 {
            match decode_exact::<CertificateList>(Tagging::Natural, s) {
                Err(e) => Err(e),
                Ok(c) => Ok(RevocationInfoChoice::Crl(c)),
            }
        } else if s[0] == 0xa1 {
            match decode_exact::<OtherRevocationInfoFormat>(Tagging::Implicit(0xa1, 0x30), s) {
                Err(e) => Err(e),
                Ok(o) => Ok(RevocationInfoChoice::Other(o)),
            }
        } else {
            Err(Error::UnexpectedTag)
        }
    }
}

/// The revocation information that accompanies a `SignedData`.
///
/// ```text
/// RevocationInfoChoices ::= SET OF RevocationInfoChoice
/// ```
#[derive(Clone, Debug, PartialEq, Eq)]
pub struct RevocationInfoChoices(pub SetOf<RevocationInfoChoice>);

impl View for RevocationInfoChoices {
    type V = Seq<RevocationInfoChoiceView>;

    open spec fn view(&self) -> Seq<RevocationInfoChoiceView> {
        self.0@
    }
}

impl Codec for RevocationInfoChoices {
    open spec fn spec_tag(tag: u8) -> bool {
        SetOf::<RevocationInfoChoice>::spec_tag(tag)
    }

    open spec fn spec_valid(v: Seq<RevocationInfoChoiceView>) -> bool {
        SetOf::<RevocationInfoChoice>::spec_valid(v)
    }

    open spec fn spec_canonical(v: Seq<RevocationInfoChoiceView>) -> bool {
        SetOf::<RevocationInfoChoice>::spec_canonical(v)
    }

    open spec fn spec_encode(v: Seq<RevocationInfoChoiceView>) -> Seq<u8> {
        SetOf::<RevocationInfoChoice>::spec_encode(v)
    }

    open spec fn spec_decode(s: Seq<u8>) -> Result<Seq<RevocationInfoChoiceView>, Error> {
        SetOf::<RevocationInfoChoice>::spec_decode(s)
    }

    proof fn lemma_encode(v: Seq<RevocationInfoChoiceView>) {
        SetOf::<RevocationInfoChoice>::lemma_encode(v);
    }

    proof fn lemma_roundtrip(v: Seq<RevocationInfoChoiceView>) {
        SetOf::<RevocationInfoChoice>::lemma_roundtrip(v);
    }

    proof fn lemma_canonical(s: Seq<u8>) {
        SetOf::<RevocationInfoChoice>::lemma_canonical(s);
    }

    fn accepts_tag(tag: u8) -> (r: bool) {
        SetOf::<RevocationInfoChoice>::accepts_tag(tag)
    }

    fn encode(&self) -> (r: Result<Vec<u8>, Error>) {
        self.0.encode()
    }

    fn decode(s: &[u8]) -> (r: Result<Self, Error>) {
        match SetOf::<RevocationInfoChoice>::decode(s) {
            Err(e) => Err(e),
            Ok(set) => Ok(RevocationInfoChoices(set)),
        }
    }
}

} // verus!
