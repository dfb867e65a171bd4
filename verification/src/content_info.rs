//! `CmsVersion` and `ContentInfo`.
use core::cmp::Ordering;
use vstd::prelude::*;
use vstd::slice::slice_subrange;
use crate::asn1::{Any, AnyView, ObjectIdentifier};
use crate::codec::{
    decode_field, encode_field, lemma_field_canonical, lemma_field_roundtrip, lemma_open_canonical,
    lemma_open_tlv, open, spec_field, spec_open, spec_wrap, spec_wrap_valid, Codec, Tagging,
};
use crate::error::Error;
use crate::tlv::{encode_tlv, max_length, spec_tlv};

verus! {

/// The version of a `SignedData` or of a `SignerInfo`.
///
/// ```text
/// CMSVersion ::= INTEGER  { v0(0), v1(1), v2(2), v3(3), v4(4), v5(5) }
/// ```
///
/// It is encoded as an INTEGER of one content octet.
#[derive(Clone, Debug, Copy, PartialEq, Eq, Structural, PartialOrd, Ord)]
#[allow(missing_docs)]
pub enum CmsVersion {
    V0,
    V1,
    V2,
    V3,
    V4,
    V5,
}

impl View for CmsVersion {
    type V = CmsVersion;

    open spec fn view(&self) -> CmsVersion {
        *self
    }
}

impl CmsVersion {
    /// The integer that the version stands for.
    pub open spec fn spec_number(self) -> u8 {
        match self {
            CmsVersion::V0 => 0,
            CmsVersion::V1 => 1,
            CmsVersion::V2 => 2,
            CmsVersion::V3 => 3,
            CmsVersion::V4 => 4,
            CmsVersion::V5 => 5,
        }
    }

    /// The version that stands for `n`, if there is one.
    pub open spec fn spec_from_number(n: u8) -> Option<CmsVersion> {
        if n == 0 {
            Some(CmsVersion::V0)
        } else if n == 1 {
            Some(CmsVersion::V1)
        } else if n == 2 {
            Some(CmsVersion::V2)
        } else if n == 3 {
            Some(CmsVersion::V3)
        } else if n == 4 {
            Some(CmsVersion::V4)
        } else if n == 5 {
            Some(CmsVersion::V5)
        } else {
            None
        }
    }

    /// The integer that the version stands for.
    pub fn number(&self) -> (n: u8)
        ensures
            n == self.spec_number(),
    {
        match self {
            CmsVersion::V0 => 0,
            CmsVersion::V1 => 1,
            CmsVersion::V2 => 2,
            CmsVersion::V3 => 3,
            CmsVersion::V4 => 4,
            CmsVersion::V5 => 5,
        }
    }

    /// How this version stands to `other`: as the integers do that the two
    /// stand for.
    pub open spec fn value_order(self, other: CmsVersion) -> Ordering {
        if self.spec_number() < other.spec_number() {
            Ordering::Less
        } else if self.spec_number() == other.spec_number() {
            Ordering::Equal
        } else {
            Ordering::Greater
        }
    }

    /// Compares two versions by the integers they stand for. It never
    /// fails.
    pub fn value_cmp(&self, other: &Self) -> (r: Result<Ordering, Error>)
        ensures
            r == Ok::<Ordering, Error>(self.value_order(*other)),
    {
        let a: u8 = self.number();
        let b: u8 = other.number();
        if a == b {
            Ok(Ordering::Equal)
        } else if a < b {
            Ok(Ordering::Less)
        } else {
            Ok(Ordering::Greater)
        }
    }

    /// The version that stands for `n`, if there is one.
    pub fn from_number(n: u8) -> (r: Option<CmsVersion>)
        ensures
            r == Self::spec_from_number(n),
    {
        if n == 0 {
            Some(CmsVersion::V0)
        } else if n == 1 {
            Some(CmsVersion::V1)
        } else if n == 2 {
            Some(CmsVersion::V2)
        } else if n == 3 {
            Some(CmsVersion::V3)
        } else if n == 4 {
            Some(CmsVersion::V4)
        } else if n == 5 {
            Some(CmsVersion::V5)
        } else {
            None
        }
    }
}

impl Codec for CmsVersion {
    open spec fn spec_tag(tag: u8) -> bool {
        tag == 0x02
    }

    open spec fn spec_valid(v: CmsVersion) -> bool {
        true
    }

    open spec fn spec_canonical(v: CmsVersion) -> bool {
        true
    }

    open spec fn spec_encode(v: CmsVersion) -> Seq<u8> {
        spec_tlv(0x02, seq![v.spec_number()])
    }

    open spec fn spec_decode(s: Seq<u8>) -> Result<CmsVersion, Error> {
        match spec_open(s, 0x02) {
            Err(e) => Err(e),
            Ok(content) => if content.len() == 1 && content[0] <= 5 {
                Ok(Self::spec_from_number(content[0])->Some_0)
            } else {
                Err(Error::InvalidVersion)
            },
        }
    }

    proof fn lemma_encode(v: CmsVersion) {
        lemma_open_tlv(0x02, seq![v.spec_number()]);
    }

    proof fn lemma_roundtrip(v: CmsVersion) {
        lemma_open_tlv(0x02, seq![v.spec_number()]);
    }

    proof fn lemma_canonical(s: Seq<u8>) {
        lemma_open_canonical(s, 0x02);
        let content = spec_open(s, 0x02)->Ok_0;
        assert(content =~= seq![content[0]]);
    }

    fn accepts_tag(tag: u8) -> (r: bool) {
        tag == 0x02
    }

    fn encode(&self) -> (r: Result<Vec<u8>, Error>) {
        let mut out: Vec<u8> = Vec::new();
        out.push(0x02);
        out.push(0x01);
        out.push(self.number());
        assert(out@ =~= Self::spec_encode(*self));
        Ok(out)
    }

    fn decode(s: &[u8]) -> (r: Result<CmsVersion, Error>) {
        match open(s, 0x02) {
            Err(e) => Err(e),
            Ok(start) => {
                if s.len() - start != 1 {
                    return Err(Error::InvalidVersion);
                }
                match Self::from_number(s[start]) {
                    Some(v) => Ok(v),
                    None => Err(Error::InvalidVersion),
                }
            },
        }
    }
}

/// The envelope of a content: what kind it is, and the content itself
/// under `[0] EXPLICIT`.
///
/// ```text
/// ContentInfo ::= SEQUENCE {
///     contentType ContentType,
///     content [0] EXPLICIT ANY DEFINED BY contentType }
/// ```
#[derive(Clone, Debug, Eq, PartialEq)]
#[allow(missing_docs)]
pub struct ContentInfo {
    pub content_type: ObjectIdentifier,
    pub content: Any,
}

/// What a `ContentInfo` holds.
#[allow(missing_docs)]
pub struct ContentInfoView {
    pub content_type: Seq<u8>,
    pub content: AnyView,
}

impl View for ContentInfo {
    type V = ContentInfoView;

    open spec fn view(&self) -> ContentInfoView {
        ContentInfoView { content_type: self.content_type@, content: self.content@ }
    }
}

impl ContentInfo {
    /// The content of the SEQUENCE: the fields in their order.
    pub open spec fn spec_content(v: ContentInfoView) -> Seq<u8> {
        spec_wrap::<ObjectIdentifier>(Tagging::Natural, v.content_type) + spec_wrap::<Any>(
            Tagging::Explicit(0xa0),
            v.content,
        )
    }

    /// Reads the fields from the content of the SEQUENCE.
    pub open spec fn spec_decode_content(c: Seq<u8>) -> Result<ContentInfoView, Error> {
        match spec_field::<ObjectIdentifier>(Tagging::Natural, c) {
            Err(e) => Err(e),
            Ok((content_type, c1)) => match spec_field::<Any>(Tagging::Explicit(0xa0), c1) {
                Err(e) => Err(e),
                Ok((content, c2)) => if c2.len() > 0 {
                    Err(Error::TrailingData)
                } else {
                    Ok(ContentInfoView { content_type, content })
                },
            },
        }
    }
}

impl Codec for ContentInfo {
    open spec fn spec_tag(tag: u8) -> bool {
        tag == 0x30
    }

    open spec fn spec_valid(v: ContentInfoView) -> bool {
        &&& ObjectIdentifier::spec_valid(v.content_type)
        &&& spec_wrap_valid::<Any>(Tagging::Explicit(0xa0), v.content)
        &&& Self::spec_content(v).len() <= max_length()
    }

    open spec fn spec_canonical(v: ContentInfoView) -> bool {
        true
    }

    open spec fn spec_encode(v: ContentInfoView) -> Seq<u8> {
        spec_tlv(0x30, Self::spec_content(v))
    }

    open spec fn spec_decode(s: Seq<u8>) -> Result<ContentInfoView, Error> {
        match spec_open(s, 0x30) {
            Err(e) => Err(e),
            Ok(content) => Self::spec_decode_content(content),
        }
    }

    proof fn lemma_encode(v: ContentInfoView) {
        lemma_open_tlv(0x30, Self::spec_content(v));
    }

    proof fn lemma_roundtrip(v: ContentInfoView) {
        let w2 = spec_wrap::<Any>(Tagging::Explicit(0xa0), v.content);
        lemma_open_tlv(0x30, Self::spec_content(v));
        lemma_field_roundtrip::<ObjectIdentifier>(Tagging::Natural, v.content_type, w2);
        lemma_field_roundtrip::<Any>(Tagging::Explicit(0xa0), v.content, Seq::empty());
        assert(w2 + Seq::<u8>::empty() =~= w2);
    }

    proof fn lemma_canonical(s: Seq<u8>) {
        lemma_open_canonical(s, 0x30);
        let c = spec_open(s, 0x30)->Ok_0;
        lemma_field_canonical::<ObjectIdentifier>(Tagging::Natural, c);
        let (content_type, c1) = spec_field::<ObjectIdentifier>(Tagging::Natural, c)->Ok_0;
        lemma_field_canonical::<Any>(Tagging::Explicit(0xa0), c1);
        let (content, c2) = spec_field::<Any>(Tagging::Explicit(0xa0), c1)->Ok_0;
        let v = ContentInfoView { content_type, content };
        assert(c =~= Self::spec_content(v));
    }

    fn accepts_tag(tag: u8) -> (r: bool) {
        tag == 0x30
    }

    fn encode(&self) -> (r: Result<Vec<u8>, Error>) {
        let mut content: Vec<u8> = Vec::new();
        match encode_field::<ObjectIdentifier>(
            Tagging::Natural,
            &self.content_type,
            &mut content,
        ) {
            Err(e) => {
                return Err(e);
            },
            Ok(_) => {},
        }
        match encode_field::<Any>(Tagging::Explicit(0xa0), &self.content, &mut content) {
            Err(e) => {
                return Err(e);
            },
            Ok(_) => {},
        }
        assert(content@ =~= Self::spec_content(self@));
        Ok(encode_tlv(0x30, content.as_slice()))
    }

    fn decode(s: &[u8]) -> (r: Result<Self, Error>) {
        let start = match open(s, 0x30) {
            Err(e) => {
                return Err(e);
            },
            Ok(start) => start,
        };
        let c = slice_subrange(s, start, s.len());
        assert(c@ =~= s@.skip(start as int));
        let (content_type, n1) = match decode_field::<ObjectIdentifier>(Tagging::Natural, c) {
            Err(e) => {
                return Err(e);
            },
            Ok(found) => found,
        };
        let c1 = slice_subrange(c, n1, c.len());
        assert(c1@ =~= c@.skip(n1 as int));
        let (content, n2) = match decode_field::<Any>(Tagging::Explicit(0xa0), c1) {
            Err(e) => {
                return Err(e);
            },
            Ok(found) => found,
        };
        if n2 < c1.len() {
            return Err(Error::TrailingData);
        }
        Ok(ContentInfo { content_type, content })
    }
}

} // verus!
