//! The primitive types of the schema: OBJECT IDENTIFIER, OCTET STRING and
//! the open type ANY.
use vstd::prelude::*;
use vstd::slice::{slice_subrange, slice_to_vec};
use crate::codec::{lemma_open_canonical, lemma_open_tlv, open, spec_open, Codec};
use crate::error::Error;
use crate::foreign::{const_oid_accepts, oid_accepted};
use crate::framing::{check_framing, constructed, max_depth, spec_framing};
use crate::tlv::{
    encode_tlv, lemma_split_canonical, lemma_split_tlv, max_length, spec_split, spec_tlv, split,
    valid_tag,
};

verus! {

/// Whether no number in `c` has an octet to spare: none of the numbers,
/// each written in groups of seven bits with the top bit set on all octets
/// but its last, starts with the octet `0x80`.
pub open spec fn arcs_minimal(c: Seq<u8>) -> bool {
    forall|i: int| 0 <= i < c.len() && (i == 0 || c[i - 1] < 128) ==> #[trigger] c[i] != 0x80
}

/// Whether no number in `c` has an octet to spare.
pub fn has_minimal_arcs(c: &[u8]) -> (r: bool)
    ensures
        r == arcs_minimal(c@),
{
    let mut i: usize = 0;
    while i < c.len()
        invariant
            i <= c@.len(),
            forall|k: int| 0 <= k < i && (k == 0 || c@[k - 1] < 128) ==> #[trigger] c@[k] != 0x80,
        decreases c@.len() - i,
    {
        if c[i] == 0x80 && (i == 0 || c[i - 1] < 128) {
            return false;
        }
        i += 1;
    }
    true
}

/// An OBJECT IDENTIFIER, held as its content octets.
///
/// The octets are valid where `const_oid` takes them and no number among
/// them has an octet to spare.
#[derive(Clone, Debug, PartialEq, Eq)]
pub struct ObjectIdentifier {
    pub bytes: Vec<u8>,
}

impl View for ObjectIdentifier {
    type V = Seq<u8>;

    open spec fn view(&self) -> Seq<u8> {
        self.bytes@
    }
}

impl Codec for ObjectIdentifier {
    open spec fn spec_tag(tag: u8) -> bool {
        tag == 0x06
    }

    open spec fn spec_valid(v: Seq<u8>) -> bool {
        v.len() <= max_length() && arcs_minimal(v) && const_oid_accepts(v)
    }

    open spec fn spec_canonical(v: Seq<u8>) -> bool {
        true
    }

    open spec fn spec_encode(v: Seq<u8>) -> Seq<u8> {
        spec_tlv(0x06, v)
    }

    open spec fn spec_decode(s: Seq<u8>) -> Result<Seq<u8>, Error> {
        match spec_open(s, 0x06) {
            Err(e) => Err(e),
            Ok(content) => if arcs_minimal(content) && const_oid_accepts(content) {
                Ok(content)
            } else {
                Err(Error::InvalidValue)
            },
        }
    }

    proof fn lemma_encode(v: Seq<u8>) {
        lemma_open_tlv(0x06, v);
    }

    proof fn lemma_roundtrip(v: Seq<u8>) {
        lemma_open_tlv(0x06, v);
    }

    proof fn lemma_canonical(s: Seq<u8>) {
        lemma_open_canonical(s, 0x06);
    }

    fn accepts_tag(tag: u8) -> (r: bool) {
        tag == 0x06
    }

    fn encode(&self) -> (r: Result<Vec<u8>, Error>) {
        if !has_minimal_arcs(self.bytes.as_slice()) || !oid_accepted(self.bytes.as_slice()) {
            return Err(Error::InvalidValue);
        }
        Ok(encode_tlv(0x06, self.bytes.as_slice()))
    }

    fn decode(s: &[u8]) -> (r: Result<Self, Error>) {
        match open(s, 0x06) {
            Err(e) => Err(e),
            Ok(start) => {
                let content = slice_subrange(s, start, s.len());
                assert(content@ =~= s@.skip(start as int));
                if has_minimal_arcs(content) && oid_accepted(content) {
                    Ok(ObjectIdentifier { bytes: slice_to_vec(content) })
                } else {
                    Err(Error::InvalidValue)
                }
            },
        }
    }
}

/// An OCTET STRING: any octets.
#[derive(Clone, Debug, PartialEq, Eq)]
pub struct OctetString {
    pub bytes: Vec<u8>,
}

impl View for OctetString {
    type V = Seq<u8>;

    open spec fn view(&self) -> Seq<u8> {
        self.bytes@
    }
}

impl Codec for OctetString {
    open spec fn spec_tag(tag: u8) -> bool {
        tag == 0x04
    }

    open spec fn spec_valid(v: Seq<u8>) -> bool {
        v.len() <= max_length()
    }

    open spec fn spec_canonical(v: Seq<u8>) -> bool {
        true
    }

    open spec fn spec_encode(v: Seq<u8>) -> Seq<u8> {
        spec_tlv(0x04, v)
    }

    open spec fn spec_decode(s: Seq<u8>) -> Result<Seq<u8>, Error> {
        spec_open(s, 0x04)
    }

    proof fn lemma_encode(v: Seq<u8>) {
        lemma_open_tlv(0x04, v);
    }

    proof fn lemma_roundtrip(v: Seq<u8>) {
        lemma_open_tlv(0x04, v);
    }

    proof fn lemma_canonical(s: Seq<u8>) {
        lemma_open_canonical(s, 0x04);
    }

    fn accepts_tag(tag: u8) -> (r: bool) {
        tag == 0x04
    }

    fn encode(&self) -> (r: Result<Vec<u8>, Error>) {
        Ok(encode_tlv(0x04, self.bytes.as_slice()))
    }

    fn decode(s: &[u8]) -> (r: Result<Self, Error>) {
        match open(s, 0x04) {
            Err(e) => Err(e),
            Ok(start) => {
                let content = slice_subrange(s, start, s.len());
                assert(content@ =~= s@.skip(start as int));
                Ok(OctetString { bytes: slice_to_vec(content) })
            },
        }
    }
}

/// A value of the open type: one element of any identifier.
///
/// What the content means is not looked into. Where the identifier marks
/// the element as constructed, the elements inside it are walked: their
/// length fields must be in the shortest form and the elements of a SET in
/// octet order.
#[derive(Clone, Debug, PartialEq, Eq)]
pub struct Any {
    pub tag: u8,
    pub value: Vec<u8>,
}

/// What an `Any` holds.
pub struct AnyView {
    pub tag: u8,
    pub value: Seq<u8>,
}

impl View for Any {
    type V = AnyView;

    open spec fn view(&self) -> AnyView {
        AnyView { tag: self.tag, value: self.value@ }
    }
}

impl Codec for Any {
    open spec fn spec_tag(tag: u8) -> bool {
        valid_tag(tag)
    }

    open spec fn spec_valid(v: AnyView) -> bool {
        &&& valid_tag(v.tag)
        &&& v.value.len() <= max_length()
        &&& constructed(v.tag) ==> spec_framing(v.value, v.tag == 0x31, None, max_depth()) is Ok
    }

    open spec fn spec_canonical(v: AnyView) -> bool {
        true
    }

    open spec fn spec_encode(v: AnyView) -> Seq<u8> {
        spec_tlv(v.tag, v.value)
    }

    open spec fn spec_decode(s: Seq<u8>) -> Result<AnyView, Error> {
        match spec_split(s) {
            Err(e) => Err(e),
            Ok((content, rest)) => if rest.len() > 0 {
                Err(Error::TrailingData)
            } else if constructed(s[0]) {
                match spec_framing(content, s[0] == 0x31, None, max_depth()) {
                    Err(e) => Err(e),
                    Ok(_) => Ok(AnyView { tag: s[0], value: content }),
                }
            } else {
                Ok(AnyView { tag: s[0], value: content })
            },
        }
    }

    proof fn lemma_encode(v: AnyView) {
        lemma_open_tlv(v.tag, v.value);
    }

    proof fn lemma_roundtrip(v: AnyView) {
        lemma_open_tlv(v.tag, v.value);
        lemma_split_tlv(v.tag, v.value, Seq::empty());
        assert(spec_tlv(v.tag, v.value) + Seq::<u8>::empty() =~= spec_tlv(v.tag, v.value));
    }

    proof fn lemma_canonical(s: Seq<u8>) {
        lemma_split_canonical(s);
        let (content, rest) = spec_split(s)->Ok_0;
        assert(spec_tlv(s[0], content) + rest =~= spec_tlv(s[0], content));
    }

    fn accepts_tag(tag: u8) -> (r: bool) {
        tag % 32 != 31
    }

    fn encode(&self) -> (r: Result<Vec<u8>, Error>) {
        if self.tag % 32 == 31 {
            return Err(Error::InvalidValue);
        }
        if self.tag / 32 % 2 == 1 && check_framing(
            self.value.as_slice(),
            self.tag == 0x31,
            64,
        ).is_err() {
            return Err(Error::InvalidValue);
        }
        Ok(encode_tlv(self.tag, self.value.as_slice()))
    }

    fn decode(s: &[u8]) -> (r: Result<Self, Error>) {
        match split(s) {
            Err(e) => Err(e),
            Ok((start, end)) => {
                if end < s.len() {
                    return Err(Error::TrailingData);
                }
                let content = slice_subrange(s, start, end);
                if s[0] / 32 % 2 == 1 {
                    match check_framing(content, s[0] == 0x31, 64) {
                        Err(e) => {
                            return Err(e);
                        },
                        Ok(_) => {},
                    }
                }
                Ok(Any { tag: s[0], value: slice_to_vec(content) })
            },
        }
    }
}

} // verus!
