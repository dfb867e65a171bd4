//! What holds of every schema type, stated once for all of them.
use vstd::prelude::*;
use vstd::seq_lib::lemma_sorted_unique;
use crate::asn1::{Any, AnyView};
use crate::cert::IssuerAndSerialNumber;
use crate::codec::{
    lemma_open_tlv, spec_field, spec_fits, spec_open, spec_wrap, spec_wrap_optional,
    spec_wrap_valid, Codec, Tagging,
};
use crate::content_info::{CmsVersion, ContentInfo};
use crate::error::Error;
use crate::framing::{constructed, lemma_framing_padded_length, max_depth, spec_framing};
use crate::integer::{lemma_signed_value_large, minimal, signed_octets, Integer};
use crate::opaque::{AlgorithmIdentifier, Attributes, Certificate, CertificateList, Name};
use crate::order::{lemma_octet_order_total, octet_order};
use crate::set_of::{
    all_tlv, ascending, lemma_ascending_sorted, lemma_elements_out_of_order, lemma_sorted,
    lemma_sorted_ascending, spec_encodings, spec_sorted, SetOf,
};
use crate::signed_data::{SignedData, SignerIdentifier, SignerIdentifierView, SignerInfo};
use crate::tlv::{
    lemma_padded_length_refused, lemma_split_canonical, lemma_split_tlv, lemma_truncated_refused,
    max_length, spec_padded_length_field, spec_split, spec_tlv, tlv_content, valid_tag,
};

verus! {

/// Decoding inverts encoding: the encoding of a valid and canonical value
/// decodes to that value.
pub proof fn lemma_decode_inverts_encode<T: Codec>(v: T::V)
    requires
        T::spec_valid(v),
        T::spec_canonical(v),
    ensures
        T::spec_decode(T::spec_encode(v)) == Ok::<T::V, Error>(v),
{
    T::lemma_roundtrip(v);
}

/// The encoding of a valid value decodes, to a canonical value with the
/// same encoding: only the order in which a SET OF is held can differ.
pub proof fn lemma_decode_of_encode<T: Codec>(v: T::V)
    requires
        T::spec_valid(v),
    ensures
        T::spec_decode(T::spec_encode(v)) is Ok,
        T::spec_canonical(T::spec_decode(T::spec_encode(v))->Ok_0),
        T::spec_encode(T::spec_decode(T::spec_encode(v))->Ok_0) == T::spec_encode(v),
{
    T::lemma_roundtrip(v);
    T::lemma_canonical(T::spec_encode(v));
}

/// Encoding inverts decoding: what decodes is the encoding of the value it
/// decodes to.
pub proof fn lemma_encode_inverts_decode<T: Codec>(s: Seq<u8>)
    requires
        T::spec_decode(s) is Ok,
    ensures
        T::spec_valid(T::spec_decode(s)->Ok_0),
        T::spec_canonical(T::spec_decode(s)->Ok_0),
        T::spec_encode(T::spec_decode(s)->Ok_0) == s,
{
    T::lemma_canonical(s);
}

/// A value has one encoding that decodes: two octet strings that decode to
/// the same value are the same string.
pub proof fn lemma_one_encoding<T: Codec>(s1: Seq<u8>, s2: Seq<u8>)
    requires
        T::spec_decode(s1) is Ok,
        T::spec_decode(s2) == T::spec_decode(s1),
    ensures
        s1 == s2,
{
    T::lemma_canonical(s1);
    T::lemma_canonical(s2);
}

/// Canonical values with the same encoding are the same value.
pub proof fn lemma_encode_injective<T: Codec>(v1: T::V, v2: T::V)
    requires
        T::spec_valid(v1),
        T::spec_canonical(v1),
        T::spec_valid(v2),
        T::spec_canonical(v2),
        T::spec_encode(v1) == T::spec_encode(v2),
    ensures
        v1 == v2,
{
    T::lemma_roundtrip(v1);
    T::lemma_roundtrip(v2);
}

/// Of two SET OF encodings that hold the same elements in different orders,
/// at most one decodes, and the one whose elements do not ascend is refused
/// for its order.
pub proof fn lemma_set_order<T: Codec>(a: Seq<Seq<u8>>, b: Seq<Seq<u8>>)
    requires
        all_tlv(a),
        a.to_multiset() == b.to_multiset(),
        a != b,
        a.flatten().len() <= max_length(),
        b.flatten().len() <= max_length(),
    ensures
        !(SetOf::<T>::spec_decode(spec_tlv(0x31, a.flatten())) is Ok && SetOf::<T>::spec_decode(
            spec_tlv(0x31, b.flatten()),
        ) is Ok),
        !ascending(a) ==> SetOf::<T>::spec_decode(spec_tlv(0x31, a.flatten())) == Err::<
            Seq<T::V>,
            Error,
        >(Error::NonCanonicalSetOrder),
        !ascending(b) ==> SetOf::<T>::spec_decode(spec_tlv(0x31, b.flatten())) == Err::<
            Seq<T::V>,
            Error,
        >(Error::NonCanonicalSetOrder),
{
    a.to_multiset_ensures();
    b.to_multiset_ensures();
    assert forall|i: int| 0 <= i < b.len() implies crate::tlv::is_tlv(#[trigger] b[i]) by {
        assert(b.contains(b[i]));
        assert(a.to_multiset().count(b[i]) > 0);
        assert(a.contains(b[i]));
    }
    lemma_open_tlv(0x31, a.flatten());
    lemma_open_tlv(0x31, b.flatten());
    if !ascending(a) {
        lemma_elements_out_of_order(a, None);
    }
    if !ascending(b) {
        lemma_elements_out_of_order(b, None);
    }
    if ascending(a) && ascending(b) {
        lemma_ascending_sorted(a);
        lemma_ascending_sorted(b);
        lemma_octet_order_total();
        lemma_sorted_unique(a, b, octet_order());
    }
}

/// An element whose length field is one octet longer than the shortest is
/// refused as malformed, wherever an element with that identifier is
/// opened.
pub proof fn lemma_open_padded_length(tag: u8, n: nat, rest: Seq<u8>)
    requires
        valid_tag(tag),
        n <= max_length(),
    ensures
        spec_open(seq![tag] + spec_padded_length_field(n) + rest, tag) == Err::<Seq<u8>, Error>(
            Error::MalformedLength,
        ),
{
    lemma_padded_length_refused(tag, n, rest);
    let s = seq![tag] + spec_padded_length_field(n) + rest;
    assert(s[0] == tag);
}

/// A `SignedData`, a `SignerInfo` or a `ContentInfo` whose outer length
/// field is one octet longer than the shortest is refused as malformed.
pub proof fn lemma_padded_length(n: nat, rest: Seq<u8>)
    requires
        n <= max_length(),
    ensures
        SignedData::spec_decode(seq![0x30u8] + spec_padded_length_field(n) + rest) == Err::<
            <SignedData as View>::V,
            Error,
        >(Error::MalformedLength),
        SignerInfo::spec_decode(seq![0x30u8] + spec_padded_length_field(n) + rest) == Err::<
            <SignerInfo as View>::V,
            Error,
        >(Error::MalformedLength),
        ContentInfo::spec_decode(seq![0x30u8] + spec_padded_length_field(n) + rest) == Err::<
            <ContentInfo as View>::V,
            Error,
        >(Error::MalformedLength),
{
    lemma_open_padded_length(0x30, n, rest);
}

/// An element cut short anywhere behind its identifier is refused as
/// malformed, wherever an element with that identifier is opened: its
/// length field is incomplete or states more than is left.
pub proof fn lemma_open_truncated(tag: u8, content: Seq<u8>, j: int)
    requires
        valid_tag(tag),
        content.len() <= max_length(),
        1 <= j < spec_tlv(tag, content).len(),
    ensures
        spec_open(spec_tlv(tag, content).take(j), tag) == Err::<Seq<u8>, Error>(
            Error::MalformedLength,
        ),
{
    lemma_truncated_refused(tag, content, j);
    assert(spec_tlv(tag, content).take(j)[0] == tag);
}

/// A `SignedData` cut short anywhere behind its first octet is refused as
/// malformed.
pub proof fn lemma_signed_data_truncated(v: <SignedData as View>::V, j: int)
    requires
        SignedData::spec_valid(v),
        1 <= j < SignedData::spec_encode(v).len(),
    ensures
        SignedData::spec_decode(SignedData::spec_encode(v).take(j)) == Err::<
            <SignedData as View>::V,
            Error,
        >(Error::MalformedLength),
{
    lemma_open_truncated(0x30, SignedData::spec_content(v), j);
}

/// An INTEGER other than 0 to 5 in one octet is no version.
pub proof fn lemma_version_out_of_range(content: Seq<u8>)
    requires
        content.len() <= max_length(),
        !(content.len() == 1 && content[0] <= 5),
    ensures
        CmsVersion::spec_decode(spec_tlv(0x02, content)) == Err::<CmsVersion, Error>(
            Error::InvalidVersion,
        ),
{
    lemma_open_tlv(0x02, content);
}

/// A version is encoded as the INTEGER it stands for, and an element
/// decodes to a version exactly where it decodes to an INTEGER from 0 to 5:
/// what is no INTEGER, or another INTEGER, is no version.
pub proof fn lemma_version_is_integer(v: CmsVersion, s: Seq<u8>)
    ensures
        CmsVersion::spec_encode(v) == Integer::spec_encode(v.spec_number() as int),
        CmsVersion::spec_decode(s) == (match Integer::spec_decode(s) {
            Ok(n) => if 0 <= n <= 5 {
                Ok(CmsVersion::spec_from_number(n as u8)->Some_0)
            } else {
                Err(Error::InvalidVersion)
            },
            Err(e) => if e == Error::InvalidValue {
                Err(Error::InvalidVersion)
            } else {
                Err(e)
            },
        }),
{
    assert(signed_octets(v.spec_number() as int) =~= seq![v.spec_number()]);
    if spec_open(s, 0x02) is Ok {
        let content = spec_open(s, 0x02)->Ok_0;
        if minimal(content) && content.len() >= 2 {
            lemma_signed_value_large(content);
        }
    }
}

/// An optional field that is absent takes no octet.
pub proof fn lemma_absent_field<T: Codec>(mode: Tagging)
    ensures
        spec_wrap_optional::<T>(mode, None) == Seq::<u8>::empty(),
{
}

/// Explicit tagging wraps the value's own encoding, unchanged, in an
/// element with the outer identifier.
pub proof fn lemma_explicit_tagging<T: Codec>(outer: u8, v: T::V)
    requires
        valid_tag(outer),
        spec_wrap_valid::<T>(Tagging::Explicit(outer), v),
    ensures
        spec_wrap::<T>(Tagging::Explicit(outer), v) == spec_tlv(outer, T::spec_encode(v)),
        spec_wrap::<T>(Tagging::Explicit(outer), v)[0] == outer,
        tlv_content(spec_wrap::<T>(Tagging::Explicit(outer), v)) == T::spec_encode(v),
{
    let enc = T::spec_encode(v);
    lemma_split_tlv(outer, enc, Seq::empty());
    assert(spec_tlv(outer, enc) + Seq::<u8>::empty() =~= spec_tlv(outer, enc));
}

/// Implicit tagging puts the outer identifier in the place of the value's
/// own and keeps length and content.
pub proof fn lemma_implicit_tagging<T: Codec>(outer: u8, natural: u8, v: T::V)
    requires
        spec_fits::<T>(Tagging::Implicit(outer, natural)),
        T::spec_valid(v),
    ensures
        T::spec_encode(v) == spec_tlv(natural, tlv_content(T::spec_encode(v))),
        spec_wrap::<T>(Tagging::Implicit(outer, natural), v) == spec_tlv(
            outer,
            tlv_content(T::spec_encode(v)),
        ),
{
    let enc = T::spec_encode(v);
    T::lemma_encode(v);
    lemma_split_canonical(enc);
    let (content, rest) = spec_split(enc)->Ok_0;
    assert(enc =~= spec_tlv(enc[0], content));
    assert(enc.update(0, outer) =~= spec_tlv(outer, content));
}

/// The content of a SET OF holds the encodings of the elements, each as
/// often as it is among them, in strictly ascending octet order.
pub proof fn lemma_set_encoding<T: Codec>(vs: Seq<T::V>)
    requires
        SetOf::<T>::spec_valid(vs),
    ensures
        SetOf::<T>::spec_encode(vs) == spec_tlv(
            0x31,
            spec_sorted(spec_encodings::<T>(vs)).flatten(),
        ),
        ascending(spec_sorted(spec_encodings::<T>(vs))),
        spec_sorted(spec_encodings::<T>(vs)).to_multiset() == spec_encodings::<T>(
            vs,
        ).to_multiset(),
{
    lemma_sorted(spec_encodings::<T>(vs));
    lemma_sorted_ascending(spec_sorted(spec_encodings::<T>(vs)));
}

/// What the walk refuses inside an element that another crate owns, the
/// library refuses of the element, with the walk's error and before the
/// other crate is asked.
pub proof fn lemma_inside_refused(content: Seq<u8>)
    requires
        content.len() <= max_length(),
        spec_framing(content, false, None, max_depth()) is Err,
    ensures
        Name::spec_decode(spec_tlv(0x30, content)) == Err::<Seq<u8>, Error>(
            spec_framing(content, false, None, max_depth())->Err_0,
        ),
        AlgorithmIdentifier::spec_decode(spec_tlv(0x30, content)) == Err::<Seq<u8>, Error>(
            spec_framing(content, false, None, max_depth())->Err_0,
        ),
        Certificate::spec_decode(spec_tlv(0x30, content)) == Err::<Seq<u8>, Error>(
            spec_framing(content, false, None, max_depth())->Err_0,
        ),
        CertificateList::spec_decode(spec_tlv(0x30, content)) == Err::<Seq<u8>, Error>(
            spec_framing(content, false, None, max_depth())->Err_0,
        ),
{
    lemma_open_tlv(0x30, content);
}

/// What the walk refuses among or inside the attributes of a set of them,
/// the library refuses of the set, with the walk's error.
pub proof fn lemma_inside_attributes_refused(content: Seq<u8>)
    requires
        content.len() <= max_length(),
        spec_framing(content, true, None, max_depth()) is Err,
    ensures
        Attributes::spec_decode(spec_tlv(0x31, content)) == Err::<Seq<u8>, Error>(
            spec_framing(content, true, None, max_depth())->Err_0,
        ),
{
    lemma_open_tlv(0x31, content);
}

/// What the walk refuses inside a constructed element of the open type,
/// the library refuses of the element, with the walk's error.
pub proof fn lemma_inside_any_refused(tag: u8, content: Seq<u8>)
    requires
        valid_tag(tag),
        constructed(tag),
        content.len() <= max_length(),
        spec_framing(content, tag == 0x31, None, max_depth()) is Err,
    ensures
        Any::spec_decode(spec_tlv(tag, content)) == Err::<AnyView, Error>(
            spec_framing(content, tag == 0x31, None, max_depth())->Err_0,
        ),
{
    lemma_split_tlv(tag, content, Seq::empty());
    assert(spec_tlv(tag, content) + Seq::<u8>::empty() =~= spec_tlv(tag, content));
}

/// A signer identifier whose issuer starts with a relative distinguished
/// name that has a length field of one octet too many is refused as
/// malformed, whatever the name and the identifier go on with.
pub proof fn lemma_signer_identifier_padded_inside_issuer(n: nat, tail: Seq<u8>, rest: Seq<u8>)
    requires
        n <= max_length(),
        (seq![0x31u8] + spec_padded_length_field(n) + tail).len() <= max_length(),
        (spec_tlv(0x30, seq![0x31u8] + spec_padded_length_field(n) + tail) + rest).len()
            <= max_length(),
    ensures
        SignerIdentifier::spec_decode(
            spec_tlv(
                0x30,
                spec_tlv(0x30, seq![0x31u8] + spec_padded_length_field(n) + tail) + rest,
            ),
        ) == Err::<SignerIdentifierView, Error>(Error::MalformedLength),
{
    let inside = seq![0x31u8] + spec_padded_length_field(n) + tail;
    let name = spec_tlv(0x30, inside);
    let c = name + rest;
    let s = spec_tlv(0x30, c);
    lemma_framing_padded_length(0x31, n, tail, false, None, max_depth());
    lemma_inside_refused(inside);
    lemma_split_tlv(0x30, inside, rest);
    lemma_open_tlv(0x30, c);
    lemma_split_tlv(0x30, c, Seq::empty());
    assert(s + Seq::<u8>::empty() =~= s);
    assert(spec_field::<Name>(Tagging::Natural, c) == Err::<
        (Seq<u8>, Seq<u8>),
        Error,
    >(Error::MalformedLength));
    assert(IssuerAndSerialNumber::spec_decode(s) == Err::<
        <IssuerAndSerialNumber as View>::V,
        Error,
    >(Error::MalformedLength));
}

} // verus!
