//! What every schema type offers, and how a field of a SEQUENCE is read and
//! written with its tagging.
use vstd::prelude::*;
use vstd::slice::slice_subrange;
use crate::error::Error;
use crate::tlv::{
    append, encode_tlv, is_tlv, lemma_split_canonical, lemma_split_tlv, max_length, spec_first,
    spec_split, spec_tlv, split, tlv_content, valid_tag,
};

verus! {

/// A type with a canonical encoding as one element.
///
/// A value is *valid* where it can be encoded, and *canonical* where it is
/// the very value that decoding its encoding gives back: a SET OF whose
/// elements are held in another order than the octet order is valid and not
/// canonical.
pub trait Codec: Sized + View {
    /// Whether the encoding of a value of this type can start with `tag`.
    spec fn spec_tag(tag: u8) -> bool;

    /// Whether `v` can be encoded.
    spec fn spec_valid(v: Self::V) -> bool;

    /// Whether `v` holds every SET OF inside it in octet order.
    spec fn spec_canonical(v: Self::V) -> bool;

    /// The encoding of `v`.
    spec fn spec_encode(v: Self::V) -> Seq<u8>;

    /// The value that `s` is the encoding of, or why it is none.
    spec fn spec_decode(s: Seq<u8>) -> Result<Self::V, Error>;

    /// The encoding of a valid value is exactly one element, and starts with
    /// a tag of the type.
    proof fn lemma_encode(v: Self::V)
        requires
            Self::spec_valid(v),
        ensures
            is_tlv(Self::spec_encode(v)),
            Self::spec_tag(Self::spec_encode(v)[0]),
    ;

    /// The encoding of a valid value decodes, and to that value where it is
    /// canonical.
    proof fn lemma_roundtrip(v: Self::V)
        requires
            Self::spec_valid(v),
        ensures
            Self::spec_decode(Self::spec_encode(v)) is Ok,
            Self::spec_canonical(v) ==> Self::spec_decode(Self::spec_encode(v)) == Ok::<
                Self::V,
                Error,
            >(v),
    ;

    /// What decodes is the encoding of the value it decodes to, and of no
    /// other octet string is that value the result.
    proof fn lemma_canonical(s: Seq<u8>)
        requires
            Self::spec_decode(s) is Ok,
        ensures
            Self::spec_valid(Self::spec_decode(s)->Ok_0),
            Self::spec_canonical(Self::spec_decode(s)->Ok_0),
            Self::spec_encode(Self::spec_decode(s)->Ok_0) == s,
    ;

    /// Whether the encoding of a value of this type can start with `tag`.
    fn accepts_tag(tag: u8) -> (r: bool)
        ensures
            r == Self::spec_tag(tag),
    ;

    /// Encodes the value. Fails on a value that is not valid, and only
    /// there.
    fn encode(&self) -> (r: Result<Vec<u8>, Error>)
        ensures
            match r {
                Ok(bytes) => Self::spec_valid(self@) && bytes@ == Self::spec_encode(self@),
                Err(e) => !Self::spec_valid(self@) && e == Error::InvalidValue,
            },
    ;

    /// Decodes the whole of `s` as one value.
    fn decode(s: &[u8]) -> (r: Result<Self, Error>)
        ensures
            match r {
                Ok(v) => Self::spec_decode(s@) == Ok::<Self::V, Error>(v@),
                Err(e) => Self::spec_decode(s@) == Err::<Self::V, Error>(e),
            },
    ;
}

/// The content of `s` where `s` is exactly one element with identifier
/// `tag`.
pub open spec fn spec_open(s: Seq<u8>, tag: u8) -> Result<Seq<u8>, Error> {
    if s.len() == 0 {
        Err(Error::MissingField)
    } else if s[0] != tag {
        Err(Error::UnexpectedTag)
    } else {
        match spec_split(s) {
            Err(e) => Err(e),
            Ok((content, rest)) => if rest.len() > 0 {
                Err(Error::TrailingData)
            } else {
                Ok(content)
            },
        }
    }
}

/// Where the content of `s` starts, where `s` is exactly one element with
/// identifier `tag`: the content runs from there to the end of `s`.
pub fn open(s: &[u8], tag: u8) -> (r: Result<usize, Error>)
    ensures
        match r {
            Ok(start) => start <= s@.len() && spec_open(s@, tag) == Ok::<Seq<u8>, Error>(
                s@.skip(start as int),
            ),
            Err(e) => spec_open(s@, tag) == Err::<Seq<u8>, Error>(e),
        },
{
    if s.len() == 0 {
        return Err(Error::MissingField);
    }
    if s[0] != tag {
        return Err(Error::UnexpectedTag);
    }
    match split(s) {
        Err(e) => Err(e),
        Ok((start, end)) => {
            if end < s.len() {
                Err(Error::TrailingData)
            } else {
                assert(s@.subrange(start as int, end as int) =~= s@.skip(start as int));
                Ok(start)
            }
        },
    }
}

/// An element with a valid identifier opens to its content.
pub proof fn lemma_open_tlv(tag: u8, content: Seq<u8>)
    requires
        valid_tag(tag),
        content.len() <= max_length(),
    ensures
        spec_open(spec_tlv(tag, content), tag) == Ok::<Seq<u8>, Error>(content),
        is_tlv(spec_tlv(tag, content)),
        spec_tlv(tag, content)[0] == tag,
{
    lemma_split_tlv(tag, content, Seq::empty());
    assert(spec_tlv(tag, content) + Seq::<u8>::empty() =~= spec_tlv(tag, content));
}

/// What opens is the element of its identifier and content.
pub proof fn lemma_open_canonical(s: Seq<u8>, tag: u8)
    requires
        spec_open(s, tag) is Ok,
    ensures
        s == spec_tlv(tag, spec_open(s, tag)->Ok_0),
        valid_tag(tag),
        spec_open(s, tag)->Ok_0.len() <= max_length(),
{
    lemma_split_canonical(s);
    let (content, rest) = spec_split(s)->Ok_0;
    assert(spec_tlv(tag, content) + rest =~= spec_tlv(tag, content));
}

/// How a field of a SEQUENCE, or a variant of a CHOICE, is tagged.
#[derive(Clone, Copy, Debug, PartialEq, Eq, Structural)]
pub enum Tagging {
    /// The value's own encoding stands as it is.
    Natural,
    /// The value's encoding is the content of an element with the given
    /// identifier.
    Explicit(u8),
    /// The first identifier stands in place of the value's own, which is the
    /// second; length and content are the value's.
    Implicit(u8, u8),
}

/// The view of an optional field.
pub open spec fn option_view<T: View>(o: Option<T>) -> Option<T::V> {
    match o {
        Some(v) => Some(v@),
        None => None,
    }
}

/// Whether `mode` is a tagging that the type `T` can stand under.
pub open spec fn spec_fits<T: Codec>(mode: Tagging) -> bool {
    match mode {
        Tagging::Natural => true,
        Tagging::Explicit(tag) => valid_tag(tag),
        Tagging::Implicit(tag, natural) => valid_tag(tag) && forall|t: u8|
            #[trigger] T::spec_tag(t) ==> t == natural,
    }
}

/// Whether a field of type `T` tagged by `mode` can start with `tag`.
pub open spec fn spec_starts<T: Codec>(mode: Tagging, tag: u8) -> bool {
    match mode {
        Tagging::Natural => T::spec_tag(tag),
        Tagging::Explicit(outer) => tag == outer,
        Tagging::Implicit(outer, _) => tag == outer,
    }
}

/// Whether `v` can be encoded under `mode`.
pub open spec fn spec_wrap_valid<T: Codec>(mode: Tagging, v: T::V) -> bool {
    &&& T::spec_valid(v)
    &&& mode is Explicit ==> T::spec_encode(v).len() <= max_length()
}

/// The encoding of `v` under `mode`.
pub open spec fn spec_wrap<T: Codec>(mode: Tagging, v: T::V) -> Seq<u8> {
    match mode {
        Tagging::Natural => T::spec_encode(v),
        Tagging::Explicit(outer) => spec_tlv(outer, T::spec_encode(v)),
        Tagging::Implicit(outer, _) => T::spec_encode(v).update(0, outer),
    }
}

/// The value that the element `elem`, which starts as `mode` asks, holds.
pub open spec fn spec_unwrap<T: Codec>(mode: Tagging, elem: Seq<u8>) -> Result<T::V, Error> {
    match mode {
        Tagging::Natural => T::spec_decode(elem),
        Tagging::Explicit(_) => T::spec_decode(tlv_content(elem)),
        Tagging::Implicit(_, natural) => T::spec_decode(elem.update(0, natural)),
    }
}

/// Reads a mandatory field at the start of `s`: its value and what follows
/// it. Where `s` is empty or starts with another tag, the field is missing.
pub open spec fn spec_field<T: Codec>(mode: Tagging, s: Seq<u8>) -> Result<
    (T::V, Seq<u8>),
    Error,
> {
    if s.len() == 0 || !spec_starts::<T>(mode, s[0]) {
        Err(Error::MissingField)
    } else {
        match spec_first(s) {
            Err(e) => Err(e),
            Ok((elem, rest)) => match spec_unwrap::<T>(mode, elem) {
                Err(e) => Err(e),
                Ok(v) => Ok((v, rest)),
            },
        }
    }
}

/// Reads an optional field at the start of `s`. Where `s` is empty or
/// starts with another tag, the field is absent and nothing is consumed.
pub open spec fn spec_optional<T: Codec>(mode: Tagging, s: Seq<u8>) -> Result<
    (Option<T::V>, Seq<u8>),
    Error,
> {
    if s.len() == 0 || !spec_starts::<T>(mode, s[0]) {
        Ok((None, s))
    } else {
        match spec_field::<T>(mode, s) {
            Err(e) => Err(e),
            Ok((v, rest)) => Ok((Some(v), rest)),
        }
    }
}

/// Whether the optional value `o` can be encoded under `mode`.
pub open spec fn spec_wrap_optional_valid<T: Codec>(mode: Tagging, o: Option<T::V>) -> bool {
    o matches Some(v) ==> spec_wrap_valid::<T>(mode, v)
}

/// The encoding of an optional field: nothing where it is absent.
pub open spec fn spec_wrap_optional<T: Codec>(mode: Tagging, o: Option<T::V>) -> Seq<u8> {
    match o {
        Some(v) => spec_wrap::<T>(mode, v),
        None => Seq::empty(),
    }
}

/// Whether the optional value `o` is absent or canonical.
pub open spec fn spec_optional_canonical<T: Codec>(o: Option<T::V>) -> bool {
    o matches Some(v) ==> T::spec_canonical(v)
}

/// A field's encoding is exactly one element and starts as its tagging
/// asks.
pub proof fn lemma_wrap<T: Codec>(mode: Tagging, v: T::V)
    requires
        spec_fits::<T>(mode),
        spec_wrap_valid::<T>(mode, v),
    ensures
        is_tlv(spec_wrap::<T>(mode, v)),
        spec_wrap::<T>(mode, v).len() >= 2,
        spec_starts::<T>(mode, spec_wrap::<T>(mode, v)[0]),
{
    T::lemma_encode(v);
    let enc = T::spec_encode(v);
    lemma_split_canonical(enc);
    let (content, rest) = spec_split(enc)->Ok_0;
    assert(enc =~= spec_tlv(enc[0], content));
    match mode {
        Tagging::Natural => {},
        Tagging::Explicit(outer) => {
            lemma_open_tlv(outer, enc);
            lemma_split_canonical(spec_tlv(outer, enc));
        },
        Tagging::Implicit(outer, natural) => {
            assert(enc.update(0, outer) =~= spec_tlv(outer, content));
            lemma_open_tlv(outer, content);
        },
    }
}

/// A field's encoding, followed by anything, reads back as what the
/// encoding of the value decodes to, which is the value where it is
/// canonical, and leaves what followed.
pub proof fn lemma_field_roundtrip<T: Codec>(mode: Tagging, v: T::V, rest: Seq<u8>)
    requires
        spec_fits::<T>(mode),
        spec_wrap_valid::<T>(mode, v),
    ensures
        spec_field::<T>(mode, spec_wrap::<T>(mode, v) + rest) is Ok,
        spec_field::<T>(mode, spec_wrap::<T>(mode, v) + rest)->Ok_0.1 == rest,
        T::spec_canonical(v) ==> spec_field::<T>(mode, spec_wrap::<T>(mode, v) + rest)->Ok_0.0
            == v,
        spec_optional::<T>(mode, spec_wrap::<T>(mode, v) + rest) is Ok,
        spec_optional::<T>(mode, spec_wrap::<T>(mode, v) + rest)->Ok_0.1 == rest,
        spec_optional::<T>(mode, spec_wrap::<T>(mode, v) + rest)->Ok_0.0 is Some,
        T::spec_canonical(v) ==> spec_optional::<T>(
            mode,
            spec_wrap::<T>(mode, v) + rest,
        )->Ok_0.0 == Some(v),
        spec_field::<T>(mode, spec_wrap::<T>(mode, v) + rest)->Ok_0.0 == T::spec_decode(
            T::spec_encode(v),
        )->Ok_0,
        spec_optional::<T>(mode, spec_wrap::<T>(mode, v) + rest)->Ok_0.0 == Some(
            T::spec_decode(T::spec_encode(v))->Ok_0,
        ),
{
    lemma_wrap::<T>(mode, v);
    T::lemma_encode(v);
    T::lemma_roundtrip(v);
    let enc = T::spec_encode(v);
    let w = spec_wrap::<T>(mode, v);
    let s = w + rest;
    lemma_split_canonical(w);
    let (wc, wr) = spec_split(w)->Ok_0;
    assert(w =~= spec_tlv(w[0], wc));
    lemma_split_tlv(w[0], wc, rest);
    assert(spec_first(s) == Ok::<(Seq<u8>, Seq<u8>), Error>((w, rest)));
    assert(s[0] == w[0]);
    match mode {
        Tagging::Natural => {},
        Tagging::Explicit(outer) => {
            lemma_split_tlv(outer, enc, Seq::empty());
            assert(spec_tlv(outer, enc) + Seq::<u8>::empty() =~= w);
            assert(tlv_content(w) == enc);
        },
        Tagging::Implicit(outer, natural) => {
            assert(w.update(0, natural) =~= enc);
        },
    }
}

/// A field that reads is valid and canonical, and the input is its encoding
/// followed by what was left.
pub proof fn lemma_field_canonical<T: Codec>(mode: Tagging, s: Seq<u8>)
    requires
        spec_field::<T>(mode, s) is Ok,
    ensures
        spec_wrap_valid::<T>(mode, spec_field::<T>(mode, s)->Ok_0.0),
        T::spec_canonical(spec_field::<T>(mode, s)->Ok_0.0),
        s == spec_wrap::<T>(mode, spec_field::<T>(mode, s)->Ok_0.0) + spec_field::<T>(
            mode,
            s,
        )->Ok_0.1,
{
    let (v, rest) = spec_field::<T>(mode, s)->Ok_0;
    let (elem, rest2) = spec_first(s)->Ok_0;
    lemma_split_canonical(s);
    let (content, rest3) = spec_split(s)->Ok_0;
    assert(elem == spec_tlv(s[0], content));
    match mode {
        Tagging::Natural => {
            T::lemma_canonical(elem);
        },
        Tagging::Explicit(outer) => {
            lemma_split_tlv(outer, content, Seq::empty());
            assert(elem + Seq::<u8>::empty() =~= elem);
            assert(tlv_content(elem) == content);
            T::lemma_canonical(content);
        },
        Tagging::Implicit(outer, natural) => {
            T::lemma_canonical(elem.update(0, natural));
            assert(elem.update(0, natural).update(0, outer) =~= elem);
        },
    }
}

/// An optional field that reads is absent, and nothing was consumed, or it
/// is valid and canonical and the input is its encoding followed by what was
/// left.
pub proof fn lemma_optional_canonical<T: Codec>(mode: Tagging, s: Seq<u8>)
    requires
        spec_optional::<T>(mode, s) is Ok,
    ensures
        spec_wrap_optional_valid::<T>(mode, spec_optional::<T>(mode, s)->Ok_0.0),
        spec_optional_canonical::<T>(spec_optional::<T>(mode, s)->Ok_0.0),
        s == spec_wrap_optional::<T>(mode, spec_optional::<T>(mode, s)->Ok_0.0)
            + spec_optional::<T>(mode, s)->Ok_0.1,
        spec_optional::<T>(mode, s)->Ok_0.0 is None ==> s.len() == 0 || !spec_starts::<T>(
            mode,
            s[0],
        ),
{
    if s.len() == 0 || !spec_starts::<T>(mode, s[0]) {
        assert(Seq::<u8>::empty() + s =~= s);
    } else {
        lemma_field_canonical::<T>(mode, s);
    }
}

/// Whether a field of type `T` tagged by `mode` can start with `tag`.
pub fn starts<T: Codec>(mode: Tagging, tag: u8) -> (r: bool)
    ensures
        r == spec_starts::<T>(mode, tag),
{
    match mode {
        Tagging::Natural => T::accepts_tag(tag),
        Tagging::Explicit(outer) => tag == outer,
        Tagging::Implicit(outer, _) => tag == outer,
    }
}

/// Reads a mandatory field at the start of `s`: its value and the number of
/// octets it took.
pub fn decode_field<T: Codec>(mode: Tagging, s: &[u8]) -> (r: Result<(T, usize), Error>)
    ensures
        match r {
            Ok((v, used)) => used <= s@.len() && spec_field::<T>(mode, s@) == Ok::<
                (T::V, Seq<u8>),
                Error,
            >((v@, s@.skip(used as int))),
            Err(e) => spec_field::<T>(mode, s@) == Err::<(T::V, Seq<u8>), Error>(e),
        },
{
    if s.len() == 0 || !starts::<T>(mode, s[0]) {
        return Err(Error::MissingField);
    }
    match split(s) {
        Err(e) => Err(e),
        Ok((start, end)) => {
            let elem = slice_subrange(s, 0, end);
            proof {
                lemma_split_canonical(s@);
                assert(s@.skip(end as int).len() == s@.len() - end);
                assert(elem@ =~= s@.take(s@.len() - s@.skip(end as int).len()));
            }
            let decoded = match mode {
                Tagging::Natural => T::decode(elem),
                Tagging::Explicit(_) => {
                    proof {
                        let content = s@.subrange(start as int, end as int);
                        lemma_split_tlv(s@[0], content, Seq::empty());
                        assert(elem@ + Seq::<u8>::empty() =~= elem@);
                    }
                    T::decode(slice_subrange(s, start, end))
                },
                Tagging::Implicit(_, natural) => {
                    let mut copy: Vec<u8> = Vec::new();
                    copy.push(natural);
                    append(&mut copy, slice_subrange(s, 1, end));
                    assert(copy@ =~= elem@.update(0, natural));
                    T::decode(copy.as_slice())
                },
            };
            match decoded {
                Err(e) => Err(e),
                Ok(v) => Ok((v, end)),
            }
        },
    }
}

/// Reads an optional field at the start of `s`: its value, if it is there,
/// and the number of octets it took.
pub fn decode_optional<T: Codec>(mode: Tagging, s: &[u8]) -> (r: Result<
    (Option<T>, usize),
    Error,
>)
    ensures
        match r {
            Ok((v, used)) => used <= s@.len() && spec_optional::<T>(mode, s@) == Ok::<
                (Option<T::V>, Seq<u8>),
                Error,
            >((option_view(v), s@.skip(used as int))),
            Err(e) => spec_optional::<T>(mode, s@) == Err::<(Option<T::V>, Seq<u8>), Error>(e),
        },
{
    if s.len() == 0 || !starts::<T>(mode, s[0]) {
        assert(s@.skip(0) =~= s@);
        return Ok((None, 0));
    }
    match decode_field::<T>(mode, s) {
        Err(e) => Err(e),
        Ok((v, used)) => Ok((Some(v), used)),
    }
}

/// Appends the encoding of `v` under `mode` to `out`. Fails where `v` is not
/// valid, and only there, and then leaves `out` as it was.
pub fn encode_field<T: Codec>(mode: Tagging, v: &T, out: &mut Vec<u8>) -> (r: Result<(), Error>)
    ensures
        match r {
            Ok(_) => spec_wrap_valid::<T>(mode, v@) && final(out)@ == old(out)@ + spec_wrap::<T>(
                mode,
                v@,
            ),
            Err(e) => !T::spec_valid(v@) && e == Error::InvalidValue && final(out)@ == old(out)@,
        },
{
    match v.encode() {
        Err(e) => Err(e),
        Ok(bytes) => {
            match mode {
                Tagging::Natural => {
                    append(out, bytes.as_slice());
                },
                Tagging::Explicit(outer) => {
                    let wrapped = encode_tlv(outer, bytes.as_slice());
                    append(out, wrapped.as_slice());
                },
                Tagging::Implicit(outer, _) => {
                    proof {
                        T::lemma_encode(v@);
                        lemma_split_canonical(bytes@);
                    }
                    out.push(outer);
                    append(out, slice_subrange(bytes.as_slice(), 1, bytes.len()));
                    assert(final(out)@ =~= old(out)@ + bytes@.update(0, outer));
                },
            }
            Ok(())
        },
    }
}

/// Appends the encoding of the optional `v` under `mode` to `out`: nothing
/// where it is absent. Fails where `v` is there and not valid, and only
/// there, and then leaves `out` as it was.
pub fn encode_optional<T: Codec>(mode: Tagging, v: &Option<T>, out: &mut Vec<u8>) -> (r: Result<
    (),
    Error,
>)
    ensures
        match r {
            Ok(_) => spec_wrap_optional_valid::<T>(mode, option_view(*v)) && final(out)@ == old(
                out,
            )@ + spec_wrap_optional::<T>(mode, option_view(*v)),
            Err(e) => !spec_wrap_optional_valid::<T>(mode, option_view(*v)) && e
                == Error::InvalidValue && final(out)@ == old(out)@,
        },
{
    match v {
        None => {
            assert(out@ + Seq::<u8>::empty() =~= out@);
            Ok(())
        },
        Some(inner) => encode_field::<T>(mode, inner, out),
    }
}

/// Reads the whole of `s` as one value under `mode`.
pub open spec fn spec_exact<T: Codec>(mode: Tagging, s: Seq<u8>) -> Result<T::V, Error> {
    match spec_field::<T>(mode, s) {
        Err(e) => Err(e),
        Ok((v, rest)) => if rest.len() > 0 {
            Err(Error::TrailingData)
        } else {
            Ok(v)
        },
    }
}

/// Reads the whole of `s` as one value under `mode`.
pub fn decode_exact<T: Codec>(mode: Tagging, s: &[u8]) -> (r: Result<T, Error>)
    ensures
        match r {
            Ok(v) => spec_exact::<T>(mode, s@) == Ok::<T::V, Error>(v@),
            Err(e) => spec_exact::<T>(mode, s@) == Err::<T::V, Error>(e),
        },
{
    match decode_field::<T>(mode, s) {
        Err(e) => Err(e),
        Ok((v, used)) => {
            if used < s.len() {
                Err(Error::TrailingData)
            } else {
                Ok(v)
            }
        },
    }
}

/// The encoding of a value under `mode`, read as a whole, gives the value
/// back.
pub proof fn lemma_exact_roundtrip<T: Codec>(mode: Tagging, v: T::V)
    requires
        spec_fits::<T>(mode),
        spec_wrap_valid::<T>(mode, v),
    ensures
        spec_exact::<T>(mode, spec_wrap::<T>(mode, v)) is Ok,
        T::spec_canonical(v) ==> spec_exact::<T>(mode, spec_wrap::<T>(mode, v)) == Ok::<
            T::V,
            Error,
        >(v),
{
    lemma_field_roundtrip::<T>(mode, v, Seq::empty());
    assert(spec_wrap::<T>(mode, v) + Seq::<u8>::empty() =~= spec_wrap::<T>(mode, v));
}

/// What reads as a whole under `mode` is the encoding of the value it reads
/// as.
pub proof fn lemma_exact_canonical<T: Codec>(mode: Tagging, s: Seq<u8>)
    requires
        spec_exact::<T>(mode, s) is Ok,
    ensures
        spec_wrap_valid::<T>(mode, spec_exact::<T>(mode, s)->Ok_0),
        T::spec_canonical(spec_exact::<T>(mode, s)->Ok_0),
        s == spec_wrap::<T>(mode, spec_exact::<T>(mode, s)->Ok_0),
{
    lemma_field_canonical::<T>(mode, s);
    let (v, rest) = spec_field::<T>(mode, s)->Ok_0;
    assert(spec_wrap::<T>(mode, v) + rest =~= spec_wrap::<T>(mode, v));
}

/// The encoding of an optional field, followed by anything that an absent
/// field could not be taken for, reads back as the field and leaves what
/// followed.
pub proof fn lemma_optional_roundtrip<T: Codec>(mode: Tagging, o: Option<T::V>, rest: Seq<u8>)
    requires
        spec_fits::<T>(mode),
        spec_wrap_optional_valid::<T>(mode, o),
        o is None ==> rest.len() == 0 || !spec_starts::<T>(mode, rest[0]),
    ensures
        spec_optional::<T>(mode, spec_wrap_optional::<T>(mode, o) + rest) is Ok,
        spec_optional::<T>(mode, spec_wrap_optional::<T>(mode, o) + rest)->Ok_0.1 == rest,
        spec_optional::<T>(mode, spec_wrap_optional::<T>(mode, o) + rest)->Ok_0.0 is Some
            <==> o is Some,
        spec_optional_canonical::<T>(o) ==> spec_optional::<T>(
            mode,
            spec_wrap_optional::<T>(mode, o) + rest,
        )->Ok_0.0 == o,
        o is Some ==> spec_optional::<T>(mode, spec_wrap_optional::<T>(mode, o) + rest)->Ok_0.0
            == Some(T::spec_decode(T::spec_encode(o->Some_0))->Ok_0),
{
    match o {
        Some(v) => {
            lemma_field_roundtrip::<T>(mode, v, rest);
        },
        None => {
            assert(Seq::<u8>::empty() + rest =~= rest);
        },
    }
}

/// The encoding of an optional field starts as its tagging asks, where the
/// field is there.
pub proof fn lemma_wrap_optional<T: Codec>(mode: Tagging, o: Option<T::V>)
    requires
        spec_fits::<T>(mode),
        spec_wrap_optional_valid::<T>(mode, o),
    ensures
        o is Some ==> spec_wrap_optional::<T>(mode, o).len() >= 2 && spec_starts::<T>(
            mode,
            spec_wrap_optional::<T>(mode, o)[0],
        ),
        o is None ==> spec_wrap_optional::<T>(mode, o).len() == 0,
{
    if let Some(v) = o {
        lemma_wrap::<T>(mode, v);
    }
}

/// Seven strings appended one after the other to nothing are the first
/// followed by the rest.
pub proof fn lemma_join7(
    a: Seq<u8>,
    b: Seq<u8>,
    c: Seq<u8>,
    d: Seq<u8>,
    e: Seq<u8>,
    f: Seq<u8>,
    g: Seq<u8>,
)
    ensures
        Seq::<u8>::empty() + a + b + c + d + e + f + g == a + (b + (c + (d + (e + (f + g))))),
{
    assert(Seq::<u8>::empty() + a + b + c + d + e + f + g =~= a + (b + (c + (d + (e + (f
        + g))))));
}

/// Six strings appended one after the other to nothing are the first
/// followed by the rest.
pub proof fn lemma_join6(a: Seq<u8>, b: Seq<u8>, c: Seq<u8>, d: Seq<u8>, e: Seq<u8>, f: Seq<u8>)
    ensures
        Seq::<u8>::empty() + a + b + c + d + e + f == a + (b + (c + (d + (e + f)))),
{
    assert(Seq::<u8>::empty() + a + b + c + d + e + f =~= a + (b + (c + (d + (e + f)))));
}

/// Reads a mandatory field of a CHOICE or open type at the start of `s`:
/// its value and what follows it. Where `s` is empty the field is missing;
/// where it starts with a tag that the type does not know, the tag is
/// unexpected.
pub open spec fn spec_choice_field<T: Codec>(s: Seq<u8>) -> Result<(T::V, Seq<u8>), Error> {
    if s.len() > 0 && !T::spec_tag(s[0]) {
        Err(Error::UnexpectedTag)
    } else {
        spec_field::<T>(Tagging::Natural, s)
    }
}

/// Reads a mandatory field of a CHOICE or open type at the start of `s`:
/// its value and the number of octets it took.
pub fn decode_choice_field<T: Codec>(s: &[u8]) -> (r: Result<(T, usize), Error>)
    ensures
        match r {
            Ok((v, used)) => used <= s@.len() && spec_choice_field::<T>(s@) == Ok::<
                (T::V, Seq<u8>),
                Error,
            >((v@, s@.skip(used as int))),
            Err(e) => spec_choice_field::<T>(s@) == Err::<(T::V, Seq<u8>), Error>(e),
        },
{
    if s.len() > 0 && !T::accepts_tag(s[0]) {
        return Err(Error::UnexpectedTag);
    }
    decode_field::<T>(Tagging::Natural, s)
}

/// Where a field of a CHOICE or open type reads, it reads as any other
/// field does.
pub proof fn lemma_choice_field<T: Codec>(s: Seq<u8>)
    ensures
        spec_field::<T>(Tagging::Natural, s) is Ok ==> spec_choice_field::<T>(s) == spec_field::<
            T,
        >(Tagging::Natural, s),
        spec_choice_field::<T>(s) is Ok ==> spec_choice_field::<T>(s) == spec_field::<T>(
            Tagging::Natural,
            s,
        ),
{
}

} // verus!
