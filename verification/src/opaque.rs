//! Values whose inner structure belongs to other crates.
//!
//! Each is held as the content octets of its one element. This library
//! frames the element and walks what lies inside it: every length field on
//! the way must be in its shortest form and every SET in octet order,
//! whatever the crate that owns the type would take. What the elements
//! mean is left to that crate: the value is valid where its decoder takes
//! the element.
use vstd::prelude::*;
use vstd::slice::{slice_subrange, slice_to_vec};
use crate::codec::{lemma_open_canonical, lemma_open_tlv, open, spec_open, Codec};
use crate::error::Error;
use crate::foreign::{
    algorithm_identifier_accepted, attributes_accepted, certificate_accepted,
    certificate_list_accepted, name_accepted, serial_number_accepted,
    spki_accepts_algorithm_identifier, x509_accepts_attributes, x509_accepts_certificate,
    x509_accepts_certificate_list, x509_accepts_name,
};
use crate::framing::{check_framing, max_depth, spec_framing};
use crate::integer::minimal;
use crate::tlv::{encode_tlv, max_length, spec_tlv};

verus! {

/// An algorithm with its parameters, as `spki` reads it.
///
/// ```text
/// AlgorithmIdentifier ::= SEQUENCE {
///     algorithm   OBJECT IDENTIFIER,
///     parameters  ANY DEFINED BY algorithm OPTIONAL }
/// ```
///
/// Held as the content octets of its SEQUENCE.
#[derive(Clone, Debug, PartialEq, Eq)]
pub struct AlgorithmIdentifier {
    pub content: Vec<u8>,
}

impl View for AlgorithmIdentifier {
    type V = Seq<u8>;

    open spec fn view(&self) -> Seq<u8> {
        self.content@
    }
}

impl Codec for AlgorithmIdentifier {
    open spec fn spec_tag(tag: u8) -> bool {
        tag == 0x30
    }

    open spec fn spec_valid(v: Seq<u8>) -> bool {
        &&& v.len() <= max_length()
        &&& spec_framing(v, false, None, max_depth()) is Ok
        &&& spki_accepts_algorithm_identifier(spec_tlv(0x30, v))
    }

    open spec fn spec_canonical(v: Seq<u8>) -> bool {
        true
    }

    open spec fn spec_encode(v: Seq<u8>) -> Seq<u8> {
        spec_tlv(0x30, v)
    }

    open spec fn spec_decode(s: Seq<u8>) -> Result<Seq<u8>, Error> {
        match spec_open(s, 0x30) {
            Err(e) => Err(e),
            Ok(content) => match spec_framing(content, false, None, max_depth()) {
                Err(e) => Err(e),
                Ok(_) => if spki_accepts_algorithm_identifier(s) {
                    Ok(content)
                } else {
                    Err(Error::InvalidValue)
                },
            },
        }
    }

    proof fn lemma_encode(v: Seq<u8>) {
        lemma_open_tlv(0x30, v);
    }

    proof fn lemma_roundtrip(v: Seq<u8>) {
        lemma_open_tlv(0x30, v);
    }

    proof fn lemma_canonical(s: Seq<u8>) {
        lemma_open_canonical(s, 0x30);
    }

    fn accepts_tag(tag: u8) -> (r: bool) {
        tag == 0x30
    }

    fn encode(&self) -> (r: Result<Vec<u8>, Error>) {
        let der = encode_tlv(0x30, self.content.as_slice());
        if check_framing(self.content.as_slice(), false, 64).is_err()
            || !algorithm_identifier_accepted(der.as_slice()) {
            return Err(Error::InvalidValue);
        }
        Ok(der)
    }

    fn decode(s: &[u8]) -> (r: Result<Self, Error>) {
        match open(s, 0x30) {
            Err(e) => Err(e),
            Ok(start) => {
                let content = slice_subrange(s, start, s.len());
                assert(content@ =~= s@.skip(start as int));
                match check_framing(content, false, 64) {
                    Err(e) => Err(e),
                    Ok(_) => {
                        if algorithm_identifier_accepted(s) {
                            Ok(AlgorithmIdentifier { content: slice_to_vec(content) })
                        } else {
                            Err(Error::InvalidValue)
                        }
                    },
                }
            },
        }
    }
}

/// A set of attributes, as `x509_cert` reads it, with at least one
/// attribute.
///
/// ```text
/// SignedAttributes ::= SET SIZE (1..MAX) OF Attribute
/// UnsignedAttributes ::= SET SIZE (1..MAX) OF Attribute
/// ```
///
/// Held as the content octets of its SET.
#[derive(Clone, Debug, PartialEq, Eq)]
pub struct Attributes {
    pub content: Vec<u8>,
}

impl View for Attributes {
    type V = Seq<u8>;

    open spec fn view(&self) -> Seq<u8> {
        self.content@
    }
}

impl Codec for Attributes {
    open spec fn spec_tag(tag: u8) -> bool {
        tag == 0x31
    }

    open spec fn spec_valid(v: Seq<u8>) -> bool {
        &&& v.len() <= max_length()
        &&& v.len() > 0
        &&& spec_framing(v, true, None, max_depth()) is Ok
        &&& x509_accepts_attributes(spec_tlv(0x31, v))
    }

    open spec fn spec_canonical(v: Seq<u8>) -> bool {
        true
    }

    open spec fn spec_encode(v: Seq<u8>) -> Seq<u8> {
        spec_tlv(0x31, v)
    }

    open spec fn spec_decode(s: Seq<u8>) -> Result<Seq<u8>, Error> {
        match spec_open(s, 0x31) {
            Err(e) => Err(e),
            Ok(content) => match spec_framing(content, true, None, max_depth()) {
                Err(e) => Err(e),
                Ok(_) => if content.len() > 0 && x509_accepts_attributes(s) {
                    Ok(content)
                } else {
                    Err(Error::InvalidValue)
                },
            },
        }
    }

    proof fn lemma_encode(v: Seq<u8>) {
        lemma_open_tlv(0x31, v);
    }

    proof fn lemma_roundtrip(v: Seq<u8>) {
        lemma_open_tlv(0x31, v);
    }

    proof fn lemma_canonical(s: Seq<u8>) {
        lemma_open_canonical(s, 0x31);
    }

    fn accepts_tag(tag: u8) -> (r: bool) {
        tag == 0x31
    }

    fn encode(&self) -> (r: Result<Vec<u8>, Error>) {
        let der = encode_tlv(0x31, self.content.as_slice());
        if self.content.len() == 0 || check_framing(self.content.as_slice(), true, 64).is_err()
            || !attributes_accepted(der.as_slice()) {
            return Err(Error::InvalidValue);
        }
        Ok(der)
    }

    fn decode(s: &[u8]) -> (r: Result<Self, Error>) {
        match open(s, 0x31) {
            Err(e) => Err(e),
            Ok(start) => {
                let content = slice_subrange(s, start, s.len());
                assert(content@ =~= s@.skip(start as int));
                match check_framing(content, true, 64) {
                    Err(e) => Err(e),
                    Ok(_) => {
                        if content.len() > 0 && attributes_accepted(s) {
                            Ok(Attributes { content: slice_to_vec(content) })
                        } else {
                            Err(Error::InvalidValue)
                        }
                    },
                }
            },
        }
    }
}

/// A distinguished name, as `x509_cert` reads it.
///
/// Held as the content octets of its SEQUENCE.
#[derive(Clone, Debug, PartialEq, Eq)]
pub struct Name {
    pub content: Vec<u8>,
}

impl View for Name {
    type V = Seq<u8>;

    open spec fn view(&self) -> Seq<u8> {
        self.content@
    }
}

impl Codec for Name {
    open spec fn spec_tag(tag: u8) -> bool {
        tag == 0x30
    }

    open spec fn spec_valid(v: Seq<u8>) -> bool {
        &&& v.len() <= max_length()
        &&& spec_framing(v, false, None, max_depth()) is Ok
        &&& x509_accepts_name(spec_tlv(0x30, v))
    }

    open spec fn spec_canonical(v: Seq<u8>) -> bool {
        true
    }

    open spec fn spec_encode(v: Seq<u8>) -> Seq<u8> {
        spec_tlv(0x30, v)
    }

    open spec fn spec_decode(s: Seq<u8>) -> Result<Seq<u8>, Error> {
        match spec_open(s, 0x30) {
            Err(e) => Err(e),
            Ok(content) => match spec_framing(content, false, None, max_depth()) {
                Err(e) => Err(e),
                Ok(_) => if x509_accepts_name(s) {
                    Ok(content)
                } else {
                    Err(Error::InvalidValue)
                },
            },
        }
    }

    proof fn lemma_encode(v: Seq<u8>) {
        lemma_open_tlv(0x30, v);
    }

    proof fn lemma_roundtrip(v: Seq<u8>) {
        lemma_open_tlv(0x30, v);
    }

    proof fn lemma_canonical(s: Seq<u8>) {
        lemma_open_canonical(s, 0x30);
    }

    fn accepts_tag(tag: u8) -> (r: bool) {
        tag == 0x30
    }

    fn encode(&self) -> (r: Result<Vec<u8>, Error>) {
        let der = encode_tlv(0x30, self.content.as_slice());
        if check_framing(self.content.as_slice(), false, 64).is_err()
            || !name_accepted(der.as_slice()) {
            return Err(Error::InvalidValue);
        }
        Ok(der)
    }

    fn decode(s: &[u8]) -> (r: Result<Self, Error>) {
        match open(s, 0x30) {
            Err(e) => Err(e),
            Ok(start) => {
                let content = slice_subrange(s, start, s.len());
                assert(content@ =~= s@.skip(start as int));
                match check_framing(content, false, 64) {
                    Err(e) => Err(e),
                    Ok(_) => {
                        if name_accepted(s) {
                            Ok(Name { content: slice_to_vec(content) })
                        } else {
                            Err(Error::InvalidValue)
                        }
                    },
                }
            },
        }
    }
}

/// An X.509 certificate, as `x509_cert` reads it.
///
/// Held as the content octets of its SEQUENCE.
#[derive(Clone, Debug, PartialEq, Eq)]
pub struct Certificate {
    pub content: Vec<u8>,
}

impl View for Certificate {
    type V = Seq<u8>;

    open spec fn view(&self) -> Seq<u8> {
        self.content@
    }
}

impl Codec for Certificate {
    open spec fn spec_tag(tag: u8) -> bool {
        tag == 0x30
    }

    open spec fn spec_valid(v: Seq<u8>) -> bool {
        &&& v.len() <= max_length()
        &&& spec_framing(v, false, None, max_depth()) is Ok
        &&& x509_accepts_certificate(spec_tlv(0x30, v))
    }

    open spec fn spec_canonical(v: Seq<u8>) -> bool {
        true
    }

    open spec fn spec_encode(v: Seq<u8>) -> Seq<u8> {
        spec_tlv(0x30, v)
    }

    open spec fn spec_decode(s: Seq<u8>) -> Result<Seq<u8>, Error> {
        match spec_open(s, 0x30) {
            Err(e) => Err(e),
            Ok(content) => match spec_framing(content, false, None, max_depth()) {
                Err(e) => Err(e),
                Ok(_) => if x509_accepts_certificate(s) {
                    Ok(content)
                } else {
                    Err(Error::InvalidValue)
                },
            },
        }
    }

    proof fn lemma_encode(v: Seq<u8>) {
        lemma_open_tlv(0x30, v);
    }

    proof fn lemma_roundtrip(v: Seq<u8>) {
        lemma_open_tlv(0x30, v);
    }

    proof fn lemma_canonical(s: Seq<u8>) {
        lemma_open_canonical(s, 0x30);
    }

    fn accepts_tag(tag: u8) -> (r: bool) {
        tag == 0x30
    }

    fn encode(&self) -> (r: Result<Vec<u8>, Error>) {
        let der = encode_tlv(0x30, self.content.as_slice());
        if check_framing(self.content.as_slice(), false, 64).is_err()
            || !certificate_accepted(der.as_slice()) {
            return Err(Error::InvalidValue);
        }
        Ok(der)
    }

    fn decode(s: &[u8]) -> (r: Result<Self, Error>) {
        match open(s, 0x30) {
            Err(e) => Err(e),
            Ok(start) => {
                let content = slice_subrange(s, start, s.len());
                assert(content@ =~= s@.skip(start as int));
                match check_framing(content, false, 64) {
                    Err(e) => Err(e),
                    Ok(_) => {
                        if certificate_accepted(s) {
                            Ok(Certificate { content: slice_to_vec(content) })
                        } else {
                            Err(Error::InvalidValue)
                        }
                    },
                }
            },
        }
    }
}

/// A certificate revocation list, as `x509_cert` reads it.
///
/// Held as the content octets of its SEQUENCE.
#[derive(Clone, Debug, PartialEq, Eq)]
pub struct CertificateList {
    pub content: Vec<u8>,
}

impl View for CertificateList {
    type V = Seq<u8>;

    open spec fn view(&self) -> Seq<u8> {
        self.content@
    }
}

impl Codec for CertificateList {
    open spec fn spec_tag(tag: u8) -> bool {
        tag == 0x30
    }

    open spec fn spec_valid(v: Seq<u8>) -> bool {
        &&& v.len() <= max_length()
        &&& spec_framing(v, false, None, max_depth()) is Ok
        &&& x509_accepts_certificate_list(spec_tlv(0x30, v))
    }

    open spec fn spec_canonical(v: Seq<u8>) -> bool {
        true
    }

    open spec fn spec_encode(v: Seq<u8>) -> Seq<u8> {
        spec_tlv(0x30, v)
    }

    open spec fn spec_decode(s: Seq<u8>) -> Result<Seq<u8>, Error> {
        match spec_open(s, 0x30) {
            Err(e) => Err(e),
            Ok(content) => match spec_framing(content, false, None, max_depth()) {
                Err(e) => Err(e),
                Ok(_) => if x509_accepts_certificate_list(s) {
                    Ok(content)
                } else {
                    Err(Error::InvalidValue)
                },
            },
        }
    }

    proof fn lemma_encode(v: Seq<u8>) {
        lemma_open_tlv(0x30, v);
    }

    proof fn lemma_roundtrip(v: Seq<u8>) {
        lemma_open_tlv(0x30, v);
    }

    proof fn lemma_canonical(s: Seq<u8>) {
        lemma_open_canonical(s, 0x30);
    }

    fn accepts_tag(tag: u8) -> (r: bool) {
        tag == 0x30
    }

    fn encode(&self) -> (r: Result<Vec<u8>, Error>) {
        let der = encode_tlv(0x30, self.content.as_slice());
        if check_framing(self.content.as_slice(), false, 64).is_err()
            || !certificate_list_accepted(der.as_slice()) {
            return Err(Error::InvalidValue);
        }
        Ok(der)
    }

    fn decode(s: &[u8]) -> (r: Result<Self, Error>) {
        match open(s, 0x30) {
            Err(e) => Err(e),
            Ok(start) => {
                let content = slice_subrange(s, start, s.len());
                assert(content@ =~= s@.skip(start as int));
                match check_framing(content, false, 64) {
                    Err(e) => Err(e),
                    Ok(_) => {
                        if certificate_list_accepted(s) {
                            Ok(CertificateList { content: slice_to_vec(content) })
                        } else {
                            Err(Error::InvalidValue)
                        }
                    },
                }
            },
        }
    }
}

/// The serial number of a certificate, as `x509_cert` reads it: an INTEGER
/// of one to twenty-one content octets with none to spare.
///
/// Held as the content octets of its INTEGER.
#[derive(Clone, Debug, PartialEq, Eq)]
pub struct SerialNumber {
    pub content: Vec<u8>,
}

impl View for SerialNumber {
    type V = Seq<u8>;

    open spec fn view(&self) -> Seq<u8> {
        self.content@
    }
}

impl Codec for SerialNumber {
    open spec fn spec_tag(tag: u8) -> bool {
        tag == 0x02
    }

    open spec fn spec_valid(v: Seq<u8>) -> bool {
        minimal(v) && v.len() <= 21
    }

    open spec fn spec_canonical(v: Seq<u8>) -> bool {
        true
    }

    open spec fn spec_encode(v: Seq<u8>) -> Seq<u8> {
        spec_tlv(0x02, v)
    }

    open spec fn spec_decode(s: Seq<u8>) -> Result<Seq<u8>, Error> {
        match spec_open(s, 0x02) {
            Err(e) => Err(e),
            Ok(content) => if minimal(content) && content.len() <= 21 {
                Ok(content)
            } else {
                Err(Error::InvalidValue)
            },
        }
    }

    proof fn lemma_encode(v: Seq<u8>) {
        lemma_open_tlv(0x02, v);
    }

    proof fn lemma_roundtrip(v: Seq<u8>) {
        lemma_open_tlv(0x02, v);
    }

    proof fn lemma_canonical(s: Seq<u8>) {
        lemma_open_canonical(s, 0x02);
    }

    fn accepts_tag(tag: u8) -> (r: bool) {
        tag == 0x02
    }

    fn encode(&self) -> (r: Result<Vec<u8>, Error>) {
        let der = encode_tlv(0x02, self.content.as_slice());
        proof {
            lemma_open_tlv(0x02, self.content@);
        }
        if !serial_number_accepted(der.as_slice()) {
            return Err(Error::InvalidValue);
        }
        Ok(der)
    }

    fn decode(s: &[u8]) -> (r: Result<Self, Error>) {
        match open(s, 0x02) {
            Err(e) => Err(e),
            Ok(start) => {
                if serial_number_accepted(s) {
                    Ok(SerialNumber { content: slice_to_vec(slice_subrange(s, start, s.len())) })
                } else {
                    Err(Error::InvalidValue)
                }
            },
        }
    }
}

} // verus!
