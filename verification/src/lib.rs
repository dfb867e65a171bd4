//! Cryptographic Message Syntax `SignedData` (RFC 5652) with a verified
//! canonical DER codec.
//!
//! Every schema type implements [`codec::Codec`]: `encode` gives the one
//! encoding of a value, `decode` takes the whole of an octet string as one
//! value and refuses what is not that value's one encoding. Both are stated
//! against spec functions on octet sequences, and proof functions show of
//! every schema type that decoding inverts encoding, that what decodes is
//! the encoding of its value, and that no two octet strings decode to the
//! same value.
//!
//! # Layers
//!
//! - [`tlv`]: identifier, definite length in its shortest form, content.
//! - [`framing`]: the walk over what lies inside a constructed element.
//! - [`integer`]: INTEGER in two's complement with no octet to spare.
//! - [`order`] and [`set_of`]: the octet order, and SET OF placed by it.
//! - [`codec`]: the `Codec` trait, and fields with natural, explicit and
//!   implicit tagging, mandatory or optional.
//! - [`asn1`] and [`opaque`]: the primitive types, and the types whose
//!   inside belongs to `const_oid`, `spki` and `x509_cert`.
//! - [`content_info`], [`signed_data`], [`cert`], [`revocation`]: the
//!   schema.
//! - [`laws`]: what holds of all of them.
//!
//! # What decoding refuses, and as what
//!
//! Decoding walks the input from the front and stops at the first
//! violation. A SET OF is split into its elements, and their order held to
//! the octet order, before any element is looked into.
//!
//! - `MalformedLength`: a length field that is indefinite, longer than it
//!   need be, cut short, or that states more than is left. This holds of
//!   every length field that the identifiers lead to: of the elements that
//!   the schema names, and of all elements inside a constructed element
//!   of a type that another crate owns or of the open type.
//! - `UnexpectedTag`: the value that is to be decoded starts with another
//!   tag than those of its type. For a CHOICE these are the tags of its
//!   variants; the leading tag alone decides the variant. So it is where a
//!   field of a CHOICE or of the open type is due inside a SEQUENCE and a
//!   tag stands that the type does not know.
//! - `MissingField`: inside a SEQUENCE, the input ends where a mandatory
//!   field is due, or goes on with another tag where a mandatory field of
//!   one tag is due. An optional field is absent in that case, and takes no
//!   octet. Empty input is a missing value too.
//! - `TrailingData`: octets are left behind a complete value.
//! - `NonCanonicalSetOrder`: two neighbouring elements of a SET OF do not
//!   ascend strictly. Inside the types of other crates and the open type
//!   this holds of the elements of every element with the identifier
//!   `0x31`.
//! - `InvalidVersion`: an INTEGER where a version is due that is not 0 to 5
//!   in one octet.
//! - `InvalidValue`: the content of an element is well framed and is
//!   refused by the codec of its type, or constructed elements lie more
//!   than 64 deep inside it. It is also the one failure of `encode`: the
//!   value breaks an invariant of its type.
//!
//! # Versions
//!
//! Decoding takes any version from 0 to 5 and does not hold it against the
//! fields beside it, so that what a lenient producer wrote can still be
//! read. `check_version` of `SignedData` and of `SignerInfo` does, and
//! fails with `InconsistentVersion`.
//!
//! # What is not proved
//!
//! What `const_oid`, `spki` and `x509_cert` accept is asked of those
//! crates, in [`foreign`]. Of a serial number the answer is stated; the
//! other answers have names and nothing is claimed of them, so that a
//! value of such a type decodes is shown by the tests and not by a proof.
//! Where those crates take more than one form of a value, this library
//! holds the form to the rules itself: every length field and every SET
//! inside such a value is walked before the crate is asked, and the
//! numbers of an OBJECT IDENTIFIER have no octet to spare.
//!
//! The content of a primitive element is octets to this library. An
//! encoding that lies inside an OCTET STRING or a BIT STRING, such as the
//! value of a certificate extension, is not walked.
pub mod asn1;
pub mod cert;
pub mod codec;
pub mod content_info;
pub mod error;
pub mod foreign;
pub mod framing;
pub mod integer;
pub mod laws;
pub mod opaque;
pub mod order;
pub mod revocation;
pub mod set_of;
pub mod signed_data;
pub mod tlv;
