//! The ways in which encoding or decoding fails.
use vstd::prelude::*;

verus! {

/// Why a value was not encoded or a byte string not decoded.
///
/// Every failure is final for the call that reports it: nothing is recovered
/// and no default stands in for what could not be read.
#[derive(Clone, Copy, Debug, PartialEq, Eq, Structural)]
pub enum Error {
    /// A length field, of an element of the schema or of any element inside
    /// one, is indefinite, not minimal, cut short, longer than eight octets,
    /// or states more content than is left.
    MalformedLength,
    /// The leading tag of a value is not the one of its type, matches no
    /// variant of a CHOICE, or uses the multi-octet form.
    UnexpectedTag,
    /// Input ended where a mandatory field of a SEQUENCE was due, or
    /// another tag stood where a mandatory field of one tag was due; or the
    /// input was empty.
    MissingField,
    /// Octets were left over after a complete value.
    TrailingData,
    /// Two neighbouring elements of a SET OF are not in strictly ascending
    /// octet order.
    NonCanonicalSetOrder,
    /// An INTEGER at the place of a `CmsVersion` is not one of 0 to 5 in its
    /// shortest form.
    InvalidVersion,
    /// A version does not fit the fields that stand beside it.
    InconsistentVersion,
    /// The value octets of an element are well framed and not accepted by
    /// the codec of the element's type, constructed elements lie too deep
    /// inside it, or a value handed to `encode` breaks an invariant of its
    /// type.
    InvalidValue,
}

} // verus!
