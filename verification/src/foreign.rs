//! The decoders of other crates that this library consults.
//!
//! What those decoders accept is not proved here. Where a few lines state
//! it, as of a serial number, the contract states it; else the answer has
//! a name, and the contracts of the library speak of the answer by that
//! name.
use vstd::prelude::*;
use crate::codec::spec_open;
use crate::integer::minimal;

verus! {

/// Whether `const_oid::ObjectIdentifier::from_bytes` takes `content` as the
/// content octets of an OBJECT IDENTIFIER.
pub uninterp spec fn const_oid_accepts(content: Seq<u8>) -> bool;

/// Whether `spki::AlgorithmIdentifierOwned` decodes from `der`.
pub uninterp spec fn spki_accepts_algorithm_identifier(der: Seq<u8>) -> bool;

/// Whether `x509_cert::attr::Attributes` decodes from `der`.
pub uninterp spec fn x509_accepts_attributes(der: Seq<u8>) -> bool;

/// Whether `x509_cert::name::Name` decodes from `der`.
pub uninterp spec fn x509_accepts_name(der: Seq<u8>) -> bool;

/// Whether `x509_cert::Certificate` decodes from `der`.
pub uninterp spec fn x509_accepts_certificate(der: Seq<u8>) -> bool;

/// Whether `x509_cert::crl::CertificateList` decodes from `der`.
pub uninterp spec fn x509_accepts_certificate_list(der: Seq<u8>) -> bool;

/// Calls `const_oid::ObjectIdentifier::from_bytes` on `content` and tells
/// whether it returned `Ok`. The contract gives that answer its name and
/// claims nothing else of it.
#[verifier::external_body]
pub(crate) fn oid_accepted(content: &[u8]) -> (ok: bool)
    ensures
        ok == const_oid_accepts(content@),
{
    const_oid::ObjectIdentifier::from_bytes(content).is_ok()
}

/// Calls `from_der` of `spki::AlgorithmIdentifierOwned` on `der` and tells
/// whether it returned `Ok`. The contract gives that answer its name and
/// claims nothing else of it.
#[verifier::external_body]
pub(crate) fn algorithm_identifier_accepted(der: &[u8]) -> (ok: bool)
    ensures
        ok == spki_accepts_algorithm_identifier(der@),
{
    <spki::AlgorithmIdentifierOwned as der::Decode>::from_der(der).is_ok()
}

/// Calls `from_der` of `x509_cert::attr::Attributes` on `der` and tells
/// whether it returned `Ok`. The contract gives that answer its name and
/// claims nothing else of it.
#[verifier::external_body]
pub(crate) fn attributes_accepted(der: &[u8]) -> (ok: bool)
    ensures
        ok == x509_accepts_attributes(der@),
{
    <x509_cert::attr::Attributes as der::Decode>::from_der(der).is_ok()
}

/// Calls `from_der` of `x509_cert::name::Name` on `der` and tells whether it
/// returned `Ok`. The contract gives that answer its name and claims nothing
/// else of it.
#[verifier::external_body]
pub(crate) fn name_accepted(der: &[u8]) -> (ok: bool)
    ensures
        ok == x509_accepts_name(der@),
{
    <x509_cert::name::Name as der::Decode>::from_der(der).is_ok()
}

/// What `x509_cert::serial_number::SerialNumber` decodes from: exactly one
/// INTEGER element whose content has one to twenty-one octets and none to
/// spare.
pub open spec fn spec_serial_number(der: Seq<u8>) -> bool {
    spec_open(der, 0x02) matches Ok(content) && minimal(content) && content.len() <= 21
}

/// Calls `from_der` of `x509_cert::serial_number::SerialNumber` on `der` and
/// tells whether it returned `Ok`. The contract claims what the sources of
/// `der` and `x509_cert` show: the INTEGER is read whole, its content is
/// refused where it is empty or starts with nine equal bits, and then where
/// it has more than twenty-one octets.
#[verifier::external_body]
pub(crate) fn serial_number_accepted(der: &[u8]) -> (ok: bool)
    ensures
        ok == spec_serial_number(der@),
{
    <x509_cert::serial_number::SerialNumber as der::Decode>::from_der(der).is_ok()
}

/// Calls `from_der` of `x509_cert::Certificate` on `der` and tells whether
/// it returned `Ok`. The contract gives that answer its name and claims
/// nothing else of it.
#[verifier::external_body]
pub(crate) fn certificate_accepted(der: &[u8]) -> (ok: bool)
    ensures
        ok == x509_accepts_certificate(der@),
{
    <x509_cert::Certificate as der::Decode>::from_der(der).is_ok()
}

/// Calls `from_der` of `x509_cert::crl::CertificateList` on `der` and tells
/// whether it returned `Ok`. The contract gives that answer its name and
/// claims nothing else of it.
#[verifier::external_body]
pub(crate) fn certificate_list_accepted(der: &[u8]) -> (ok: bool)
    ensures
        ok == x509_accepts_certificate_list(der@),
{
    <x509_cert::crl::CertificateList as der::Decode>::from_der(der).is_ok()
}

} // verus!
