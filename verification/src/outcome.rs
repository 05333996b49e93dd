//! The standard I/O types that pass through the bookkeeping, and what is
//! taken on trust about them.

use vstd::prelude::*;

verus! {

/// `std::io::Error`, carried through as an opaque value.
#[verifier::external_type_specification]
#[verifier::external_body]
pub struct ExIoError(std::io::Error);

/// `std::io::ErrorKind`, an opaque label that is only compared and counted.
#[verifier::external_type_specification]
#[verifier::external_body]
pub struct ExErrorKind(std::io::ErrorKind);

/// `std::io::SeekFrom`, with its three public variants.
#[verifier::external_type_specification]
pub struct ExSeekFrom(std::io::SeekFrom);

/// The kind that `std::io::Error::kind` reports for an error.
pub uninterp spec fn error_kind(e: std::io::Error) -> std::io::ErrorKind;

/// The text that `ErrorKind`'s `Display` impl writes for a kind.
pub uninterp spec fn error_kind_text(kind: std::io::ErrorKind) -> Seq<char>;

/// `std::io::Error::kind`: the kind depends on the error value alone.
pub assume_specification[ std::io::Error::kind ](e: &std::io::Error) -> (kind: std::io::ErrorKind)
    ensures
        kind == error_kind(*e),
;

/// `ErrorKind`'s `==`: the type is a field-less enum with a derived
/// `PartialEq`, so two kinds compare equal exactly when they are the same
/// variant.
#[verifier::external_body]
pub(crate) fn same_kind(a: std::io::ErrorKind, b: std::io::ErrorKind) -> (same: bool)
    ensures
        same == (a == b),
{
    a == b
}

/// `ErrorKind`'s `to_string`: the description of the kind, which depends on
/// the kind alone.
#[verifier::external_body]
pub(crate) fn kind_text(kind: std::io::ErrorKind) -> (text: String)
    ensures
        text@ == error_kind_text(kind),
{
    kind.to_string()
}

} // verus!
