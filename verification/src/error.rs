//! The error values that I/O operations report.
//!
//! Errors are `axerrno::AxError` values. The type is opaque to the verifier;
//! the contracts of this crate identify an error by its numeric code.

use axerrno::AxError;
use vstd::prelude::*;

verus! {

/// `axerrno::AxError`, carried through verified code as an opaque value.
#[verifier::external_type_specification]
#[verifier::external_body]
pub struct ExAxError(axerrno::AxError);

/// The numeric code of an error, as `AxError::code` reports it.
pub uninterp spec fn error_code(e: AxError) -> i32;

/// The code of the "input/output error" kind.
pub const IO_ERROR_CODE: i32 = 20;

/// The code of the "write returned zero" kind.
pub const WRITE_ZERO_CODE: i32 = 43;

/// Builds the error of kind `Io` with `AxError::from`. The kind `Io` is the
/// twentieth of `AxErrorKind`, whose numbering starts at one, and an error
/// built from a kind carries the kind's number as its code.
#[verifier::external_body]
pub(crate) fn io_error() -> (e: AxError)
    ensures
        error_code(e) == IO_ERROR_CODE,
{
    AxError::from(axerrno::AxErrorKind::Io)
}

/// Builds the error of kind `WriteZero` with `AxError::from`. The kind
/// `WriteZero` is the forty-third and last of `AxErrorKind`.
#[verifier::external_body]
pub(crate) fn write_zero_error() -> (e: AxError)
    ensures
        error_code(e) == WRITE_ZERO_CODE,
{
    AxError::from(axerrno::AxErrorKind::WriteZero)
}

} // verus!
