//! The ways in which an operation of this library can fail.

use vstd::prelude::*;

verus! {

/// Why an operation failed.
#[derive(Debug, Clone, Copy, PartialEq, Eq, Structural)]
pub enum Error {
    /// An envelope, header, artifact or policy encoding is malformed.
    FormatViolation,
    /// A well-formed input breaks a size or validity bound.
    ConstraintViolation,
    /// The key encapsulation mechanism refused to decapsulate.
    Kem,
    /// A segment failed authentication while unsealing.
    AuthenticationFailure,
    /// A key request asked for a longer validity than the generator grants.
    ValidityError,
    /// The disclosure session ended cancelled, timed out or with an invalid proof.
    SessionFailure,
    /// The underlying reader or writer failed.
    IoError,
    /// The polling ceiling was reached before the session ended.
    Timeout,
}

impl Error {
    /// A short description of the error, for messages.
    pub fn describe(&self) -> (text: &'static str)
        ensures
            text@ == (match *self {
                Error::FormatViolation => "format violation"@,
                Error::ConstraintViolation => "constraint violation"@,
                Error::Kem => "key encapsulation failure"@,
                Error::AuthenticationFailure => "authentication failure"@,
                Error::ValidityError => "validity exceeds the maximum"@,
                Error::SessionFailure => "session failure"@,
                Error::IoError => "input/output error"@,
                Error::Timeout => "timeout"@,
            }),
    {
        match self {
            Error::FormatViolation => "format violation",
            Error::ConstraintViolation => "constraint violation",
            Error::Kem => "key encapsulation failure",
            Error::AuthenticationFailure => "authentication failure",
            Error::ValidityError => "validity exceeds the maximum",
            Error::SessionFailure => "session failure",
            Error::IoError => "input/output error",
            Error::Timeout => "timeout",
        }
    }
}

} // verus!
