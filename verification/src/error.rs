//! The library's error type.
use vstd::prelude::*;

verus! {

/// `std::io::Error`, carried unexamined by `HttpError::Io`.
#[verifier::external_type_specification]
#[verifier::external_body]
pub struct ExIoError(std::io::Error);

#[derive(Debug)]
pub enum HttpError {
    /// The bytes do not form a request; the text says how.
    MalformedRequest(&'static str),
    /// An operating-system error while reading or writing.
    Io(std::io::Error),
}

} // verus!
