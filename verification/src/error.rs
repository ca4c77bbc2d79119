//! The error type of corpus loading and saving.

use vstd::prelude::*;

verus! {

/// `std::io::Error`, carried through as it is.
#[verifier::external_type_specification]
#[verifier::external_body]
pub struct ExIoError(std::io::Error);

/// `bincode::error::DecodeError`, carried through as it is.
#[verifier::external_type_specification]
#[verifier::external_body]
pub struct ExDecodeError(bincode::error::DecodeError);

/// `bincode::error::EncodeError`, carried through as it is.
#[verifier::external_type_specification]
#[verifier::external_body]
pub struct ExEncodeError(bincode::error::EncodeError);

/// `tokio::task::JoinError`, carried through as it is.
#[verifier::external_type_specification]
#[verifier::external_body]
pub struct ExJoinError(tokio::task::JoinError);

/// Why a corpus could not be loaded or saved. Each kind carries the error of
/// the layer that failed.
#[derive(Debug)]
pub enum LazyError {
    /// The corpus file could not be read or written.
    Io(std::io::Error),
    /// The bytes of the corpus file are malformed or truncated.
    Decode(bincode::error::DecodeError),
    /// The corpus could not be encoded.
    Encode(bincode::error::EncodeError),
    /// A worker that was coding the corpus did not finish.
    Join(tokio::task::JoinError),
}

impl From<std::io::Error> for LazyError {
    fn from(e: std::io::Error) -> (error: LazyError) {
        LazyError::Io(e)
    }
}

impl vstd::std_specs::convert::FromSpecImpl<std::io::Error> for LazyError {
    open spec fn obeys_from_spec() -> bool {
        true
    }

    open spec fn from_spec(e: std::io::Error) -> LazyError {
        LazyError::Io(e)
    }
}

impl From<bincode::error::DecodeError> for LazyError {
    fn from(e: bincode::error::DecodeError) -> (error: LazyError) {
        LazyError::Decode(e)
    }
}

impl vstd::std_specs::convert::FromSpecImpl<bincode::error::DecodeError> for LazyError {
    open spec fn obeys_from_spec() -> bool {
        true
    }

    open spec fn from_spec(e: bincode::error::DecodeError) -> LazyError {
        LazyError::Decode(e)
    }
}

impl From<bincode::error::EncodeError> for LazyError {
    fn from(e: bincode::error::EncodeError) -> (error: LazyError) {
        LazyError::Encode(e)
    }
}

impl vstd::std_specs::convert::FromSpecImpl<bincode::error::EncodeError> for LazyError {
    open spec fn obeys_from_spec() -> bool {
        true
    }

    open spec fn from_spec(e: bincode::error::EncodeError) -> LazyError {
        LazyError::Encode(e)
    }
}

impl From<tokio::task::JoinError> for LazyError {
    fn from(e: tokio::task::JoinError) -> (error: LazyError) {
        LazyError::Join(e)
    }
}

impl vstd::std_specs::convert::FromSpecImpl<tokio::task::JoinError> for LazyError {
    open spec fn obeys_from_spec() -> bool {
        true
    }

    open spec fn from_spec(e: tokio::task::JoinError) -> LazyError {
        LazyError::Join(e)
    }
}

} // verus!
