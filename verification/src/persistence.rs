//! The byte form of a saved corpus: the list of paths, length-prefixed, as
//! bincode writes it. Reading and writing the file is the host's part.

use crate::error::LazyError;
use bincode::error::{DecodeError, EncodeError};
use vstd::prelude::*;

verus! {

/// Decoding gives up, with a decode error, before it would claim more than
/// this many bytes for the paths of one corpus. The decoder claims the bytes of
/// every path and, ahead of reading them, the size of one `String` for each
/// path that the list announces.
pub const DECODE_LIMIT: usize = 0x4000_0000;

/// The bytes that bincode's `encode_to_vec` writes for a list of strings in
/// its standard configuration.
pub uninterp spec fn encoded_paths(paths: Seq<Seq<char>>) -> Seq<u8>;

/// The list of strings that bincode's `decode_from_slice` reads from the front
/// of `bytes`, in its standard configuration with a limit of `DECODE_LIMIT`;
/// `None` where it reports an error.
pub uninterp spec fn decoded_paths(bytes: Seq<u8>) -> Option<Seq<Seq<char>>>;

/// `bincode::encode_to_vec` on a list of strings: it succeeds, and the bytes
/// are the ones named by `encoded_paths`. Encoding a list of strings only
/// writes lengths and bytes to a growing buffer, and such a write reports no
/// error.
#[verifier::external_body]
fn bincode_encode(paths: &Vec<String>) -> (result: Result<Vec<u8>, EncodeError>)
    ensures
        result is Ok,
        result matches Ok(bytes) ==> bytes@ == encoded_paths(paths.deep_view()),
{
    bincode::encode_to_vec(paths, bincode::config::standard())
}

/// `bincode::decode_from_slice` for a list of strings: the list it reads, or
/// its error, as named by `decoded_paths`. Bytes behind the list are not
/// looked at.
#[verifier::external_body]
fn bincode_decode(bytes: &[u8]) -> (result: Result<Vec<String>, DecodeError>)
    ensures
        match result {
            Ok(paths) => decoded_paths(bytes@) == Some(paths.deep_view()),
            Err(_) => decoded_paths(bytes@) is None,
        },
{
    let config = bincode::config::standard().with_limit::<DECODE_LIMIT>();
    bincode::decode_from_slice::<Vec<String>, _>(bytes, config).map(|(paths, _)| paths)
}

/// What saving makes of the encoder's answer: the bytes, or the encoder's
/// error as `LazyError::Encode`.
pub fn encode_outcome(result: Result<Vec<u8>, EncodeError>) -> (outcome: Result<Vec<u8>, LazyError>)
    ensures
        outcome == match result {
            Ok(bytes) => Ok::<Vec<u8>, LazyError>(bytes),
            Err(e) => Err(LazyError::Encode(e)),
        },
{
    match result {
        Ok(bytes) => Ok(bytes),
        Err(e) => Err(LazyError::from(e)),
    }
}

/// What loading makes of the decoder's answer: the paths, or the decoder's
/// error as `LazyError::Decode`.
pub fn decode_outcome(result: Result<Vec<String>, DecodeError>) -> (outcome: Result<
    Vec<String>,
    LazyError,
>)
    ensures
        outcome == match result {
            Ok(paths) => Ok::<Vec<String>, LazyError>(paths),
            Err(e) => Err(LazyError::Decode(e)),
        },
{
    match result {
        Ok(paths) => Ok(paths),
        Err(e) => Err(LazyError::from(e)),
    }
}

/// Encodes the corpus paths for the corpus file. Every list of paths has an
/// encoding, so this succeeds on every input.
pub fn encode_paths(paths: &Vec<String>) -> (outcome: Result<Vec<u8>, LazyError>)
    ensures
        outcome matches Ok(bytes) && bytes@ == encoded_paths(paths.deep_view()),
{
    encode_outcome(bincode_encode(paths))
}

/// Decodes the content of a corpus file. Succeeds exactly on the buffers from
/// whose front the decoder reads a list of paths within `DECODE_LIMIT`. A
/// malformed or truncated buffer is a `LazyError::Decode`, and so is a
/// well-formed corpus that claims more than `DECODE_LIMIT` bytes: the limit
/// keeps a damaged length prefix from being believed, at the price of refusing
/// a corpus of that size.
pub fn decode_paths(bytes: &[u8]) -> (outcome: Result<Vec<String>, LazyError>)
    ensures
        match outcome {
            Ok(paths) => decoded_paths(bytes@) == Some(paths.deep_view()),
            Err(e) => e is Decode && decoded_paths(bytes@) is None,
        },
{
    decode_outcome(bincode_decode(bytes))
}

} // verus!
