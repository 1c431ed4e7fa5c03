//! State that travels in a link.
//!
//! A value that is to be part of a link is serialised to bytes, and the
//! bytes are written in the URL-safe base64 alphabet. This module does the
//! second step and its inverse.

use base64::engine::general_purpose::URL_SAFE;
use base64::Engine;
use vstd::prelude::*;

verus! {

/// A value that is carried in a link.
#[derive(Debug, Clone, PartialEq, Eq)]
pub struct UrlParam<T>(pub T);

impl<T> From<T> for UrlParam<T> {
    fn from(value: T) -> (param: UrlParam<T>)
    {
        UrlParam(value)
    }
}

impl<T> vstd::std_specs::convert::FromSpecImpl<T> for UrlParam<T> {
    open spec fn obeys_from_spec() -> bool {
        true
    }

    open spec fn from_spec(value: T) -> UrlParam<T> {
        UrlParam(value)
    }
}

/// Why the text of a link could not be read back.
#[derive(Debug, Clone, Copy, PartialEq, Eq)]
pub enum StateParseError {
    /// The text is not base64.
    DecodeError,
    /// The bytes do not hold a value of the expected type.
    CiboriumError,
}

/// The error with which base64 text is refused.
#[verifier::external_type_specification]
#[verifier::external_body]
pub struct ExDecodeError(base64::DecodeError);

/// `bytes` in padded base64 with the URL-safe alphabet.
pub uninterp spec fn url_safe_encoded(bytes: Seq<u8>) -> Seq<char>;

/// The bytes that `text` stands for in padded base64 with the URL-safe
/// alphabet, or `None` where it is no such text.
pub uninterp spec fn url_safe_decoded(text: Seq<char>) -> Option<Seq<u8>>;

/// Whether the base64 text of `len` bytes has a length that fits `usize`:
/// four characters for every three bytes begun.
pub open spec fn encodable_len(len: nat) -> bool {
    (len + 2) / 3 * 4 <= usize::MAX
}

/// Encodes with `Engine::encode` of `base64`'s `URL_SAFE` engine.
///
/// The call panics where the length of the text would not fit `usize`,
/// which the precondition rules out. What it returns depends on the bytes
/// alone, and decoding it gives the bytes back.
#[verifier::external_body]
fn encode_url_safe(bytes: &Vec<u8>) -> (text: String)
    requires
        encodable_len(bytes@.len()),
    ensures
        text@ == url_safe_encoded(bytes@),
        url_safe_decoded(text@) == Some(bytes@),
{
    URL_SAFE.encode(bytes)
}

/// Decodes with `Engine::decode` of `base64`'s `URL_SAFE` engine, which
/// returns the bytes or the reason why the text is not base64. Which of the
/// two, and which bytes, depends on the text alone.
#[verifier::external_body]
fn decode_url_safe(text: &str) -> (outcome: Result<Vec<u8>, base64::DecodeError>)
    ensures
        match outcome {
            Ok(bytes) => url_safe_decoded(text@) == Some(bytes@),
            Err(_) => url_safe_decoded(text@) is None,
        },
{
    URL_SAFE.decode(text.as_bytes())
}

/// Writes the serialised state `bytes` as text for a link, or `None` where
/// the text would be too long to exist.
pub fn encode_state(bytes: &Vec<u8>) -> (text: Option<String>)
    ensures
        text is Some <==> encodable_len(bytes@.len()),
        text matches Some(t) ==> t@ == url_safe_encoded(bytes@) && url_safe_decoded(t@) == Some(
            bytes@,
        ),
{
    let chunks = bytes.len() / 3 + if bytes.len() % 3 > 0 { 1usize } else { 0usize };
    assert(chunks == (bytes@.len() + 2) / 3);
    if chunks > usize::MAX / 4 {
        return None;
    }
    Some(encode_url_safe(bytes))
}

/// Reads the text of a link back into the serialised state.
pub fn decode_state(text: &str) -> (outcome: Result<Vec<u8>, StateParseError>)
    ensures
        match outcome {
            Ok(bytes) => url_safe_decoded(text@) == Some(bytes@),
            Err(e) => e == StateParseError::DecodeError && url_safe_decoded(text@) is None,
        },
{
    match decode_url_safe(text) {
        Ok(bytes) => Ok(bytes),
        Err(_) => Err(StateParseError::DecodeError),
    }
}

} // verus!
