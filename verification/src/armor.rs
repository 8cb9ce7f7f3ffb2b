//! The base64 armour of a consent string, done by the `base64` crate.

use crate::error::Error;
use vstd::prelude::*;

verus! {

/// `base64::DecodeError`, the reason why a text is not base64.
#[verifier::external_type_specification]
#[verifier::external_body]
pub struct ExDecodeError(base64::DecodeError);

/// What `base64::encode_config` with `URL_SAFE_NO_PAD` returns for `bytes`:
/// their base64 text in the URL-safe alphabet, without padding.
pub uninterp spec fn base64_url_safe_text(bytes: Seq<u8>) -> Seq<char>;

/// What `base64::decode_config` with `URL_SAFE_NO_PAD` returns for `text`:
/// the bytes, or `None` where it returns an error.
pub uninterp spec fn base64_url_safe_bytes(text: Seq<char>) -> Option<Seq<u8>>;

/// What `base64::decode` returns for `text`, which it reads in the standard
/// alphabet: the bytes, or `None` where it returns an error.
pub uninterp spec fn base64_standard_bytes(text: Seq<char>) -> Option<Seq<u8>>;

/// Whether a character belongs to the URL-safe base64 alphabet: a letter, a
/// digit, `-` or `_`. The padding character `=` does not.
pub open spec fn is_url_safe(letter: char) -> bool {
    ||| 'A' <= letter <= 'Z'
    ||| 'a' <= letter <= 'z'
    ||| '0' <= letter <= '9'
    ||| letter == '-'
    ||| letter == '_'
}

/// Whether a text holds characters of the URL-safe base64 alphabet only.
pub open spec fn url_safe_text(text: Seq<char>) -> bool {
    forall|i: int| 0 <= i < text.len() ==> is_url_safe(#[trigger] text[i])
}

/// The number of characters of the unpadded base64 text of `len` bytes:
/// four for every three bytes, and two or three for one or two bytes more.
pub open spec fn armored_len(len: nat) -> nat {
    4 * (len / 3) + if len % 3 == 0 {
        0nat
    } else {
        len % 3 + 1
    }
}

/// `base64::encode_config` with `URL_SAFE_NO_PAD`. The text it returns is
/// named by `base64_url_safe_text`. It has the length that the crate's
/// `encoded_size` computes without padding, and every character of it
/// comes from the encode table of the URL-safe alphabet. `decode_config`
/// with the same configuration gives the bytes back from that text: the
/// decoder reads each character through the table that inverts the
/// encoder's, takes text without padding, and the crate's own round-trip
/// tests say so for every configuration. The function panics where the
/// length of the text does not fit in `usize`.
#[verifier::external_body]
fn encode_url_safe(bytes: &[u8]) -> (text: String)
    requires
        4 * bytes@.len() <= usize::MAX,
    ensures
        text@ == base64_url_safe_text(bytes@),
        text@.len() == armored_len(bytes@.len()),
        url_safe_text(text@),
        base64_url_safe_bytes(text@) == Some(bytes@),
{
    base64::encode_config(bytes, base64::URL_SAFE_NO_PAD)
}

/// `base64::decode_config` with `URL_SAFE_NO_PAD`: the bytes of a text in
/// the URL-safe alphabet, padded or not. Its length sums overflow only past
/// `usize::MAX - 7` bytes of text, more than a `str` can hold.
#[verifier::external_body]
fn decode_url_safe(text: &str) -> (result: Result<Vec<u8>, base64::DecodeError>)
    ensures
        match result {
            Ok(bytes) => base64_url_safe_bytes(text@) == Some(bytes@),
            Err(_) => base64_url_safe_bytes(text@) is None,
        },
{
    base64::decode_config(text, base64::URL_SAFE_NO_PAD)
}

/// `base64::decode`: the bytes of a text in the standard alphabet, padded
/// or not. Its length sums overflow only past `usize::MAX - 7` bytes of
/// text, more than a `str` can hold.
#[verifier::external_body]
fn decode_standard(text: &str) -> (result: Result<Vec<u8>, base64::DecodeError>)
    ensures
        match result {
            Ok(bytes) => base64_standard_bytes(text@) == Some(bytes@),
            Err(_) => base64_standard_bytes(text@) is None,
        },
{
    base64::decode(text)
}

/// The bytes that a text stands for: read in the URL-safe alphabet, and
/// where that fails in the standard one.
pub open spec fn armor_bytes(text: Seq<char>) -> Option<Seq<u8>> {
    match base64_url_safe_bytes(text) {
        Some(bytes) => Some(bytes),
        None => base64_standard_bytes(text),
    }
}

/// Takes the base64 armour off a text, in either alphabet.
pub fn dearmor(text: &str) -> (result: Result<Vec<u8>, Error>)
    ensures
        match result {
            Ok(bytes) => armor_bytes(text@) == Some(bytes@),
            Err(e) => e == Error::InvalidBase64 && armor_bytes(text@) is None,
        },
{
    match decode_url_safe(text) {
        Ok(bytes) => Ok(bytes),
        Err(_) => match decode_standard(text) {
            Ok(bytes) => Ok(bytes),
            Err(_) => Err(Error::InvalidBase64),
        },
    }
}

/// Puts bytes into base64 armour: URL-safe alphabet, no padding. Taking
/// the armour off the text gives the bytes back.
pub fn armor(bytes: &[u8]) -> (text: String)
    requires
        4 * bytes@.len() <= usize::MAX,
    ensures
        text@ == base64_url_safe_text(bytes@),
        text@.len() == armored_len(bytes@.len()),
        url_safe_text(text@),
        armor_bytes(text@) == Some(bytes@),
{
    encode_url_safe(bytes)
}

} // verus!
