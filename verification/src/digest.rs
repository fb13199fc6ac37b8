use crate::bytes::bytes_equal;
use crate::error::Error;
use vstd::prelude::*;

verus! {

/// The SHA-1 digest of `data`: twenty bytes that depend on `data` alone.
pub uninterp spec fn sha1_digest(data: Seq<u8>) -> Seq<u8>;

/// `Sha1::digest` of the crate `sha1`, through `Digest`: hashes `data` in
/// one call. The contract only gives the result its name; that the result
/// has twenty bytes is in its type.
#[verifier::external_body]
pub(crate) fn sha1_of(data: &[u8]) -> (digest: [u8; 20])
    ensures
        digest@ == sha1_digest(data@),
{
    <sha1::Sha1 as sha1::Digest>::digest(data).into()
}

/// The lower-case hexadecimal digit for `d`, which is below 16.
pub open spec fn hex_lower(d: int) -> u8 {
    if d < 10 {
        (48 + d) as u8
    } else {
        (87 + d) as u8
    }
}

/// `data` in hexadecimal: two lower-case digits for each byte, the high
/// half first.
pub open spec fn hex_text(data: Seq<u8>) -> Seq<char> {
    Seq::new(
        2 * data.len(),
        |i: int|
            if i % 2 == 0 {
                hex_lower(data[i / 2] as int / 16) as char
            } else {
                hex_lower(data[i / 2] as int % 16) as char
            },
    )
}

/// What a hexadecimal digit of either case stands for; `None` for any
/// other byte.
pub open spec fn hex_value(c: u8) -> Option<int> {
    if 48 <= c <= 57 {
        Some(c - 48)
    } else if 97 <= c <= 102 {
        Some(c - 87)
    } else if 65 <= c <= 70 {
        Some(c - 55)
    } else {
        None
    }
}

/// `text` is an even number of hexadecimal digits.
pub open spec fn is_hex_text(text: Seq<u8>) -> bool {
    text.len() % 2 == 0 && forall|i: int| 0 <= i < text.len() ==> hex_value(#[trigger] text[i]) is Some
}

/// The bytes that the digits of `text` stand for, two digits each.
pub open spec fn hex_bytes(text: Seq<u8>) -> Seq<u8> {
    Seq::new(
        text.len() / 2,
        |i: int| (16 * hex_value(text[2 * i]).unwrap() + hex_value(text[2 * i + 1]).unwrap()) as u8,
    )
}

/// The error type of the crate `hex`.
#[verifier::external_type_specification]
#[verifier::external_body]
pub struct ExFromHexError(hex::FromHexError);

/// `hex::encode`: writes each byte as two lower-case hexadecimal digits.
#[verifier::external_body]
pub(crate) fn hex_encode(data: &[u8]) -> (text: String)
    ensures
        text@ == hex_text(data@),
{
    hex::encode(data)
}

/// `hex::decode`: reads an even number of hexadecimal digits of either
/// case as bytes, and fails on an odd length or on any other byte.
#[verifier::external_body]
pub(crate) fn hex_decode(text: &[u8]) -> (r: Result<Vec<u8>, hex::FromHexError>)
    ensures
        match r {
            Ok(bytes) => is_hex_text(text@) && bytes@ == hex_bytes(text@),
            Err(_) => !is_hex_text(text@),
        },
{
    hex::decode(text)
}

/// What reading `text` as a content identifier in hexadecimal gives: its
/// twenty bytes, where `text` is forty hexadecimal digits.
pub open spec fn spec_identifier_from_hex(text: Seq<u8>) -> Result<Seq<u8>, Error> {
    if is_hex_text(text) && text.len() == 40 {
        Ok(hex_bytes(text))
    } else {
        Err(Error::MalformedInput)
    }
}

/// Reads a content identifier written as forty hexadecimal digits.
pub fn identifier_from_hex(text: &[u8]) -> (r: Result<Vec<u8>, Error>)
    ensures
        match r {
            Ok(id) => spec_identifier_from_hex(text@) == Ok::<Seq<u8>, Error>(id@) && id@.len() == 20,
            Err(e) => spec_identifier_from_hex(text@) == Err::<Seq<u8>, Error>(e),
        },
{
    match hex_decode(text) {
        Ok(bytes) => {
            if bytes.len() == 20 {
                Ok(bytes)
            } else {
                Err(Error::MalformedInput)
            }
        },
        Err(_) => Err(Error::MalformedInput),
    }
}

/// A content identifier or a piece hash in hexadecimal.
pub fn identifier_to_hex(id: &[u8]) -> (text: String)
    ensures
        text@ == hex_text(id@),
{
    hex_encode(id)
}

/// Whether `data` hashes to `expected`.
pub fn hash_matches(data: &[u8], expected: &[u8]) -> (same: bool)
    ensures
        same == (sha1_digest(data@) == expected@),
{
    let digest: [u8; 20] = sha1_of(data);
    bytes_equal(digest.as_slice(), expected)
}

} // verus!
