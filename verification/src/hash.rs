//! Fingerprints: SHA-256 digests rendered as lowercase hexadecimal text.

use crate::hex::{hex_lower, is_hex_digit, lemma_hex_lower_digits, to_hex};
use sha2::{Digest, Sha256};
use vstd::prelude::*;
use vstd::string::*;
use vstd::utf8::encode_utf8;

verus! {

/// The SHA-256 digest of `data`, as the `sha2` crate computes it.
///
/// Nothing is stated of its value: it stands for what the hasher returns,
/// as a function of the bytes alone. Its size is that of its type.
pub uninterp spec fn sha256_digest(data: Seq<u8>) -> [u8; 32];

/// The fingerprint of a byte string: its SHA-256 digest in lowercase hex.
pub open spec fn bytes_fingerprint(data: Seq<u8>) -> Seq<char> {
    hex_lower(sha256_digest(data)@)
}

/// The fingerprint of a text: the fingerprint of its UTF-8 bytes.
pub open spec fn text_fingerprint(text: Seq<char>) -> Seq<char> {
    bytes_fingerprint(encode_utf8(text))
}

/// The fingerprint of a pair: that of `left` followed directly by `right`.
pub open spec fn pair_fingerprint(left: Seq<char>, right: Seq<char>) -> Seq<char> {
    text_fingerprint(left + right)
}

/// The shape of every fingerprint: 64 lowercase hexadecimal digits.
pub open spec fn is_fingerprint(text: Seq<char>) -> bool {
    &&& text.len() == 64
    &&& forall|i: int| 0 <= i < text.len() ==> is_hex_digit(#[trigger] text[i])
}

/// Every fingerprint of bytes, and so of a text or of a pair, has the shape
/// of a fingerprint.
pub proof fn lemma_fingerprint_shape(data: Seq<u8>)
    ensures
        is_fingerprint(bytes_fingerprint(data)),
{
    lemma_hex_lower_digits(sha256_digest(data)@);
}

/// Trusted, not proved: a call of `sha2::Sha256::digest`, the one-shot form
/// of the `Digest` trait, which feeds `data` to a fresh SHA-256 hasher and
/// finalizes it. The contract claims that the 32 bytes returned depend on
/// the bytes of `data` and on nothing else. The call does not fail.
#[verifier::external_body]
fn sha256(data: &[u8]) -> (digest: [u8; 32])
    ensures
        digest == sha256_digest(data@),
{
    Sha256::digest(data).into()
}

/// Hashes `data` and renders the digest as a fingerprint.
pub fn hash_bytes(data: &[u8]) -> (fingerprint: String)
    ensures
        fingerprint@ == bytes_fingerprint(data@),
        is_fingerprint(fingerprint@),
{
    let digest = sha256(data);
    proof {
        lemma_fingerprint_shape(data@);
    }
    to_hex(digest.as_slice())
}

/// The fingerprint of the text `input`.
pub fn hash_data(input: &str) -> (fingerprint: String)
    ensures
        fingerprint@ == text_fingerprint(input@),
        is_fingerprint(fingerprint@),
{
    hash_bytes(input.as_bytes())
}

/// Combines two fingerprints into the one of their parent: `left` and
/// `right` are joined in this order, with nothing between them, and the
/// joined text is hashed.
pub fn hash_pair(left: &str, right: &str) -> (fingerprint: String)
    ensures
        fingerprint@ == pair_fingerprint(left@, right@),
        is_fingerprint(fingerprint@),
{
    let mut combined = left.to_owned();
    combined.append(right);
    hash_data(combined.as_str())
}

} // verus!
