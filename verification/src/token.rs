//! Random token generation.
//!
//! A candidate token is minted from 16 cryptographically secure random bytes,
//! hashed with SHA-256 for uniform distribution, encoded with the URL-safe,
//! padding-free base64 alphabet, and truncated to 16 characters.  Drawing the
//! bytes is the only outside step whose outcome is not a function of its
//! arguments; everything after it is `token_from_bytes`, verified to compute
//! exactly the digest-encode-truncate derivation.  Minting alone does not
//! guarantee global uniqueness; the vault checks candidates against its live
//! tokens (`Vault::pick_fresh_token`).

use vstd::prelude::*;

use crate::errors::VaultError;
use crate::text::{is_ws, word_ok};

use base64::Engine;
use sha2::Digest;

verus! {

/// Characters of the URL-safe base64 alphabet: `A`-`Z`, `a`-`z`, `0`-`9`,
/// `-` and `_`.
pub open spec fn is_b64url_char(c: char) -> bool {
    let u = c as u32;
    ||| (0x41 <= u && u <= 0x5A)
    ||| (0x61 <= u && u <= 0x7A)
    ||| (0x30 <= u && u <= 0x39)
    ||| u == 0x2D
    ||| u == 0x5F
}

/// The shape of every minted token: 16 characters, all from the URL-safe
/// base64 alphabet.
pub open spec fn token_shaped(t: Seq<char>) -> bool {
    t.len() == 16 && (forall|i: int| 0 <= i < t.len() ==> is_b64url_char(#[trigger] t[i]))
}

/// No character of the URL-safe base64 alphabet is whitespace.
pub proof fn lemma_b64url_not_ws(c: char)
    ensures
        is_b64url_char(c) ==> !is_ws(c),
{
}

/// A shaped token is in particular nonempty and whitespace-free.
pub proof fn lemma_token_shaped_word_ok(t: Seq<char>)
    requires
        token_shaped(t),
    ensures
        word_ok(t),
{
    assert forall|i: int| 0 <= i < t.len() implies !is_ws(#[trigger] t[i]) by {
        lemma_b64url_not_ws(t[i]);
    }
}

/// The SHA-256 digest of a byte sequence, determined by the bytes alone.
pub uninterp spec fn sha256_of(b: Seq<u8>) -> Seq<u8>;

/// The URL-safe, padding-free base64 encoding of a byte sequence.
pub uninterp spec fn b64url_of(b: Seq<u8>) -> Seq<char>;

/// Relies on rand's `OsRng` (`RngCore::try_fill_bytes`): fills the buffer
/// with cryptographically secure random bytes, or reports that the operating
/// system's randomness source failed.  Nothing can be promised about the
/// values, only that the buffer keeps its length.
#[verifier::external_body]
fn try_fill_random(buf: &mut Vec<u8>) -> (r: Result<(), rand::Error>)
    ensures
        final(buf)@.len() == old(buf)@.len(),
{
    rand::RngCore::try_fill_bytes(&mut rand::rngs::OsRng, buf.as_mut_slice())
}

/// Relies on `rand::Error`: the randomness source's error type.
#[verifier::external_type_specification]
#[verifier::external_body]
pub struct ExRandError(rand::Error);

/// Relies on sha2's `Sha256::digest`: a 32-byte digest that is a function of
/// the input bytes alone.
#[verifier::external_body]
fn sha256(data: &Vec<u8>) -> (r: Vec<u8>)
    ensures
        r@ == sha256_of(data@),
        r@.len() == 32,
{
    sha2::Sha256::digest(data.as_slice()).to_vec()
}

/// Relies on base64's `URL_SAFE_NO_PAD` engine: encodes to the URL-safe
/// alphabet without padding, so the output length is `ceil(4n/3)` and every
/// output character is in the URL-safe base64 alphabet.  The encoding is a
/// function of the input bytes alone.
#[verifier::external_body]
fn b64url_encode(data: &Vec<u8>) -> (r: String)
    ensures
        r@ == b64url_of(data@),
        r@.len() == (data@.len() * 4 + 2) / 3,
        forall|i: int| 0 <= i < r@.len() ==> is_b64url_char(#[trigger] r@[i]),
{
    base64::engine::general_purpose::URL_SAFE_NO_PAD.encode(data.as_slice())
}

/// Derives a token from already-drawn random bytes: the SHA-256 digest of
/// the bytes, base64 URL-safe encoded without padding, truncated to the
/// first 16 characters.  This is the whole derivation; it is a function of
/// `r` alone.
pub fn token_from_bytes(r: &Vec<u8>) -> (t: String)
    ensures
        t@ == b64url_of(sha256_of(r@)).subrange(0, 16),
        token_shaped(t@),
        word_ok(t@),
{
    let digest = sha256(r);
    let encoded = b64url_encode(&digest);
    assert(encoded@.len() == 43);
    let t = vstd::string::StrSliceExecFns::substring_char(encoded.as_str(), 0, 16).to_owned();
    proof {
        assert(t@ =~= encoded@.subrange(0, 16));
        lemma_token_shaped_word_ok(t@);
    }
    t
}

/// Mints a candidate token: draws 16 secure random bytes and derives the
/// token from them with `token_from_bytes`.
///
/// The drawn bytes are random, so nothing relates the result to any input;
/// every candidate is 16 characters from the URL-safe alphabet, and in
/// particular nonempty and whitespace-free.  When the randomness source
/// fails no candidate exists, and that is reported rather than panicking.
pub fn generate_token() -> (r: Result<String, VaultError>)
    ensures
        match r {
            Ok(t) => token_shaped(t@) && word_ok(t@),
            Err(e) => e == VaultError::RandomnessUnavailable,
        },
{
    let mut buf: Vec<u8> = vec![0u8; 16];
    match try_fill_random(&mut buf) {
        Ok(u) => u,
        Err(_) => {
            return Err(VaultError::RandomnessUnavailable);
        },
    }
    Ok(token_from_bytes(&buf))
}

} // verus!
