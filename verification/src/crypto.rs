//! The cryptographic collaborators: digests, base64 and signature
//! verification, each behind a trusted wrapper whose result is a function
//! of its arguments alone.

use vstd::prelude::*;

use sha1::Digest;
use rsa::pkcs8::DecodePublicKey;
use rsa::pkcs1::DecodeRsaPublicKey;
use base64::Engine;

verus! {

/// The SHA-1 digest of a byte sequence.
pub uninterp spec fn sha1_of(data: Seq<u8>) -> Seq<u8>;

/// Relies on sha1::Sha1 through the digest interface: a 20-byte digest
/// that depends on the input bytes alone.
#[verifier::external_body]
pub(crate) fn sha1_digest(data: &[u8]) -> (r: Vec<u8>)
    ensures
        r@ == sha1_of(data@),
        r@.len() == 20,
{
    sha1::Sha1::digest(data).to_vec()
}

/// The SHA-256 digest of a byte sequence.
pub uninterp spec fn sha256_of(data: Seq<u8>) -> Seq<u8>;

/// Relies on sha2::Sha256 through the digest interface: a 32-byte digest
/// that depends on the input bytes alone.
#[verifier::external_body]
pub(crate) fn sha256_digest(data: &[u8]) -> (r: Vec<u8>)
    ensures
        r@ == sha256_of(data@),
        r@.len() == 32,
{
    sha2::Sha256::digest(data).to_vec()
}

/// The standard-alphabet, padded base64 text of a byte sequence.
pub uninterp spec fn b64_of(data: Seq<u8>) -> Seq<u8>;

/// Relies on base64's STANDARD engine, Engine::encode: the text depends on
/// the input bytes alone.
#[verifier::external_body]
pub(crate) fn b64_encode(data: &[u8]) -> (r: Vec<u8>)
    ensures
        r@ == b64_of(data@),
{
    base64::engine::general_purpose::STANDARD.encode(data).into_bytes()
}

/// What decoding standard-alphabet, padded base64 text yields, when the
/// text is well-formed.
pub uninterp spec fn b64_decoded(text: Seq<u8>) -> Option<Seq<u8>>;

/// Relies on base64's STANDARD engine, Engine::decode: success and the
/// bytes decoded depend on the text alone.
#[verifier::external_body]
pub(crate) fn b64_decode(text: &[u8]) -> (r: Option<Vec<u8>>)
    ensures
        match r {
            Option::Some(v) => b64_decoded(text@) == Option::Some(v@),
            Option::None => b64_decoded(text@) is None,
        },
{
    match base64::engine::general_purpose::STANDARD.decode(text) {
        Ok(v) => Option::Some(v),
        Err(_) => Option::None,
    }
}

/// Whether an RSA key accepts a PKCS#1 v1.5 signature over a SHA-256
/// digest.
pub uninterp spec fn rsa_sha256_valid(key_der: Seq<u8>, digest: Seq<u8>, sig: Seq<u8>) -> bool;

/// Relies on rsa::RsaPublicKey::from_public_key_der (with
/// from_pkcs1_der as fallback) and RsaPublicKey::verify under
/// Pkcs1v15Sign for SHA-256: acceptance depends on key bytes, digest and
/// signature alone; an unreadable key accepts nothing.
#[verifier::external_body]
pub(crate) fn rsa_sha256_verify(key_der: &[u8], digest: &[u8], sig: &[u8]) -> (r: bool)
    ensures
        r == rsa_sha256_valid(key_der@, digest@, sig@),
{
    let key = match rsa::RsaPublicKey::from_public_key_der(key_der) {
        Ok(k) => k,
        Err(_) => match rsa::RsaPublicKey::from_pkcs1_der(key_der) {
            Ok(k) => k,
            Err(_) => return false,
        },
    };
    key.verify(rsa::Pkcs1v15Sign::new::<sha2::Sha256>(), digest, sig).is_ok()
}

/// Whether an RSA key accepts a PKCS#1 v1.5 signature over a SHA-1 digest.
pub uninterp spec fn rsa_sha1_valid(key_der: Seq<u8>, digest: Seq<u8>, sig: Seq<u8>) -> bool;

/// Relies on rsa::RsaPublicKey::from_public_key_der (with
/// from_pkcs1_der as fallback) and RsaPublicKey::verify under
/// Pkcs1v15Sign for SHA-1: acceptance depends on key bytes, digest and
/// signature alone; an unreadable key accepts nothing.
#[verifier::external_body]
pub(crate) fn rsa_sha1_verify(key_der: &[u8], digest: &[u8], sig: &[u8]) -> (r: bool)
    ensures
        r == rsa_sha1_valid(key_der@, digest@, sig@),
{
    let key = match rsa::RsaPublicKey::from_public_key_der(key_der) {
        Ok(k) => k,
        Err(_) => match rsa::RsaPublicKey::from_pkcs1_der(key_der) {
            Ok(k) => k,
            Err(_) => return false,
        },
    };
    key.verify(rsa::Pkcs1v15Sign::new::<sha1::Sha1>(), digest, sig).is_ok()
}

/// Whether an Ed25519 key accepts a signature over a message.
pub uninterp spec fn ed25519_valid(key: Seq<u8>, msg: Seq<u8>, sig: Seq<u8>) -> bool;

/// Relies on ed25519_dalek::VerifyingKey::{from_bytes, verify_strict} and
/// ed25519_dalek::Signature::from_slice: acceptance depends on key bytes,
/// message and signature alone; a key or signature of the wrong shape
/// accepts nothing.
#[verifier::external_body]
pub(crate) fn ed25519_verify(key: &[u8], msg: &[u8], sig: &[u8]) -> (r: bool)
    ensures
        r == ed25519_valid(key@, msg@, sig@),
{
    let key_arr: [u8; 32] = match key.try_into() {
        Ok(a) => a,
        Err(_) => return false,
    };
    let vk = match ed25519_dalek::VerifyingKey::from_bytes(&key_arr) {
        Ok(k) => k,
        Err(_) => return false,
    };
    let sg = match ed25519_dalek::Signature::from_slice(sig) {
        Ok(s) => s,
        Err(_) => return false,
    };
    vk.verify_strict(msg, &sg).is_ok()
}

} // verus!
