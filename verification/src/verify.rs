//! Per-signature verification: the body hash check, the reconstruction of
//! the signed header bytes with bottom-up consumption of repeated names,
//! and the cryptographic check of the signature itself.

use vstd::prelude::*;

use crate::bytes::{lower_seq, trimmed, lower_bytes, trim_ws, bytes_eq, append_bytes, views};
use crate::canon::{
    CanonMode, header_canon, body_canon_limited, canonicalize_body, canonicalize_header, crlf,
};
use crate::headers::{Header, HeaderModel, header_views};
use crate::sig::{SignatureRecord, SigModel, Algorithm, strip_b_value, blank_b_tag};
use crate::key::{KeyModel, PublicKeyRecord, KeyAlgorithm};
use crate::crypto::{
    sha1_of, sha256_of, b64_of, b64_decoded, sha1_digest, sha256_digest, b64_encode, b64_decode,
    rsa_sha1_valid, rsa_sha256_valid, ed25519_valid, rsa_sha1_verify, rsa_sha256_verify,
    ed25519_verify,
};

verus! {

/// Why a signature failed: structural proof of invalidity.
#[derive(Clone, Copy, PartialEq, Eq, Structural, Debug)]
pub enum FailCause {
    /// The canonical body does not hash to the declared `bh=` value.
    BodyHashMismatch,
    /// The key rejects the signature over the signed header bytes.
    SignatureMismatch,
    /// The `x=` time lies before the present.
    Expired,
}

/// Why a signature can never verify as it stands.
#[derive(Clone, Copy, PartialEq, Eq, Structural, Debug)]
pub enum PermCause {
    /// The signature header breaks a parsing rule.
    Parse(crate::sig::ParseError),
    /// The lookup found no key at the query name.
    NoKey,
    /// The key record breaks the key record rules, or its key bytes are no
    /// base64 text.
    KeyMalformed,
    /// The key is published revoked: its `p=` tag is empty.
    KeyRevoked,
    /// The key family does not fit the signature algorithm.
    KeyAlgorithmMismatch,
    /// The `b=` value is no base64 text.
    BadSignatureEncoding,
}

/// The standing of one signature after verification.
#[derive(Clone, Copy, PartialEq, Eq, Structural, Debug)]
pub enum DkimStatus {
    /// The signature verifies.
    Pass,
    /// The message proves the signature invalid.
    Fail(FailCause),
    /// The lookup failed in a way that may pass: worth retrying.
    TempError,
    /// The signature can never verify as it stands.
    PermError(PermCause),
    /// Reserved for recognized but unverifiable variants; never produced
    /// by this pipeline.
    Neutral,
    /// No signature is present at all.
    NoSignature,
}

/// A name equal to a signed-header name, whatever the case and the
/// whitespace around the stored name.
pub open spec fn name_matches(header_name: Seq<u8>, wanted_lower: Seq<u8>) -> bool {
    lower_seq(trimmed(header_name, false)) == wanted_lower
}

/// The instance a signed-header name consumes: counting from the bottom of
/// the header list, the `c`-th not-yet-consumed field of that name.
pub open spec fn nth_from_bottom(hs: Seq<HeaderModel>, n: Seq<u8>, c: nat) -> Option<HeaderModel>
    decreases hs.len(),
{
    if hs.len() == 0 {
        Option::None
    } else if name_matches(hs.last().name, n) {
        if c == 0 {
            Option::Some(hs.last())
        } else {
            nth_from_bottom(hs.drop_last(), n, (c - 1) as nat)
        }
    } else {
        nth_from_bottom(hs.drop_last(), n, c)
    }
}

/// How many earlier listed names equal this one: how many instances the
/// repetitions before it consume.
pub open spec fn count_eq_names(names: Seq<Seq<u8>>, n: Seq<u8>) -> nat
    decreases names.len(),
{
    if names.len() == 0 {
        0
    } else {
        count_eq_names(names.drop_last(), n) + if lower_seq(names.last()) == n {
            1nat
        } else {
            0nat
        }
    }
}

/// The header field the `j`-th listed name selects.
pub open spec fn selected_header(
    hs: Seq<HeaderModel>,
    names: Seq<Seq<u8>>,
    j: int,
) -> Option<HeaderModel> {
    nth_from_bottom(
        hs,
        lower_seq(names[j]),
        count_eq_names(names.take(j), lower_seq(names[j])),
    )
}

/// The canonical bytes of the first `j` selected header fields, each
/// closed with CRLF; an absent field contributes nothing.
pub open spec fn signed_block(
    hs: Seq<HeaderModel>,
    names: Seq<Seq<u8>>,
    mode: CanonMode,
    j: int,
) -> Seq<u8>
    decreases j,
{
    if j <= 0 {
        Seq::empty()
    } else {
        signed_block(hs, names, mode, j - 1) + match selected_header(hs, names, j - 1) {
            Option::Some(h) => header_canon(h.name, h.value, mode) + crlf(),
            Option::None => Seq::empty(),
        }
    }
}

/// The bytes whose digest the signature signs: the selected header fields
/// and, last and unterminated, the signature header itself with its `b=`
/// value removed.
pub open spec fn header_hash_input(
    hs: Seq<HeaderModel>,
    sig_hdr: HeaderModel,
    rec: SigModel,
) -> Seq<u8> {
    signed_block(hs, rec.signed_headers, rec.header_mode, rec.signed_headers.len() as int)
        + header_canon(sig_hdr.name, strip_b_value(sig_hdr.value), rec.header_mode)
}

/// The digest function of a signature algorithm.
pub open spec fn hash_of(alg: Algorithm, data: Seq<u8>) -> Seq<u8> {
    match alg {
        Algorithm::RsaSha1 => sha1_of(data),
        Algorithm::RsaSha256 => sha256_of(data),
        Algorithm::Ed25519Sha256 => sha256_of(data),
    }
}

/// Whether a key accepts a signature over a digest, under the signature
/// algorithm's scheme.
pub open spec fn sig_accepted(alg: Algorithm, key: Seq<u8>, digest: Seq<u8>, sig: Seq<u8>) -> bool {
    match alg {
        Algorithm::RsaSha1 => rsa_sha1_valid(key, digest, sig),
        Algorithm::RsaSha256 => rsa_sha256_valid(key, digest, sig),
        Algorithm::Ed25519Sha256 => ed25519_valid(key, digest, sig),
    }
}

/// The key family a signature algorithm needs.
pub open spec fn family_of(alg: Algorithm) -> KeyAlgorithm {
    match alg {
        Algorithm::RsaSha1 => KeyAlgorithm::Rsa,
        Algorithm::RsaSha256 => KeyAlgorithm::Rsa,
        Algorithm::Ed25519Sha256 => KeyAlgorithm::Ed25519,
    }
}

/// What verifying one parsed signature against one resolved key yields,
/// in checking order: a revoked key, a key of the wrong family, the body
/// hash, the signature bytes, the key bytes, the signature itself, and
/// the expiration time.
pub open spec fn verdict(
    hs: Seq<HeaderModel>,
    body: Seq<u8>,
    sig_hdr: HeaderModel,
    rec: SigModel,
    key: KeyModel,
    now: u64,
) -> DkimStatus {
    if key.revoked {
        DkimStatus::PermError(PermCause::KeyRevoked)
    } else if key.key_algorithm != family_of(rec.algorithm) {
        DkimStatus::PermError(PermCause::KeyAlgorithmMismatch)
    } else if b64_of(hash_of(rec.algorithm, body_canon_limited(body, rec.body_mode, rec.body_limit)))
        != rec.body_hash_b64 {
        DkimStatus::Fail(FailCause::BodyHashMismatch)
    } else {
        match b64_decoded(rec.signature_b64) {
            Option::None => DkimStatus::PermError(PermCause::BadSignatureEncoding),
            Option::Some(sig_bytes) => match b64_decoded(key.key_data_b64) {
                Option::None => DkimStatus::PermError(PermCause::KeyMalformed),
                Option::Some(key_bytes) => {
                    if !sig_accepted(
                        rec.algorithm,
                        key_bytes,
                        hash_of(rec.algorithm, header_hash_input(hs, sig_hdr, rec)),
                        sig_bytes,
                    ) {
                        DkimStatus::Fail(FailCause::SignatureMismatch)
                    } else if rec.expiration is Some && rec.expiration.unwrap() < now {
                        DkimStatus::Fail(FailCause::Expired)
                    } else {
                        DkimStatus::Pass
                    }
                },
            },
        }
    }
}

/// Find the instance a signed-header name consumes.
fn select_from_bottom(hs: &Vec<Header>, n: &[u8], c: usize) -> (r: Option<usize>)
    ensures
        match r {
            Option::Some(i) => i < hs@.len() && nth_from_bottom(header_views(hs@), n@, c as nat)
                == Option::Some(header_views(hs@)[i as int]),
            Option::None => nth_from_bottom(header_views(hs@), n@, c as nat) is None,
        },
{
    let mut i: usize = hs.len();
    let mut left: usize = c;
    proof {
        assert(header_views(hs@).take(hs@.len() as int) =~= header_views(hs@));
    }
    while i > 0
        invariant
            i <= hs@.len(),
            nth_from_bottom(header_views(hs@), n@, c as nat) == nth_from_bottom(
                header_views(hs@).take(i as int),
                n@,
                left as nat,
            ),
        decreases i,
    {
        let ghost vs = header_views(hs@);
        proof {
            assert(vs.take(i as int).drop_last() =~= vs.take(i - 1));
            assert(vs.take(i as int).last() == vs[i - 1]);
        }
        let t = trim_ws(hs[i - 1].name.as_slice(), false);
        let low = lower_bytes(t.as_slice());
        if bytes_eq(low.as_slice(), n) {
            if left == 0 {
                return Option::Some(i - 1);
            }
            left = left - 1;
        }
        i = i - 1;
    }
    proof {
        assert(header_views(hs@).take(0) =~= Seq::<HeaderModel>::empty());
    }
    Option::None
}

/// How many earlier listed names equal this one.
fn count_eq_names_exec(names: &Vec<Vec<u8>>, j: usize, n: &[u8]) -> (r: usize)
    requires
        j <= names@.len(),
    ensures
        r == count_eq_names(views(names@).take(j as int), n@),
        r <= j,
{
    let mut c: usize = 0;
    let mut i: usize = 0;
    proof {
        assert(views(names@).take(0) =~= Seq::<Seq<u8>>::empty());
    }
    while i < j
        invariant
            i <= j <= names@.len(),
            c <= i,
            c == count_eq_names(views(names@).take(i as int), n@),
        decreases j - i,
    {
        let ghost vs = views(names@);
        proof {
            assert(vs.take(i + 1).drop_last() =~= vs.take(i as int));
            assert(vs.take(i + 1).last() == vs[i as int]);
        }
        let low = lower_bytes(names[i].as_slice());
        if bytes_eq(low.as_slice(), n) {
            c = c + 1;
        }
        i = i + 1;
    }
    c
}

/// Build the bytes whose digest the signature signs.
pub fn build_header_hash_input(hs: &Vec<Header>, sig_hdr: &Header, rec: &SignatureRecord) -> (r:
    Vec<u8>)
    ensures
        r@ == header_hash_input(header_views(hs@), sig_hdr@, rec@),
{
    let mut out: Vec<u8> = Vec::new();
    let mut j: usize = 0;
    let names = &rec.signed_headers;
    while j < names.len()
        invariant
            j <= names@.len(),
            views(names@) == rec@.signed_headers,
            out@ == signed_block(header_views(hs@), rec@.signed_headers, rec@.header_mode, j as int),
        decreases names@.len() - j,
    {
        let ghost nv = views(names@);
        let low = lower_bytes(names[j].as_slice());
        proof {
            assert(low@ == lower_seq(nv[j as int]));
        }
        let c = count_eq_names_exec(names, j, low.as_slice());
        match select_from_bottom(hs, low.as_slice(), c) {
            Option::Some(i) => {
                let h = &hs[i];
                let canon = canonicalize_header(
                    h.name.as_slice(),
                    h.value.as_slice(),
                    rec.header_mode,
                );
                append_bytes(&mut out, canon.as_slice());
                out.push(13);
                out.push(10);
                proof {
                    let hv = header_views(hs@);
                    assert(hv[i as int] == hs@[i as int]@);
                    assert(selected_header(hv, nv, j as int) == Option::Some(hv[i as int]));
                    assert(out@ =~= signed_block(hv, nv, rec@.header_mode, j as int)
                        + header_canon(hv[i as int].name, hv[i as int].value, rec@.header_mode)
                        + crlf());
                }
            },
            Option::None => {
                proof {
                    let hv = header_views(hs@);
                    assert(selected_header(hv, nv, j as int) is None);
                    assert(out@ =~= signed_block(hv, nv, rec@.header_mode, j as int)
                        + Seq::<u8>::empty());
                }
            },
        }
        j = j + 1;
    }
    let blanked = blank_b_tag(sig_hdr.value.as_slice());
    let own = canonicalize_header(sig_hdr.name.as_slice(), blanked.as_slice(), rec.header_mode);
    append_bytes(&mut out, own.as_slice());
    out
}

/// The digest of a signature algorithm.
pub fn digest_for(alg: Algorithm, data: &[u8]) -> (r: Vec<u8>)
    ensures
        r@ == hash_of(alg, data@),
{
    match alg {
        Algorithm::RsaSha1 => sha1_digest(data),
        Algorithm::RsaSha256 => sha256_digest(data),
        Algorithm::Ed25519Sha256 => sha256_digest(data),
    }
}

/// Verify one parsed signature against one resolved key. The lookup and
/// the parse have already happened; everything here is a function of the
/// supplied values, the trusted digest, base64 and signature-check results
/// included.
pub fn verify_signature(
    hs: &Vec<Header>,
    body: &[u8],
    sig_hdr: &Header,
    rec: &SignatureRecord,
    key: &PublicKeyRecord,
    now: u64,
) -> (r: DkimStatus)
    ensures
        r == verdict(header_views(hs@), body@, sig_hdr@, rec@, key@, now),
{
    if key.revoked {
        return DkimStatus::PermError(PermCause::KeyRevoked);
    }
    let fam = match rec.algorithm {
        Algorithm::RsaSha1 => KeyAlgorithm::Rsa,
        Algorithm::RsaSha256 => KeyAlgorithm::Rsa,
        Algorithm::Ed25519Sha256 => KeyAlgorithm::Ed25519,
    };
    if key.key_algorithm != fam {
        return DkimStatus::PermError(PermCause::KeyAlgorithmMismatch);
    }
    let canonical_body = canonicalize_body(body, rec.body_mode, rec.body_limit);
    let body_digest = digest_for(rec.algorithm, canonical_body.as_slice());
    let computed_bh = b64_encode(body_digest.as_slice());
    if !bytes_eq(computed_bh.as_slice(), rec.body_hash_b64.as_slice()) {
        return DkimStatus::Fail(FailCause::BodyHashMismatch);
    }
    let sig_bytes = match b64_decode(rec.signature_b64.as_slice()) {
        Option::Some(v) => v,
        Option::None => {
            return DkimStatus::PermError(PermCause::BadSignatureEncoding);
        },
    };
    let key_bytes = match b64_decode(key.key_data_b64.as_slice()) {
        Option::Some(v) => v,
        Option::None => {
            return DkimStatus::PermError(PermCause::KeyMalformed);
        },
    };
    let input = build_header_hash_input(hs, sig_hdr, rec);
    let header_digest = digest_for(rec.algorithm, input.as_slice());
    let accepted = match rec.algorithm {
        Algorithm::RsaSha1 => rsa_sha1_verify(
            key_bytes.as_slice(),
            header_digest.as_slice(),
            sig_bytes.as_slice(),
        ),
        Algorithm::RsaSha256 => rsa_sha256_verify(
            key_bytes.as_slice(),
            header_digest.as_slice(),
            sig_bytes.as_slice(),
        ),
        Algorithm::Ed25519Sha256 => ed25519_verify(
            key_bytes.as_slice(),
            header_digest.as_slice(),
            sig_bytes.as_slice(),
        ),
    };
    if !accepted {
        return DkimStatus::Fail(FailCause::SignatureMismatch);
    }
    if let Option::Some(x) = rec.expiration {
        if x < now {
            return DkimStatus::Fail(FailCause::Expired);
        }
    }
    DkimStatus::Pass
}

} // verus!
