use base64::Engine;
use ed25519_dalek::Signer;
use rsa::pkcs8::EncodePublicKey;
use sha2::Digest;

use dkim_verify::headers::parse_headers;
use dkim_verify::key::DnsOutcome;
use dkim_verify::pipeline::{
    count_signatures, message_trusted, overall_status, signature_queries, trusted_under,
    uses_length_limit, verify_message, TrustPolicy,
};
use dkim_verify::sig::parse_signature;
use dkim_verify::verify::{build_header_hash_input, DkimStatus, FailCause, PermCause};

fn b64(data: &[u8]) -> String {
    base64::engine::general_purpose::STANDARD.encode(data)
}

/// Build a message carrying one valid Ed25519 signature over
/// `h=from:subject` with relaxed/simple canonicalization, together with
/// the TXT key record that verifies it. `extra_tags` go into the
/// signature header before the `b=` tag.
fn signed_message(extra_tags: &str) -> (Vec<u8>, Vec<u8>) {
    let sk = ed25519_dalek::SigningKey::from_bytes(&[7u8; 32]);
    let vk = sk.verifying_key();
    let body = b"Hello world\r\n".to_vec();
    let bh = b64(&sha2::Sha256::digest(&body));
    // assemble without the signature first
    let make = |btag: &str| -> Vec<u8> {
        let mut m = Vec::new();
        m.extend_from_slice(b"From: alice@example.com\r\nSubject: Hi\r\nDKIM-Signature: ");
        m.extend_from_slice(
            format!(
                "v=1; a=ed25519-sha256; c=relaxed/simple; d=example.com; s=sel1; h=from:subject; bh={};{} b={}",
                bh, extra_tags, btag
            )
            .as_bytes(),
        );
        m.extend_from_slice(b"\r\n\r\n");
        m.extend_from_slice(&body);
        m
    };
    let unsigned = make("");
    let hs = parse_headers(&unsigned);
    let rec = parse_signature(&hs[2].value).unwrap();
    let input = build_header_hash_input(&hs, &hs[2], &rec);
    let digest = sha2::Sha256::digest(&input);
    let sig = sk.sign(&digest);
    let msg = make(&b64(&sig.to_bytes()));
    let key_txt = format!("v=DKIM1; k=ed25519; p={}", b64(vk.as_bytes())).into_bytes();
    (msg, key_txt)
}

fn records(txt: Vec<u8>) -> DnsOutcome {
    DnsOutcome::Records(vec![txt])
}

#[test]
fn no_signature_yields_overall_none_status() {
    let msg = b"From: a@example.com\r\nSubject: x\r\n\r\nbody\r\n";
    let rs = verify_message(msg, &vec![], 0);
    assert_eq!(rs.len(), 0);
    assert_eq!(overall_status(&rs), DkimStatus::NoSignature);
    assert!(!message_trusted(&rs));
    assert_eq!(count_signatures(msg), 0);
}

#[test]
fn valid_signature_passes_end_to_end() {
    let (msg, key_txt) = signed_message("");
    let rs = verify_message(&msg, &vec![records(key_txt)], 0);
    assert_eq!(rs.len(), 1);
    assert_eq!(rs[0].status, DkimStatus::Pass);
    assert_eq!(rs[0].domain, b"example.com".to_vec());
    assert_eq!(rs[0].selector, b"sel1".to_vec());
    assert!(message_trusted(&rs));
    assert_eq!(overall_status(&rs), DkimStatus::Pass);
}

#[test]
fn altered_body_hash_fails_as_body_hash_mismatch() {
    let (msg, key_txt) = signed_message("");
    // corrupt the bh= value: swap the first of its base64 characters
    let s = String::from_utf8(msg).unwrap();
    let corrupted = if s.contains("bh=A") {
        s.replacen("bh=A", "bh=B", 1)
    } else {
        s.replacen("bh=", "bh=A", 1)
    };
    let rs = verify_message(corrupted.as_bytes(), &vec![records(key_txt)], 0);
    assert_eq!(rs[0].status, DkimStatus::Fail(FailCause::BodyHashMismatch));
    assert!(!message_trusted(&rs));
}

#[test]
fn flipped_body_byte_fails_as_body_hash_mismatch() {
    let (msg, key_txt) = signed_message("");
    let mut m = msg.clone();
    let n = m.len();
    m[n - 3] ^= 0x01;  // inside "world" of the body
    let rs = verify_message(&m, &vec![records(key_txt)], 0);
    assert_eq!(rs[0].status, DkimStatus::Fail(FailCause::BodyHashMismatch));
}

#[test]
fn flipped_signed_header_byte_fails_as_signature_mismatch() {
    let (msg, key_txt) = signed_message("");
    let s = String::from_utf8(msg).unwrap();
    let tampered = s.replacen("Subject: Hi", "Subject: Ho", 1);
    let rs = verify_message(tampered.as_bytes(), &vec![records(key_txt)], 0);
    assert_eq!(rs[0].status, DkimStatus::Fail(FailCause::SignatureMismatch));
    assert!(!message_trusted(&rs));
}

#[test]
fn empty_record_set_is_a_permanent_no_key_error() {
    let (msg, _) = signed_message("");
    let rs = verify_message(&msg, &vec![DnsOutcome::Records(vec![])], 0);
    assert_eq!(rs[0].status, DkimStatus::PermError(PermCause::NoKey));
    assert_eq!(overall_status(&rs), DkimStatus::PermError(PermCause::NoKey));
}

#[test]
fn dns_timeout_is_a_temporary_error_not_a_permanent_one() {
    let (msg, _) = signed_message("");
    let rs = verify_message(&msg, &vec![DnsOutcome::Timeout], 0);
    assert_eq!(rs[0].status, DkimStatus::TempError);
    assert_ne!(rs[0].status, DkimStatus::PermError(PermCause::NoKey));
}

#[test]
fn missing_lookup_outcome_is_a_temporary_error() {
    let (msg, _) = signed_message("");
    let rs = verify_message(&msg, &vec![], 0);
    assert_eq!(rs[0].status, DkimStatus::TempError);
}

#[test]
fn revoked_key_wins_over_a_valid_signature() {
    let (msg, _) = signed_message("");
    let revoked = b"v=DKIM1; k=ed25519; p=".to_vec();
    let rs = verify_message(&msg, &vec![records(revoked)], 0);
    assert_eq!(rs[0].status, DkimStatus::PermError(PermCause::KeyRevoked));
}

#[test]
fn key_family_must_fit_the_algorithm() {
    let (msg, key_txt) = signed_message("");
    let as_rsa = String::from_utf8(key_txt).unwrap().replacen("k=ed25519", "k=rsa", 1);
    let rs = verify_message(&msg, &vec![records(as_rsa.into_bytes())], 0);
    assert_eq!(rs[0].status, DkimStatus::PermError(PermCause::KeyAlgorithmMismatch));
}

#[test]
fn undecodable_key_data_is_malformed() {
    let (msg, _) = signed_message("");
    let bad = b"v=DKIM1; k=ed25519; p=@@@".to_vec();
    let rs = verify_message(&msg, &vec![records(bad)], 0);
    assert_eq!(rs[0].status, DkimStatus::PermError(PermCause::KeyMalformed));
}

#[test]
fn undecodable_signature_value_is_a_permanent_error() {
    let (msg, key_txt) = signed_message("");
    let s = String::from_utf8(msg).unwrap();
    // replace the whole b= value with text no base64 decoder takes
    let at = s.find(" b=").unwrap();
    let mut broken = s[..at].to_string();
    broken.push_str(" b=@@@\r\n\r\nHello world\r\n");
    let rs = verify_message(broken.as_bytes(), &vec![records(key_txt)], 0);
    assert_eq!(rs[0].status, DkimStatus::PermError(PermCause::BadSignatureEncoding));
}

#[test]
fn expired_signature_fails_as_expired() {
    let (msg, key_txt) = signed_message(" t=5; x=10;");
    let fresh = verify_message(&msg, &vec![records(key_txt.clone())], 9);
    assert_eq!(fresh[0].status, DkimStatus::Pass);
    let stale = verify_message(&msg, &vec![records(key_txt)], 11);
    assert_eq!(stale[0].status, DkimStatus::Fail(FailCause::Expired));
}

#[test]
fn parse_error_reports_as_permanent_error() {
    let msg = b"From: a@example.com\r\nDKIM-Signature: v=1; a=none\r\n\r\nbody\r\n";
    let rs = verify_message(msg, &vec![DnsOutcome::Timeout], 0);
    assert_eq!(rs.len(), 1);
    match rs[0].status {
        DkimStatus::PermError(PermCause::Parse(_)) => {},
        _ => panic!("expected a parse error"),
    }
}

#[test]
fn queries_name_the_published_key() {
    let (msg, _) = signed_message("");
    let qs = signature_queries(&msg);
    assert_eq!(qs.len(), 1);
    assert_eq!(qs[0], b"sel1._domainkey.example.com".to_vec());
}

#[test]
fn every_signature_must_pass_for_trust() {
    let (msg, key_txt) = signed_message("");
    // a second message with the same signature header twice
    let s = String::from_utf8(msg).unwrap();
    let at = s.find("DKIM-Signature:").unwrap();
    let end = s.find("\r\n\r\n").unwrap();
    let sig_line = &s[at..end + 2];
    let doubled = format!("{}{}{}", &s[..at], sig_line, &s[at..]);
    let both_ok = verify_message(
        doubled.as_bytes(),
        &vec![records(key_txt.clone()), records(key_txt.clone())],
        0,
    );
    assert_eq!(both_ok.len(), 2);
    assert!(message_trusted(&both_ok));
    let one_broken = verify_message(
        doubled.as_bytes(),
        &vec![records(key_txt), DnsOutcome::Timeout],
        0,
    );
    assert!(!message_trusted(&one_broken));
    assert_eq!(overall_status(&one_broken), DkimStatus::TempError);
}

#[test]
fn repeated_names_consume_headers_bottom_up() {
    let msg = b"From: a@example.com\r\nSubject: first\r\nSubject: second\r\nDKIM-Signature: v=1; a=ed25519-sha256; c=relaxed/relaxed; d=example.com; s=s1; h=from:subject:subject; bh=QQ==; b=\r\n\r\nbody\r\n";
    let hs = parse_headers(msg);
    let rec = parse_signature(&hs[3].value).unwrap();
    let input = build_header_hash_input(&hs, &hs[3], &rec);
    let text = String::from_utf8(input).unwrap();
    let second = text.find("subject:second").unwrap();
    let first = text.find("subject:first").unwrap();
    assert!(second < first, "the lowest instance must be consumed first");
}

#[test]
fn rsa_sha256_signature_passes_end_to_end() {
    let mut rng = rand::thread_rng();
    let sk = rsa::RsaPrivateKey::new(&mut rng, 1024).unwrap();
    let pk = sk.to_public_key();
    let pk_der = pk.to_public_key_der().unwrap().as_bytes().to_vec();
    let body = b"Hello world\r\n".to_vec();
    let bh = b64(&sha2::Sha256::digest(&body));
    let make = |btag: &str| -> Vec<u8> {
        let mut m = Vec::new();
        m.extend_from_slice(b"From: alice@example.com\r\nSubject: Hi\r\nDKIM-Signature: ");
        m.extend_from_slice(
            format!(
                "v=1; a=rsa-sha256; c=relaxed/simple; d=example.com; s=sel1; h=from:subject; bh={}; b={}",
                bh, btag
            )
            .as_bytes(),
        );
        m.extend_from_slice(b"\r\n\r\n");
        m.extend_from_slice(&body);
        m
    };
    let unsigned = make("");
    let hs = parse_headers(&unsigned);
    let rec = parse_signature(&hs[2].value).unwrap();
    let input = build_header_hash_input(&hs, &hs[2], &rec);
    let digest = sha2::Sha256::digest(&input);
    let sig = sk.sign(rsa::Pkcs1v15Sign::new::<sha2::Sha256>(), &digest).unwrap();
    let msg = make(&b64(&sig));
    let key_txt = format!("v=DKIM1; k=rsa; p={}", b64(&pk_der)).into_bytes();
    let rs = verify_message(&msg, &vec![records(key_txt.clone())], 0);
    assert_eq!(rs[0].status, DkimStatus::Pass);
    // and a wrong signature under the same key must not pass
    let forged = make(&b64(&vec![0u8; sig.len()]));
    let rs2 = verify_message(&forged, &vec![records(key_txt)], 0);
    assert_eq!(rs2[0].status, DkimStatus::Fail(FailCause::SignatureMismatch));
}

#[test]
fn any_pass_policy_differs_from_all_must_pass() {
    let (msg, key_txt) = signed_message("");
    let s = String::from_utf8(msg).unwrap();
    let at = s.find("DKIM-Signature:").unwrap();
    let end = s.find("\r\n\r\n").unwrap();
    let sig_line = &s[at..end + 2];
    let doubled = format!("{}{}{}", &s[..at], sig_line, &s[at..]);
    let mixed = verify_message(
        doubled.as_bytes(),
        &vec![records(key_txt), DnsOutcome::Timeout],
        0,
    );
    assert!(!trusted_under(TrustPolicy::AllMustPass, &mixed));
    assert!(trusted_under(TrustPolicy::AnyPass, &mixed));
    let none = verify_message(b"From: a@b.example\r\n\r\nx", &vec![], 0);
    assert!(!trusted_under(TrustPolicy::AnyPass, &none));
}

#[test]
fn length_limited_signatures_are_flagged() {
    let with = parse_signature(
        b"v=1; a=rsa-sha256; d=example.com; s=s1; h=from; bh=QQ==; b=Qg==; l=5",
    )
    .unwrap();
    assert!(uses_length_limit(&with));
    let without =
        parse_signature(b"v=1; a=rsa-sha256; d=example.com; s=s1; h=from; bh=QQ==; b=Qg==")
            .unwrap();
    assert!(!uses_length_limit(&without));
}

#[test]
fn relaxed_body_mode_passes_end_to_end() {
    let sk = ed25519_dalek::SigningKey::from_bytes(&[9u8; 32]);
    let vk = sk.verifying_key();
    let body = b"Hello   world \r\nsecond\t line\r\n\r\n".to_vec();
    let canonical = dkim_verify::canon::canonicalize_body(
        &body,
        dkim_verify::canon::CanonMode::Relaxed,
        None,
    );
    assert_eq!(canonical, b"Hello world\r\nsecond line\r\n".to_vec());
    let bh = b64(&sha2::Sha256::digest(&canonical));
    let make = |btag: &str| -> Vec<u8> {
        let mut m = Vec::new();
        m.extend_from_slice(b"From: alice@example.com\r\nSubject: Hi\r\nDKIM-Signature: ");
        m.extend_from_slice(
            format!(
                "v=1; a=ed25519-sha256; c=relaxed/relaxed; d=example.com; s=sel1; h=from:subject; bh={}; b={}",
                bh, btag
            )
            .as_bytes(),
        );
        m.extend_from_slice(b"\r\n\r\n");
        m.extend_from_slice(&body);
        m
    };
    let unsigned = make("");
    let hs = parse_headers(&unsigned);
    let rec = parse_signature(&hs[2].value).unwrap();
    let input = build_header_hash_input(&hs, &hs[2], &rec);
    let sig = sk.sign(&sha2::Sha256::digest(&input));
    let msg = make(&b64(&sig.to_bytes()));
    let key_txt = format!("v=DKIM1; k=ed25519; p={}", b64(vk.as_bytes())).into_bytes();
    let rs = verify_message(&msg, &vec![records(key_txt.clone())], 0);
    assert_eq!(rs[0].status, DkimStatus::Pass);
    // appending trailing blank lines must not break the relaxed signature
    let mut padded = msg.clone();
    padded.extend_from_slice(b"\r\n\r\n");
    let rs2 = verify_message(&padded, &vec![records(key_txt)], 0);
    assert_eq!(rs2[0].status, DkimStatus::Pass);
}
