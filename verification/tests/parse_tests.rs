use dkim_verify::canon::CanonMode;
use dkim_verify::key::{
    parse_key_record, query_name, resolve_key, DnsOutcome, KeyAlgorithm, KeyError,
};
use dkim_verify::sig::{parse_signature, Algorithm, ParseError};

const GOOD_SIG: &[u8] =
    b" v=1; a=rsa-sha256; c=relaxed/simple; d=example.com; s=sel1; h=from:subject; bh=QUJD; b=REVG; l=12; t=5; x=9";

#[test]
fn signature_header_parses_into_record() {
    let rec = parse_signature(GOOD_SIG).unwrap();
    assert_eq!(rec.algorithm, Algorithm::RsaSha256);
    assert_eq!(rec.header_mode, CanonMode::Relaxed);
    assert_eq!(rec.body_mode, CanonMode::Simple);
    assert_eq!(rec.domain, b"example.com".to_vec());
    assert_eq!(rec.selector, b"sel1".to_vec());
    assert_eq!(rec.signed_headers, vec![b"from".to_vec(), b"subject".to_vec()]);
    assert_eq!(rec.body_hash_b64, b"QUJD".to_vec());
    assert_eq!(rec.signature_b64, b"REVG".to_vec());
    assert_eq!(rec.body_limit, Some(12));
    assert_eq!(rec.timestamp, Some(5));
    assert_eq!(rec.expiration, Some(9));
}

#[test]
fn canonicalization_tag_defaults_to_simple_simple() {
    let rec =
        parse_signature(b"v=1; a=rsa-sha1; d=example.com; s=s1; h=from; bh=QQ==; b=Qg==").unwrap();
    assert_eq!(rec.header_mode, CanonMode::Simple);
    assert_eq!(rec.body_mode, CanonMode::Simple);
    assert_eq!(rec.algorithm, Algorithm::RsaSha1);
}

#[test]
fn single_canonicalization_half_leaves_body_simple() {
    let rec = parse_signature(b"v=1; a=ed25519-sha256; c=relaxed; d=d.example; s=s1; h=from; bh=QQ==; b=Qg==")
        .unwrap();
    assert_eq!(rec.algorithm, Algorithm::Ed25519Sha256);
    assert_eq!(rec.header_mode, CanonMode::Relaxed);
    assert_eq!(rec.body_mode, CanonMode::Simple);
}

#[test]
fn unknown_tags_are_ignored() {
    let rec = parse_signature(
        b"v=1; a=rsa-sha256; zz=future; d=example.com; s=s1; h=from; bh=QQ==; b=Qg==",
    );
    assert!(rec.is_ok());
}

#[test]
fn folded_signature_values_lose_their_whitespace() {
    let rec = parse_signature(
        b"v=1; a=rsa-sha256; d=example.com; s=s1; h=from;\r\n bh=QU\r\n\tJD; b=RE  VG",
    )
    .unwrap();
    assert_eq!(rec.body_hash_b64, b"QUJD".to_vec());
    assert_eq!(rec.signature_b64, b"REVG".to_vec());
}

#[test]
fn missing_required_tag_is_rejected() {
    let r = parse_signature(b"v=1; a=rsa-sha256; d=example.com; s=s1; h=from; bh=QQ==");
    assert_eq!(r.err(), Some(ParseError::MissingTag));
}

#[test]
fn duplicate_singular_tag_is_rejected() {
    let r = parse_signature(
        b"v=1; v=1; a=rsa-sha256; d=example.com; s=s1; h=from; bh=QQ==; b=Qg==",
    );
    assert_eq!(r.err(), Some(ParseError::DuplicateTag));
}

#[test]
fn wrong_version_is_rejected() {
    let r = parse_signature(b"v=2; a=rsa-sha256; d=example.com; s=s1; h=from; bh=QQ==; b=Qg==");
    assert_eq!(r.err(), Some(ParseError::BadVersion));
}

#[test]
fn unknown_algorithm_is_rejected() {
    let r = parse_signature(b"v=1; a=rsa-md5; d=example.com; s=s1; h=from; bh=QQ==; b=Qg==");
    assert_eq!(r.err(), Some(ParseError::UnsupportedAlgorithm));
}

#[test]
fn unknown_canonicalization_is_rejected() {
    let r = parse_signature(
        b"v=1; a=rsa-sha256; c=strict; d=example.com; s=s1; h=from; bh=QQ==; b=Qg==",
    );
    assert_eq!(r.err(), Some(ParseError::BadCanonicalization));
}

#[test]
fn bad_number_is_rejected() {
    let r = parse_signature(
        b"v=1; a=rsa-sha256; d=example.com; s=s1; h=from; bh=QQ==; b=Qg==; l=12a",
    );
    assert_eq!(r.err(), Some(ParseError::BadNumber));
    let r2 = parse_signature(
        b"v=1; a=rsa-sha256; d=example.com; s=s1; h=from; bh=QQ==; b=Qg==; t=99999999999999999999999999",
    );
    assert_eq!(r2.err(), Some(ParseError::BadNumber));
}

#[test]
fn empty_domain_or_selector_is_rejected() {
    let r = parse_signature(b"v=1; a=rsa-sha256; d=; s=s1; h=from; bh=QQ==; b=Qg==");
    assert_eq!(r.err(), Some(ParseError::BadDomain));
    let r2 = parse_signature(b"v=1; a=rsa-sha256; d=example.com; s=; h=from; bh=QQ==; b=Qg==");
    assert_eq!(r2.err(), Some(ParseError::BadSelector));
}

#[test]
fn empty_header_list_is_rejected() {
    let r = parse_signature(b"v=1; a=rsa-sha256; d=example.com; s=s1; h=; bh=QQ==; b=Qg==");
    assert_eq!(r.err(), Some(ParseError::NoSignedHeaders));
}

#[test]
fn header_list_without_from_is_rejected() {
    let r = parse_signature(b"v=1; a=rsa-sha256; d=example.com; s=s1; h=subject; bh=QQ==; b=Qg==");
    assert_eq!(r.err(), Some(ParseError::MissingFrom));
}

#[test]
fn key_record_parses() {
    let k = parse_key_record(b"v=DKIM1; k=rsa; p=QUJD; s=email").unwrap();
    assert_eq!(k.key_algorithm, KeyAlgorithm::Rsa);
    assert_eq!(k.key_data_b64, b"QUJD".to_vec());
    assert!(!k.revoked);
    assert_eq!(k.service_flags, Some(b"email".to_vec()));
}

#[test]
fn key_record_defaults_to_rsa() {
    let k = parse_key_record(b"p=QUJD").unwrap();
    assert_eq!(k.key_algorithm, KeyAlgorithm::Rsa);
}

#[test]
fn empty_p_tag_marks_revocation() {
    let k = parse_key_record(b"v=DKIM1; k=ed25519; p=").unwrap();
    assert!(k.revoked);
    assert_eq!(k.key_algorithm, KeyAlgorithm::Ed25519);
}

#[test]
fn malformed_key_records_are_rejected() {
    assert_eq!(parse_key_record(b"v=DKIM2; p=QUJD").err(), Some(KeyError::Malformed));
    assert_eq!(parse_key_record(b"k=dsa; p=QUJD").err(), Some(KeyError::Malformed));
    assert_eq!(parse_key_record(b"v=DKIM1; k=rsa").err(), Some(KeyError::Malformed));
}

#[test]
fn lookup_outcomes_classify() {
    assert_eq!(resolve_key(&DnsOutcome::Timeout).err(), Some(KeyError::Transient));
    assert_eq!(resolve_key(&DnsOutcome::ServFail).err(), Some(KeyError::Transient));
    assert_eq!(resolve_key(&DnsOutcome::NxDomain).err(), Some(KeyError::NoKey));
    assert_eq!(resolve_key(&DnsOutcome::Records(vec![])).err(), Some(KeyError::NoKey));
}

#[test]
fn multiple_txt_strings_are_concatenated() {
    let k = resolve_key(&DnsOutcome::Records(vec![
        b"v=DKIM1; k=rsa; p=QU".to_vec(),
        b"JD".to_vec(),
    ]))
    .unwrap();
    assert_eq!(k.key_data_b64, b"QUJD".to_vec());
}

#[test]
fn query_name_joins_selector_and_domain() {
    let q = query_name(b"example.com", b"sel1");
    assert_eq!(q, b"sel1._domainkey.example.com".to_vec());
}
