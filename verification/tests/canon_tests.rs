use dkim_verify::bytes::split_text_lines;
use dkim_verify::canon::{canonicalize_body, canonicalize_header, CanonMode};
use dkim_verify::contains_subslice;
use dkim_verify::headers::parse_headers;
use dkim_verify::{is_valid_hex, validate_proof, Proof};

#[test]
fn relaxed_header_lowers_and_collapses() {
    let r = canonicalize_header(b"SuBJect", b"  Hello \t  world  ", CanonMode::Relaxed);
    assert_eq!(r, b"subject:Hello world".to_vec());
}

#[test]
fn relaxed_header_unfolds() {
    let r = canonicalize_header(b"Subject", b" Hello\r\n  world", CanonMode::Relaxed);
    assert_eq!(r, b"subject:Hello world".to_vec());
}

#[test]
fn simple_header_is_kept_verbatim() {
    let r = canonicalize_header(b"Subject", b"  Hello  world", CanonMode::Simple);
    assert_eq!(r, b"Subject:  Hello  world".to_vec());
}

#[test]
fn simple_body_reduces_trailing_empty_lines() {
    let r = canonicalize_body(b"Hello\r\n\r\n\r\n", CanonMode::Simple, None);
    assert_eq!(r, b"Hello\r\n".to_vec());
}

#[test]
fn simple_body_of_empty_is_crlf() {
    let r = canonicalize_body(b"", CanonMode::Simple, None);
    assert_eq!(r, b"\r\n".to_vec());
}

#[test]
fn relaxed_body_strips_and_collapses() {
    let r = canonicalize_body(b"Hello  world \r\nnext\t line\r\n\r\n\r\n", CanonMode::Relaxed, None);
    assert_eq!(r, b"Hello world\r\nnext line\r\n".to_vec());
}

#[test]
fn relaxed_body_of_empty_stays_empty() {
    let r = canonicalize_body(b"", CanonMode::Relaxed, None);
    assert_eq!(r, b"".to_vec());
}

#[test]
fn relaxed_body_adds_missing_terminator() {
    let r = canonicalize_body(b"Hello", CanonMode::Relaxed, None);
    assert_eq!(r, b"Hello\r\n".to_vec());
}

#[test]
fn body_limit_truncates_but_never_extends() {
    let r = canonicalize_body(b"Hello\r\n", CanonMode::Simple, Some(3));
    assert_eq!(r, b"Hel".to_vec());
    let r2 = canonicalize_body(b"Hi\r\n", CanonMode::Simple, Some(100));
    assert_eq!(r2, b"Hi\r\n".to_vec());
}

#[test]
fn relaxed_canonicalization_is_idempotent_on_bytes() {
    let once = canonicalize_body(b"a  b \r\n c\r\n\r\n", CanonMode::Relaxed, None);
    let twice = canonicalize_body(&once, CanonMode::Relaxed, None);
    assert_eq!(once, twice);
    let h_once = canonicalize_header(b"subject", b"a  b", CanonMode::Relaxed);
    // re-canonicalizing the value part of an already canonical header
    let h_twice = canonicalize_header(b"subject", &h_once[8..], CanonMode::Relaxed);
    assert_eq!(h_once, h_twice);
}

#[test]
fn simple_canonicalization_is_idempotent_on_bytes() {
    let once = canonicalize_body(b"a\r\n\r\n", CanonMode::Simple, None);
    let twice = canonicalize_body(&once, CanonMode::Simple, None);
    assert_eq!(once, twice);
}

#[test]
fn headers_split_at_first_colon_and_unfold() {
    let msg = b"From: alice@example.com\r\nSubject: Hello\r\n  world\r\n\r\nbody";
    let hs = parse_headers(msg);
    assert_eq!(hs.len(), 2);
    assert_eq!(hs[0].name, b"From".to_vec());
    assert_eq!(hs[0].value, b" alice@example.com".to_vec());
    assert_eq!(hs[1].name, b"Subject".to_vec());
    assert_eq!(hs[1].value, b" Hello\r\n  world".to_vec());
}

#[test]
fn contains_subslice_finds_and_rejects() {
    assert!(contains_subslice(b"hello world", b"o w"));
    assert!(contains_subslice(b"abc", b"abc"));
    assert!(!contains_subslice(b"abc", b"abd"));
    assert!(!contains_subslice(b"ab", b"abc"));
    assert!(contains_subslice(b"abc", b""));
    assert!(contains_subslice(b"", b""));
}

#[test]
fn hex_values_are_recognized() {
    assert!(is_valid_hex("0x1aF9"));
    assert!(is_valid_hex("0x"));
    assert!(!is_valid_hex("1aF9"));
    assert!(!is_valid_hex("0x1g"));
    assert!(!is_valid_hex(""));
}

#[test]
fn proof_validation_reports_first_bad_value() {
    let good = Proof {
        a: [String::from("0x1"), String::from("0x2")],
        b: [
            [String::from("0x3"), String::from("0x4")],
            [String::from("0x5"), String::from("0x6")],
        ],
        c: [String::from("0x7"), String::from("0x8")],
    };
    assert!(validate_proof(&good).is_ok());
    let bad = Proof {
        a: [String::from("0x1"), String::from("0x2")],
        b: [
            [String::from("0x3"), String::from("nope")],
            [String::from("0x5"), String::from("0x6")],
        ],
        c: [String::from("0x7"), String::from("0x8")],
    };
    assert_eq!(
        validate_proof(&bad),
        Err(String::from("Invalid hex value in proof.b: nope"))
    );
    let bad_c = Proof {
        a: [String::from("0x1"), String::from("0x2")],
        b: [
            [String::from("0x3"), String::from("0x4")],
            [String::from("0x5"), String::from("0x6")],
        ],
        c: [String::from("0x7"), String::from("0xZ")],
    };
    assert_eq!(
        validate_proof(&bad_c),
        Err(String::from("Invalid hex value in proof.c: 0xZ"))
    );
}

#[test]
fn text_lines_match_line_splitting() {
    let r = split_text_lines(b"one\ntwo\r\nthree");
    assert_eq!(r, vec![b"one".to_vec(), b"two".to_vec(), b"three".to_vec()]);
    let r2 = split_text_lines(b"one\ntwo\n");
    assert_eq!(r2, vec![b"one".to_vec(), b"two".to_vec()]);
    let r3 = split_text_lines(b"");
    assert_eq!(r3, Vec::<Vec<u8>>::new());
    let r4 = split_text_lines(b"a\n\nb");
    assert_eq!(r4, vec![b"a".to_vec(), b"".to_vec(), b"b".to_vec()]);
}
