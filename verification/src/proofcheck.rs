//! Validation of zero-knowledge proof values before they are handed to an
//! outside verification service: every curve point coordinate must be
//! 0x-prefixed hexadecimal text.

use vstd::prelude::*;
use vstd::string::StringSliceAdditionalSpecFns;
use vstd::string::StringExecFns;

verus! {

/// The UTF-8 bytes of a string's characters.
pub open spec fn string_bytes(s: Seq<char>) -> Seq<u8> {
    vstd::utf8::encode_utf8(s)
}

/// A proof in its transport shape: three curve points as hex strings.
#[derive(Debug)]
pub struct Proof {
    pub a: [String; 2],
    pub b: [[String; 2]; 2],
    pub c: [String; 2],
}

/// An ASCII hexadecimal digit.
pub open spec fn hex_digit(b: u8) -> bool {
    (48 <= b <= 57) || (65 <= b <= 70) || (97 <= b <= 102)
}

/// 0x-prefixed hexadecimal text; the part after the prefix may be empty.
pub open spec fn hex_text(s: Seq<u8>) -> bool {
    s.len() >= 2 && s[0] == 48 && s[1] == 120 && forall|i: int|
        2 <= i < s.len() ==> hex_digit(#[trigger] s[i])
}

/// Whether a string is 0x-prefixed hexadecimal text.
pub fn is_valid_hex(s: &str) -> (r: bool)
    ensures
        r == hex_text(string_bytes(s@)),
{
    let b = s.as_bytes();
    proof {
        assert(b@ == string_bytes(s@));
    }
    if b.len() < 2 || b[0] != 48 || b[1] != 120 {
        return false;
    }
    let mut i: usize = 2;
    while i < b.len()
        invariant
            2 <= i <= b@.len(),
            b@ == string_bytes(s@),
            b@.len() >= 2 && b@[0] == 48 && b@[1] == 120,
            forall|j: int| 2 <= j < i ==> hex_digit(#[trigger] b@[j]),
        decreases b@.len() - i,
    {
        let c = b[i];
        if !((48 <= c && c <= 57) || (65 <= c && c <= 70) || (97 <= c && c <= 102)) {
            proof {
                assert(!hex_digit(b@[i as int]));
            }
            return false;
        }
        i = i + 1;
    }
    true
}

/// Every coordinate of the proof is hexadecimal text.
pub open spec fn proof_well_formed(p: &Proof) -> bool {
    hex_text(string_bytes(p.a[0]@)) && hex_text(string_bytes(p.a[1]@)) && hex_text(
        string_bytes(p.b[0][0]@),
    ) && hex_text(string_bytes(p.b[0][1]@)) && hex_text(string_bytes(p.b[1][0]@)) && hex_text(
        string_bytes(p.b[1][1]@),
    ) && hex_text(string_bytes(p.c[0]@)) && hex_text(string_bytes(p.c[1]@))
}

/// The error message naming the first coordinate, in field order, that is
/// no hexadecimal text.
pub open spec fn invalid_message(p: &Proof) -> Seq<char> {
    if !hex_text(string_bytes(p.a[0]@)) {
        "Invalid hex value in proof.a: "@ + p.a[0]@
    } else if !hex_text(string_bytes(p.a[1]@)) {
        "Invalid hex value in proof.a: "@ + p.a[1]@
    } else if !hex_text(string_bytes(p.b[0][0]@)) {
        "Invalid hex value in proof.b: "@ + p.b[0][0]@
    } else if !hex_text(string_bytes(p.b[0][1]@)) {
        "Invalid hex value in proof.b: "@ + p.b[0][1]@
    } else if !hex_text(string_bytes(p.b[1][0]@)) {
        "Invalid hex value in proof.b: "@ + p.b[1][0]@
    } else if !hex_text(string_bytes(p.b[1][1]@)) {
        "Invalid hex value in proof.b: "@ + p.b[1][1]@
    } else if !hex_text(string_bytes(p.c[0]@)) {
        "Invalid hex value in proof.c: "@ + p.c[0]@
    } else {
        "Invalid hex value in proof.c: "@ + p.c[1]@
    }
}

/// A validation error message: the prefix naming the field, then the
/// offending value.
fn hex_err(prefix: &str, val: &str) -> (r: String)
    ensures
        r@ == prefix@ + val@,
{
    let mut m = prefix.to_owned();
    m.append(val);
    m
}

/// Check every coordinate of a proof; the error names the first
/// coordinate, in field order, that is no hexadecimal text.
pub fn validate_proof(p: &Proof) -> (r: Result<(), String>)
    ensures
        r is Ok <==> proof_well_formed(p),
        r matches Result::Err(s) ==> s@ == invalid_message(p),
{
    if !is_valid_hex(p.a[0].as_str()) {
        return Result::Err(hex_err("Invalid hex value in proof.a: ", p.a[0].as_str()));
    }
    if !is_valid_hex(p.a[1].as_str()) {
        return Result::Err(hex_err("Invalid hex value in proof.a: ", p.a[1].as_str()));
    }
    if !is_valid_hex(p.b[0][0].as_str()) {
        return Result::Err(hex_err("Invalid hex value in proof.b: ", p.b[0][0].as_str()));
    }
    if !is_valid_hex(p.b[0][1].as_str()) {
        return Result::Err(hex_err("Invalid hex value in proof.b: ", p.b[0][1].as_str()));
    }
    if !is_valid_hex(p.b[1][0].as_str()) {
        return Result::Err(hex_err("Invalid hex value in proof.b: ", p.b[1][0].as_str()));
    }
    if !is_valid_hex(p.b[1][1].as_str()) {
        return Result::Err(hex_err("Invalid hex value in proof.b: ", p.b[1][1].as_str()));
    }
    if !is_valid_hex(p.c[0].as_str()) {
        return Result::Err(hex_err("Invalid hex value in proof.c: ", p.c[0].as_str()));
    }
    if !is_valid_hex(p.c[1].as_str()) {
        return Result::Err(hex_err("Invalid hex value in proof.c: ", p.c[1].as_str()));
    }
    Result::Ok(())
}

} // verus!
