//! Parsing of the `DKIM-Signature` header: the semicolon-separated
//! tag=value list becomes a structured signature record, or a parse error
//! naming the first rule the header breaks.

use vstd::prelude::*;

use crate::bytes::{
    trimmed, first_match, split_at, join_with, lower_seq, find_pat, copy_range, trim_ws,
    split_pat, join_pat, bytes_eq, remove_fws, strip_all_fws, views, lower_bytes,
};
use crate::canon::CanonMode;

verus! {

/// The registered signature algorithms.
#[derive(Clone, Copy, PartialEq, Eq, Structural, Debug)]
pub enum Algorithm {
    RsaSha1,
    RsaSha256,
    Ed25519Sha256,
}

/// Why a `DKIM-Signature` header could not be parsed.
#[derive(Clone, Copy, PartialEq, Eq, Structural, Debug)]
pub enum ParseError {
    /// A tag that must be singular appears twice.
    DuplicateTag,
    /// A required tag is absent.
    MissingTag,
    /// The `v=` tag does not hold `1`.
    BadVersion,
    /// The `a=` tag names no supported algorithm.
    UnsupportedAlgorithm,
    /// The `c=` tag names no known canonicalization pair.
    BadCanonicalization,
    /// A numeric tag does not hold a plain decimal number in range.
    BadNumber,
    /// The `d=` tag is empty or no plausible domain name.
    BadDomain,
    /// The `s=` tag is empty or no plausible selector.
    BadSelector,
    /// The `h=` tag lists no header names.
    NoSignedHeaders,
    /// The `h=` tag does not list the `From` header.
    MissingFrom,
}

/// Mathematical model of one tag=value pair.
pub ghost struct TagModel {
    pub name: Seq<u8>,
    pub value: Seq<u8>,
}

/// A part of the tag list divided at its first `=`, both sides trimmed;
/// a part without `=` is no tag.
pub open spec fn parse_tag(part: Seq<u8>) -> Option<TagModel> {
    let i = first_match(part, seq![61u8]) as int;
    if i + 1 <= part.len() {
        Option::Some(
            TagModel { name: trimmed(part.take(i), true), value: trimmed(part.skip(i + 1), true) },
        )
    } else {
        Option::None
    }
}

/// The tags of a signature header value, in written order.
pub open spec fn tags_from_parts(parts: Seq<Seq<u8>>) -> Seq<TagModel>
    decreases parts.len(),
{
    if parts.len() == 0 {
        Seq::empty()
    } else {
        let prev = tags_from_parts(parts.drop_last());
        match parse_tag(parts.last()) {
            Option::Some(t) => prev.push(t),
            Option::None => prev,
        }
    }
}

pub open spec fn tags_of(v: Seq<u8>) -> Seq<TagModel> {
    tags_from_parts(split_at(v, seq![59u8]))
}

/// How often a tag name occurs.
pub open spec fn count_tag(ts: Seq<TagModel>, n: Seq<u8>) -> nat
    decreases ts.len(),
{
    if ts.len() == 0 {
        0
    } else {
        count_tag(ts.drop_last(), n) + if ts.last().name == n {
            1nat
        } else {
            0nat
        }
    }
}

/// The value of the first tag of that name.
pub open spec fn find_tag(ts: Seq<TagModel>, n: Seq<u8>) -> Option<Seq<u8>>
    decreases ts.len(),
{
    if ts.len() == 0 {
        Option::None
    } else {
        match find_tag(ts.drop_last(), n) {
            Option::Some(v) => Option::Some(v),
            Option::None => if ts.last().name == n {
                Option::Some(ts.last().value)
            } else {
                Option::None
            },
        }
    }
}

/// One tag=value pair.
pub struct Tag {
    pub name: Vec<u8>,
    pub value: Vec<u8>,
}

impl View for Tag {
    type V = TagModel;

    open spec fn view(&self) -> TagModel {
        TagModel { name: self.name@, value: self.value@ }
    }
}

pub open spec fn tag_views(ts: Seq<Tag>) -> Seq<TagModel> {
    ts.map_values(|t: Tag| t@)
}

/// Split a signature header value into its tags.
pub fn parse_tags(v: &[u8]) -> (r: Vec<Tag>)
    ensures
        tag_views(r@) == tags_of(v@),
{
    let semi: [u8; 1] = [59];
    proof {
        assert(semi@ =~= seq![59u8]);
    }
    let parts = split_pat(v, semi.as_slice());
    let eq: [u8; 1] = [61];
    proof {
        assert(eq@ =~= seq![61u8]);
    }
    let mut out: Vec<Tag> = Vec::new();
    let mut i: usize = 0;
    while i < parts.len()
        invariant
            i <= parts@.len(),
            views(parts@) == split_at(v@, seq![59u8]),
            tag_views(out@) == tags_from_parts(views(parts@).take(i as int)),
            eq@ == seq![61u8],
        decreases parts@.len() - i,
    {
        let ghost ps = views(parts@);
        proof {
            assert(ps.take(i + 1).drop_last() =~= ps.take(i as int));
            assert(ps.take(i + 1).last() == ps[i as int]);
            assert(parts@[i as int]@.skip(0) =~= parts@[i as int]@);
        }
        let part = &parts[i];
        let e = find_pat(part.as_slice(), eq.as_slice(), 0);
        if e < part.len() {
            let rawn = copy_range(part.as_slice(), 0, e);
            let rawv = copy_range(part.as_slice(), e + 1, part.len());
            proof {
                assert(rawn@ =~= ps[i as int].take(e as int));
                assert(rawv@ =~= ps[i as int].skip(e + 1));
            }
            let name = trim_ws(rawn.as_slice(), true);
            let value = trim_ws(rawv.as_slice(), true);
            let t = Tag { name, value };
            proof {
                assert(parse_tag(ps[i as int]) == Option::Some(t@));
            }
            out.push(t);
            proof {
                assert(tag_views(out@) =~= tags_from_parts(ps.take(i as int)).push(
                    parse_tag(ps[i as int]).unwrap(),
                ));
            }
        } else {
            proof {
                assert(parse_tag(ps[i as int]) is None);
            }
        }
        i = i + 1;
    }
    proof {
        let ps = views(parts@);
        assert(ps.take(ps.len() as int) =~= ps);
    }
    out
}

/// The value of the first tag named `n`, copied out.
pub fn find_tag_exec(ts: &Vec<Tag>, n: &[u8]) -> (r: Option<Vec<u8>>)
    ensures
        match r {
            Option::Some(v) => find_tag(tag_views(ts@), n@) == Option::Some(v@),
            Option::None => find_tag(tag_views(ts@), n@) is None,
        },
{
    let mut i: usize = 0;
    while i < ts.len()
        invariant
            i <= ts@.len(),
            find_tag(tag_views(ts@).take(i as int), n@) is None,
        decreases ts@.len() - i,
    {
        let ghost vs = tag_views(ts@);
        proof {
            assert(vs.take(i + 1).drop_last() =~= vs.take(i as int));
            assert(vs.take(i + 1).last() == vs[i as int]);
        }
        if bytes_eq(ts[i].name.as_slice(), n) {
            let v = copy_range(ts[i].value.as_slice(), 0, ts[i].value.len());
            proof {
                assert(v@ =~= ts@[i as int]@.value);
                lemma_find_tag_extend(vs, i as int, n@);
            }
            return Option::Some(v);
        }
        i = i + 1;
    }
    proof {
        let vs = tag_views(ts@);
        assert(vs.take(vs.len() as int) =~= vs);
    }
    Option::None
}

/// A found first tag stays the first tag of any extension.
proof fn lemma_find_tag_extend(ts: Seq<TagModel>, i: int, n: Seq<u8>)
    requires
        0 <= i < ts.len(),
        find_tag(ts.take(i), n) is None,
        ts[i].name == n,
    ensures
        find_tag(ts, n) == Option::Some(ts[i].value),
    decreases ts.len(),
{
    if i == ts.len() - 1 {
        assert(ts.drop_last() =~= ts.take(i));
    } else {
        assert(ts.drop_last().take(i) =~= ts.take(i));
        assert(ts.drop_last()[i] == ts[i]);
        lemma_find_tag_extend(ts.drop_last(), i, n);
    }
}

/// How often a tag name occurs.
pub fn count_tag_exec(ts: &Vec<Tag>, n: &[u8]) -> (r: usize)
    ensures
        r == count_tag(tag_views(ts@), n@),
{
    let mut c: usize = 0;
    let mut i: usize = 0;
    while i < ts.len()
        invariant
            i <= ts@.len(),
            c == count_tag(tag_views(ts@).take(i as int), n@),
            c <= i,
        decreases ts@.len() - i,
    {
        let ghost vs = tag_views(ts@);
        proof {
            assert(vs.take(i + 1).drop_last() =~= vs.take(i as int));
            assert(vs.take(i + 1).last() == vs[i as int]);
        }
        if bytes_eq(ts[i].name.as_slice(), n) {
            c = c + 1;
        }
        i = i + 1;
    }
    proof {
        let vs = tag_views(ts@);
        assert(vs.take(vs.len() as int) =~= vs);
    }
    c
}

/// Decimal digits.
pub open spec fn is_digit(b: u8) -> bool {
    48 <= b <= 57
}

pub open spec fn all_digits(s: Seq<u8>) -> bool {
    forall|i: int| 0 <= i < s.len() ==> is_digit(#[trigger] s[i])
}

/// The number a digit string denotes.
pub open spec fn dec_val(s: Seq<u8>) -> int
    decreases s.len(),
{
    if s.len() == 0 {
        0
    } else {
        dec_val(s.drop_last()) * 10 + (s.last() - 48)
    }
}

/// A plain decimal number that fits an unsigned 64-bit value.
pub open spec fn valid_u64(s: Seq<u8>) -> bool {
    s.len() > 0 && all_digits(s) && dec_val(s) <= u64::MAX
}

/// A digit string denotes a number, never something negative.
proof fn lemma_dec_val_nonneg(s: Seq<u8>)
    requires
        all_digits(s),
    ensures
        dec_val(s) >= 0,
    decreases s.len(),
{
    if s.len() > 0 {
        assert(all_digits(s.drop_last())) by {
            assert(forall|j: int| 0 <= j < s.len() - 1 ==> s.drop_last()[j] == s[j]);
        }
        lemma_dec_val_nonneg(s.drop_last());
        let dv = dec_val(s.drop_last());
        assert(dv * 10 >= 0) by (nonlinear_arith)
            requires
                dv >= 0,
        ;
    }
}

proof fn lemma_dec_val_prefix_le(s: Seq<u8>, i: int)
    requires
        0 <= i <= s.len(),
        all_digits(s),
    ensures
        dec_val(s.take(i)) <= dec_val(s),
    decreases s.len() - i,
{
    if i < s.len() {
        lemma_dec_val_prefix_le(s, i + 1);
        let t = s.take(i + 1);
        assert(t.drop_last() =~= s.take(i));
        assert(dec_val(t) == dec_val(s.take(i)) * 10 + (s[i] - 48));
        assert(all_digits(s.take(i))) by {
            assert(forall|j: int| 0 <= j < i ==> s.take(i)[j] == s[j]);
        }
        lemma_dec_val_nonneg(s.take(i));
        let dv = dec_val(s.take(i));
        assert(dv * 10 >= dv) by (nonlinear_arith)
            requires
                dv >= 0,
        ;
    } else {
        assert(s.take(i) =~= s);
    }
}

/// Read a decimal tag value.
pub fn parse_u64(s: &[u8]) -> (r: Option<u64>)
    ensures
        r is Some <==> valid_u64(s@),
        r is Some ==> r.unwrap() == dec_val(s@),
{
    if s.len() == 0 {
        return Option::None;
    }
    let mut val: u64 = 0;
    let mut i: usize = 0;
    proof {
        assert(s@.take(0) =~= Seq::<u8>::empty());
    }
    while i < s.len()
        invariant
            i <= s@.len(),
            s@.len() > 0,
            val == dec_val(s@.take(i as int)),
            all_digits(s@.take(i as int)),
        decreases s@.len() - i,
    {
        let ghost pre = s@.take(i as int);
        proof {
            assert(s@.take(i + 1).drop_last() =~= pre);
            assert(s@.take(i + 1).last() == s@[i as int]);
        }
        let b = s[i];
        if b < 48 || b > 57 {
            proof {
                assert(!is_digit(s@[i as int]));
                assert(!all_digits(s@));
            }
            return Option::None;
        }
        let d = (b - 48) as u64;
        let m = match val.checked_mul(10) {
            Option::Some(m) => m,
            Option::None => {
                proof {
                    assert(dec_val(s@.take(i + 1)) > u64::MAX);
                    lemma_digits_or_big(s@, i + 1);
                }
                return Option::None;
            },
        };
        let v2 = match m.checked_add(d) {
            Option::Some(v2) => v2,
            Option::None => {
                proof {
                    assert(dec_val(s@.take(i + 1)) > u64::MAX);
                    lemma_digits_or_big(s@, i + 1);
                }
                return Option::None;
            },
        };
        val = v2;
        i = i + 1;
    }
    proof {
        assert(s@.take(s@.len() as int) =~= s@);
    }
    Option::Some(val)
}

/// A prefix already too large keeps the whole string out of range.
proof fn lemma_digits_or_big(s: Seq<u8>, i: int)
    requires
        0 <= i <= s.len(),
        dec_val(s.take(i)) > u64::MAX,
    ensures
        !valid_u64(s),
{
    if all_digits(s) {
        lemma_dec_val_prefix_le(s, i);
    }
}

/// The canonicalization algorithm a `c=` half names.
pub open spec fn mode_of(s: Seq<u8>) -> Option<CanonMode> {
    if s == seq![115u8, 105u8, 109u8, 112u8, 108u8, 101u8] {
        Option::Some(CanonMode::Simple)
    } else if s == seq![114u8, 101u8, 108u8, 97u8, 120u8, 101u8, 100u8] {
        Option::Some(CanonMode::Relaxed)
    } else {
        Option::None
    }
}

/// The canonicalization pair a `c=` tag names: one half covers the
/// headers, an absent second half leaves the body simple.
pub open spec fn canon_pair(v: Seq<u8>) -> Option<(CanonMode, CanonMode)> {
    let parts = split_at(v, seq![47u8]);
    if parts.len() == 1 {
        match mode_of(trimmed(parts[0], true)) {
            Option::Some(h) => Option::Some((h, CanonMode::Simple)),
            Option::None => Option::None,
        }
    } else if parts.len() == 2 {
        match (mode_of(trimmed(parts[0], true)), mode_of(trimmed(parts[1], true))) {
            (Option::Some(h), Option::Some(b)) => Option::Some((h, b)),
            _ => Option::None,
        }
    } else {
        Option::None
    }
}

fn mode_of_exec(s: &[u8]) -> (r: Option<CanonMode>)
    ensures
        r == mode_of(s@),
{
    let simple: [u8; 6] = [115, 105, 109, 112, 108, 101];
    let relaxed: [u8; 7] = [114, 101, 108, 97, 120, 101, 100];
    proof {
        assert(simple@ =~= seq![115u8, 105u8, 109u8, 112u8, 108u8, 101u8]);
        assert(relaxed@ =~= seq![114u8, 101u8, 108u8, 97u8, 120u8, 101u8, 100u8]);
    }
    if bytes_eq(s, simple.as_slice()) {
        Option::Some(CanonMode::Simple)
    } else if bytes_eq(s, relaxed.as_slice()) {
        Option::Some(CanonMode::Relaxed)
    } else {
        Option::None
    }
}

/// Read a `c=` tag value.
pub fn parse_canon_pair(v: &[u8]) -> (r: Option<(CanonMode, CanonMode)>)
    ensures
        r == canon_pair(v@),
{
    let slash: [u8; 1] = [47];
    proof {
        assert(slash@ =~= seq![47u8]);
    }
    let parts = split_pat(v, slash.as_slice());
    proof {
        assert(views(parts@)[0] == parts@[0]@);
        if parts@.len() > 1 {
            assert(views(parts@)[1] == parts@[1]@);
        }
    }
    if parts.len() == 1 {
        let t = trim_ws(parts[0].as_slice(), true);
        match mode_of_exec(t.as_slice()) {
            Option::Some(h) => Option::Some((h, CanonMode::Simple)),
            Option::None => Option::None,
        }
    } else if parts.len() == 2 {
        let t0 = trim_ws(parts[0].as_slice(), true);
        let t1 = trim_ws(parts[1].as_slice(), true);
        match (mode_of_exec(t0.as_slice()), mode_of_exec(t1.as_slice())) {
            (Option::Some(h), Option::Some(b)) => Option::Some((h, b)),
            _ => Option::None,
        }
    } else {
        Option::None
    }
}

/// The signed header names a `h=` tag lists, trimmed, empties dropped,
/// order and repetition kept.
pub open spec fn names_from_parts(parts: Seq<Seq<u8>>) -> Seq<Seq<u8>>
    decreases parts.len(),
{
    if parts.len() == 0 {
        Seq::empty()
    } else {
        let prev = names_from_parts(parts.drop_last());
        let t = trimmed(parts.last(), true);
        if t.len() > 0 {
            prev.push(t)
        } else {
            prev
        }
    }
}

pub open spec fn signed_names(v: Seq<u8>) -> Seq<Seq<u8>> {
    names_from_parts(split_at(v, seq![58u8]))
}

/// Read a `h=` tag value.
pub fn parse_signed_names(v: &[u8]) -> (r: Vec<Vec<u8>>)
    ensures
        views(r@) == signed_names(v@),
{
    let colon: [u8; 1] = [58];
    proof {
        assert(colon@ =~= seq![58u8]);
    }
    let parts = split_pat(v, colon.as_slice());
    let mut out: Vec<Vec<u8>> = Vec::new();
    let mut i: usize = 0;
    while i < parts.len()
        invariant
            i <= parts@.len(),
            views(parts@) == split_at(v@, seq![58u8]),
            views(out@) == names_from_parts(views(parts@).take(i as int)),
        decreases parts@.len() - i,
    {
        let ghost ps = views(parts@);
        proof {
            assert(ps.take(i + 1).drop_last() =~= ps.take(i as int));
            assert(ps.take(i + 1).last() == ps[i as int]);
        }
        let t = trim_ws(parts[i].as_slice(), true);
        if t.len() > 0 {
            let ghost before = views(out@);
            out.push(t);
            proof {
                assert(views(out@) =~= before.push(trimmed(ps[i as int], true)));
            }
        }
        i = i + 1;
    }
    proof {
        let ps = views(parts@);
        assert(ps.take(ps.len() as int) =~= ps);
    }
    out
}

/// The lowered name of the originating-address header.
pub open spec fn from_name() -> Seq<u8> {
    seq![102u8, 114u8, 111u8, 109u8]
}

/// Some listed name is `From`, whatever its case.
pub open spec fn lists_from(names: Seq<Seq<u8>>) -> bool {
    exists|i: int| 0 <= i < names.len() && lower_seq(#[trigger] names[i]) == from_name()
}

fn lists_from_exec(names: &Vec<Vec<u8>>) -> (r: bool)
    ensures
        r == lists_from(views(names@)),
{
    let pat: [u8; 4] = [102, 114, 111, 109];
    proof {
        assert(pat@ =~= from_name());
    }
    let mut i: usize = 0;
    while i < names.len()
        invariant
            i <= names@.len(),
            pat@ == from_name(),
            forall|j: int| 0 <= j < i ==> lower_seq(#[trigger] views(names@)[j]) != from_name(),
        decreases names@.len() - i,
    {
        let low = lower_bytes(names[i].as_slice());
        if bytes_eq(low.as_slice(), pat.as_slice()) {
            proof {
                assert(lower_seq(views(names@)[i as int]) == from_name());
            }
            return true;
        }
        proof {
            assert(views(names@)[i as int] == names@[i as int]@);
        }
        i = i + 1;
    }
    false
}

/// A plausible DNS name: non-empty letters, digits, dots, hyphens and
/// underscores.
pub open spec fn dns_name_byte(b: u8) -> bool {
    (48 <= b <= 57) || (65 <= b <= 90) || (97 <= b <= 122) || b == 45 || b == 46 || b == 95
}

pub open spec fn valid_dns_name(s: Seq<u8>) -> bool {
    s.len() > 0 && forall|i: int| 0 <= i < s.len() ==> dns_name_byte(#[trigger] s[i])
}

fn valid_dns_name_exec(s: &[u8]) -> (r: bool)
    ensures
        r == valid_dns_name(s@),
{
    if s.len() == 0 {
        return false;
    }
    let mut i: usize = 0;
    while i < s.len()
        invariant
            i <= s@.len(),
            forall|j: int| 0 <= j < i ==> dns_name_byte(#[trigger] s@[j]),
        decreases s@.len() - i,
    {
        let b = s[i];
        if !((48 <= b && b <= 57) || (65 <= b && b <= 90) || (97 <= b && b <= 122) || b == 45
            || b == 46 || b == 95) {
            return false;
        }
        i = i + 1;
    }
    true
}


/// The algorithm an `a=` tag names.
pub open spec fn algorithm_of(s: Seq<u8>) -> Option<Algorithm> {
    if s == seq![114u8, 115u8, 97u8, 45u8, 115u8, 104u8, 97u8, 49u8] {
        Option::Some(Algorithm::RsaSha1)
    } else if s == seq![114u8, 115u8, 97u8, 45u8, 115u8, 104u8, 97u8, 50u8, 53u8, 54u8] {
        Option::Some(Algorithm::RsaSha256)
    } else if s == seq![
        101u8,
        100u8,
        50u8,
        53u8,
        53u8,
        49u8,
        57u8,
        45u8,
        115u8,
        104u8,
        97u8,
        50u8,
        53u8,
        54u8,
    ] {
        Option::Some(Algorithm::Ed25519Sha256)
    } else {
        Option::None
    }
}

fn algorithm_of_exec(s: &[u8]) -> (r: Option<Algorithm>)
    ensures
        r == algorithm_of(s@),
{
    let rsa1: [u8; 8] = [114, 115, 97, 45, 115, 104, 97, 49];
    let rsa256: [u8; 10] = [114, 115, 97, 45, 115, 104, 97, 50, 53, 54];
    let ed: [u8; 14] = [101, 100, 50, 53, 53, 49, 57, 45, 115, 104, 97, 50, 53, 54];
    proof {
        assert(rsa1@ =~= seq![114u8, 115u8, 97u8, 45u8, 115u8, 104u8, 97u8, 49u8]);
        assert(rsa256@ =~= seq![114u8, 115u8, 97u8, 45u8, 115u8, 104u8, 97u8, 50u8, 53u8, 54u8]);
        assert(ed@ =~= seq![
            101u8,
            100u8,
            50u8,
            53u8,
            53u8,
            49u8,
            57u8,
            45u8,
            115u8,
            104u8,
            97u8,
            50u8,
            53u8,
            54u8,
        ]);
    }
    if bytes_eq(s, rsa1.as_slice()) {
        Option::Some(Algorithm::RsaSha1)
    } else if bytes_eq(s, rsa256.as_slice()) {
        Option::Some(Algorithm::RsaSha256)
    } else if bytes_eq(s, ed.as_slice()) {
        Option::Some(Algorithm::Ed25519Sha256)
    } else {
        Option::None
    }
}

/// Mathematical model of a parsed signature record.
pub ghost struct SigModel {
    pub algorithm: Algorithm,
    pub header_mode: CanonMode,
    pub body_mode: CanonMode,
    pub domain: Seq<u8>,
    pub selector: Seq<u8>,
    pub signed_headers: Seq<Seq<u8>>,
    pub body_hash_b64: Seq<u8>,
    pub signature_b64: Seq<u8>,
    pub body_limit: Option<u64>,
    pub timestamp: Option<u64>,
    pub expiration: Option<u64>,
}

/// One parsed `DKIM-Signature` header.
pub struct SignatureRecord {
    /// The signing algorithm of the `a=` tag.
    pub algorithm: Algorithm,
    /// Canonicalization of the signed headers.
    pub header_mode: CanonMode,
    /// Canonicalization of the body.
    pub body_mode: CanonMode,
    /// The signing domain of the `d=` tag.
    pub domain: Vec<u8>,
    /// The key selector of the `s=` tag.
    pub selector: Vec<u8>,
    /// The signed header names of the `h=` tag, order and repetition kept.
    pub signed_headers: Vec<Vec<u8>>,
    /// The declared body hash of the `bh=` tag, base64 text without folds.
    pub body_hash_b64: Vec<u8>,
    /// The signature of the `b=` tag, base64 text without folds.
    pub signature_b64: Vec<u8>,
    /// The body length limit of the `l=` tag, when one is declared.
    pub body_limit: Option<u64>,
    /// The signing time of the `t=` tag, when one is declared.
    pub timestamp: Option<u64>,
    /// The expiration time of the `x=` tag, when one is declared.
    pub expiration: Option<u64>,
}

impl View for SignatureRecord {
    type V = SigModel;

    open spec fn view(&self) -> SigModel {
        SigModel {
            algorithm: self.algorithm,
            header_mode: self.header_mode,
            body_mode: self.body_mode,
            domain: self.domain@,
            selector: self.selector@,
            signed_headers: self.signed_headers@.map_values(|h: Vec<u8>| h@),
            body_hash_b64: self.body_hash_b64@,
            signature_b64: self.signature_b64@,
            body_limit: self.body_limit,
            timestamp: self.timestamp,
            expiration: self.expiration,
        }
    }
}

/// A tag that must be singular appears twice.
pub open spec fn has_duplicate_singular(ts: Seq<TagModel>) -> bool {
    count_tag(ts, seq![118u8]) >= 2 || count_tag(ts, seq![97u8]) >= 2 || count_tag(
        ts,
        seq![100u8],
    ) >= 2 || count_tag(ts, seq![115u8]) >= 2 || count_tag(ts, seq![98u8, 104u8]) >= 2 || count_tag(
        ts,
        seq![98u8],
    ) >= 2
}

/// A required tag is absent.
pub open spec fn missing_required(ts: Seq<TagModel>) -> bool {
    find_tag(ts, seq![118u8]) is None || find_tag(ts, seq![97u8]) is None || find_tag(
        ts,
        seq![98u8],
    ) is None || find_tag(ts, seq![98u8, 104u8]) is None || find_tag(ts, seq![100u8]) is None
        || find_tag(ts, seq![104u8]) is None || find_tag(ts, seq![115u8]) is None
}

/// An optional decimal tag, read when present.
pub open spec fn opt_num(ts: Seq<TagModel>, n: Seq<u8>) -> Result<Option<u64>, ParseError> {
    match find_tag(ts, n) {
        Option::None => Result::Ok(Option::None),
        Option::Some(v) => if valid_u64(v) {
            Result::Ok(Option::Some(dec_val(v) as u64))
        } else {
            Result::Err(ParseError::BadNumber)
        },
    }
}

/// What parsing a `DKIM-Signature` header value yields: the record, or the
/// first error in checking order — duplicate singular tags, missing
/// required tags, the version, the algorithm, the canonicalization pair,
/// domain and selector, the signed-header list, and the numeric tags.
pub open spec fn parse_sig(v: Seq<u8>) -> Result<SigModel, ParseError> {
    let ts = tags_of(v);
    if has_duplicate_singular(ts) {
        Result::Err(ParseError::DuplicateTag)
    } else if missing_required(ts) {
        Result::Err(ParseError::MissingTag)
    } else if find_tag(ts, seq![118u8]).unwrap() != seq![49u8] {
        Result::Err(ParseError::BadVersion)
    } else {
        match algorithm_of(find_tag(ts, seq![97u8]).unwrap()) {
            Option::None => Result::Err(ParseError::UnsupportedAlgorithm),
            Option::Some(alg) => {
                let cm = match find_tag(ts, seq![99u8]) {
                    Option::None => Option::Some((CanonMode::Simple, CanonMode::Simple)),
                    Option::Some(cv) => canon_pair(cv),
                };
                match cm {
                    Option::None => Result::Err(ParseError::BadCanonicalization),
                    Option::Some(hb) => {
                        if !valid_dns_name(find_tag(ts, seq![100u8]).unwrap()) {
                            Result::Err(ParseError::BadDomain)
                        } else if !valid_dns_name(find_tag(ts, seq![115u8]).unwrap()) {
                            Result::Err(ParseError::BadSelector)
                        } else {
                            let names = signed_names(find_tag(ts, seq![104u8]).unwrap());
                            if names.len() == 0 {
                                Result::Err(ParseError::NoSignedHeaders)
                            } else if !lists_from(names) {
                                Result::Err(ParseError::MissingFrom)
                            } else {
                                match (
                                    opt_num(ts, seq![108u8]),
                                    opt_num(ts, seq![116u8]),
                                    opt_num(ts, seq![120u8]),
                                ) {
                                    (Result::Ok(l), Result::Ok(t), Result::Ok(x)) => Result::Ok(
                                        SigModel {
                                            algorithm: alg,
                                            header_mode: hb.0,
                                            body_mode: hb.1,
                                            domain: find_tag(ts, seq![100u8]).unwrap(),
                                            selector: find_tag(ts, seq![115u8]).unwrap(),
                                            signed_headers: names,
                                            body_hash_b64: strip_all_fws(
                                                find_tag(ts, seq![98u8, 104u8]).unwrap(),
                                            ),
                                            signature_b64: strip_all_fws(
                                                find_tag(ts, seq![98u8]).unwrap(),
                                            ),
                                            body_limit: l,
                                            timestamp: t,
                                            expiration: x,
                                        },
                                    ),
                                    _ => Result::Err(ParseError::BadNumber),
                                }
                            }
                        }
                    },
                }
            },
        }
    }
}

/// Parse the value of a `DKIM-Signature` header.
pub fn parse_signature(v: &[u8]) -> (r: Result<SignatureRecord, ParseError>)
    ensures
        match r {
            Result::Ok(rec) => parse_sig(v@) == Result::<SigModel, ParseError>::Ok(rec@),
            Result::Err(e) => parse_sig(v@) == Result::<SigModel, ParseError>::Err(e),
        },
{
    let ts = parse_tags(v);
    let n_v: [u8; 1] = [118];
    let n_a: [u8; 1] = [97];
    let n_b: [u8; 1] = [98];
    let n_bh: [u8; 2] = [98, 104];
    let n_c: [u8; 1] = [99];
    let n_d: [u8; 1] = [100];
    let n_h: [u8; 1] = [104];
    let n_s: [u8; 1] = [115];
    let n_l: [u8; 1] = [108];
    let n_t: [u8; 1] = [116];
    let n_x: [u8; 1] = [120];
    proof {
        assert(n_v@ =~= seq![118u8]);
        assert(n_a@ =~= seq![97u8]);
        assert(n_b@ =~= seq![98u8]);
        assert(n_bh@ =~= seq![98u8, 104u8]);
        assert(n_c@ =~= seq![99u8]);
        assert(n_d@ =~= seq![100u8]);
        assert(n_h@ =~= seq![104u8]);
        assert(n_s@ =~= seq![115u8]);
        assert(n_l@ =~= seq![108u8]);
        assert(n_t@ =~= seq![116u8]);
        assert(n_x@ =~= seq![120u8]);
    }
    if count_tag_exec(&ts, n_v.as_slice()) >= 2 || count_tag_exec(&ts, n_a.as_slice()) >= 2
        || count_tag_exec(&ts, n_d.as_slice()) >= 2 || count_tag_exec(&ts, n_s.as_slice()) >= 2
        || count_tag_exec(&ts, n_bh.as_slice()) >= 2 || count_tag_exec(&ts, n_b.as_slice()) >= 2 {
        return Result::Err(ParseError::DuplicateTag);
    }
    let tv = find_tag_exec(&ts, n_v.as_slice());
    let ta = find_tag_exec(&ts, n_a.as_slice());
    let tb = find_tag_exec(&ts, n_b.as_slice());
    let tbh = find_tag_exec(&ts, n_bh.as_slice());
    let td = find_tag_exec(&ts, n_d.as_slice());
    let th = find_tag_exec(&ts, n_h.as_slice());
    let tsel = find_tag_exec(&ts, n_s.as_slice());
    let (tv, ta, tb, tbh, td, th, tsel) = match (tv, ta, tb, tbh, td, th, tsel) {
        (
            Option::Some(tv),
            Option::Some(ta),
            Option::Some(tb),
            Option::Some(tbh),
            Option::Some(td),
            Option::Some(th),
            Option::Some(tsel),
        ) => (tv, ta, tb, tbh, td, th, tsel),
        _ => {
            return Result::Err(ParseError::MissingTag);
        },
    };
    let one: [u8; 1] = [49];
    proof {
        assert(one@ =~= seq![49u8]);
    }
    if !bytes_eq(tv.as_slice(), one.as_slice()) {
        return Result::Err(ParseError::BadVersion);
    }
    let alg = match algorithm_of_exec(ta.as_slice()) {
        Option::Some(alg) => alg,
        Option::None => {
            return Result::Err(ParseError::UnsupportedAlgorithm);
        },
    };
    let tc = find_tag_exec(&ts, n_c.as_slice());
    let (hm, bm) = match tc {
        Option::None => (CanonMode::Simple, CanonMode::Simple),
        Option::Some(cv) => {
            match parse_canon_pair(cv.as_slice()) {
                Option::Some(hb) => hb,
                Option::None => {
                    return Result::Err(ParseError::BadCanonicalization);
                },
            }
        },
    };
    if !valid_dns_name_exec(td.as_slice()) {
        return Result::Err(ParseError::BadDomain);
    }
    if !valid_dns_name_exec(tsel.as_slice()) {
        return Result::Err(ParseError::BadSelector);
    }
    let names = parse_signed_names(th.as_slice());
    if names.len() == 0 {
        proof {
            assert(signed_names(find_tag(tag_views(ts@), seq![104u8]).unwrap()).len() == 0);
        }
        return Result::Err(ParseError::NoSignedHeaders);
    }
    if !lists_from_exec(&names) {
        return Result::Err(ParseError::MissingFrom);
    }
    let tl = find_tag_exec(&ts, n_l.as_slice());
    let limit = match tl {
        Option::None => Option::None,
        Option::Some(lv) => {
            match parse_u64(lv.as_slice()) {
                Option::Some(n) => Option::Some(n),
                Option::None => {
                    return Result::Err(ParseError::BadNumber);
                },
            }
        },
    };
    let tt = find_tag_exec(&ts, n_t.as_slice());
    let tstamp = match tt {
        Option::None => Option::None,
        Option::Some(tv2) => {
            match parse_u64(tv2.as_slice()) {
                Option::Some(n) => Option::Some(n),
                Option::None => {
                    return Result::Err(ParseError::BadNumber);
                },
            }
        },
    };
    let tx = find_tag_exec(&ts, n_x.as_slice());
    let exp = match tx {
        Option::None => Option::None,
        Option::Some(xv) => {
            match parse_u64(xv.as_slice()) {
                Option::Some(n) => Option::Some(n),
                Option::None => {
                    return Result::Err(ParseError::BadNumber);
                },
            }
        },
    };
    let rec = SignatureRecord {
        algorithm: alg,
        header_mode: hm,
        body_mode: bm,
        domain: td,
        selector: tsel,
        signed_headers: names,
        body_hash_b64: remove_fws(tbh.as_slice()),
        signature_b64: remove_fws(tb.as_slice()),
        body_limit: limit,
        timestamp: tstamp,
        expiration: exp,
    };
    proof {
        assert(rec@.signed_headers =~= signed_names(find_tag(tag_views(ts@), seq![104u8]).unwrap()));
        assert(parse_sig(v@) == Result::<SigModel, ParseError>::Ok(rec@));
    }
    Result::Ok(rec)
}

/// A tag part with its value removed when it is the `b=` tag; the `=` and
/// everything before it stay.
pub open spec fn blank_b_part(part: Seq<u8>) -> Seq<u8> {
    let i = first_match(part, seq![61u8]) as int;
    if i + 1 <= part.len() && trimmed(part.take(i), true) == seq![98u8] {
        part.take(i + 1)
    } else {
        part
    }
}

/// The signature header value with the `b=` tag's value removed, as the
/// protocol requires before the header signs itself.
pub open spec fn strip_b_value(v: Seq<u8>) -> Seq<u8> {
    join_with(split_at(v, seq![59u8]).map_values(|p: Seq<u8>| blank_b_part(p)), seq![59u8])
}

/// Remove the `b=` tag's value from a signature header value.
pub fn blank_b_tag(v: &[u8]) -> (r: Vec<u8>)
    ensures
        r@ == strip_b_value(v@),
{
    let semi: [u8; 1] = [59];
    let eq: [u8; 1] = [61];
    let bname: [u8; 1] = [98];
    proof {
        assert(semi@ =~= seq![59u8]);
        assert(eq@ =~= seq![61u8]);
        assert(bname@ =~= seq![98u8]);
    }
    let parts = split_pat(v, semi.as_slice());
    let ghost ps = views(parts@);
    let mut blanked: Vec<Vec<u8>> = Vec::new();
    let mut i: usize = 0;
    while i < parts.len()
        invariant
            i <= parts@.len(),
            ps == views(parts@),
            views(blanked@) == ps.map_values(|p: Seq<u8>| blank_b_part(p)).take(i as int),
            eq@ == seq![61u8],
            bname@ == seq![98u8],
        decreases parts@.len() - i,
    {
        let ghost mapped = ps.map_values(|p: Seq<u8>| blank_b_part(p));
        proof {
            assert(mapped.take(i + 1) =~= mapped.take(i as int).push(mapped[i as int]));
            assert(parts@[i as int]@.skip(0) =~= parts@[i as int]@);
        }
        let part = &parts[i];
        let e = find_pat(part.as_slice(), eq.as_slice(), 0);
        let mut replaced = false;
        let mut piece: Vec<u8> = Vec::new();
        if e < part.len() {
            let rawn = copy_range(part.as_slice(), 0, e);
            proof {
                assert(rawn@ =~= ps[i as int].take(e as int));
            }
            let name = trim_ws(rawn.as_slice(), true);
            if bytes_eq(name.as_slice(), bname.as_slice()) {
                piece = copy_range(part.as_slice(), 0, e + 1);
                replaced = true;
                proof {
                    assert(piece@ =~= ps[i as int].take(e + 1));
                    assert(piece@ == blank_b_part(ps[i as int]));
                }
            }
        }
        if !replaced {
            piece = copy_range(part.as_slice(), 0, part.len());
            proof {
                assert(piece@ =~= ps[i as int]);
                assert(piece@ == blank_b_part(ps[i as int]));
            }
        }
        blanked.push(piece);
        proof {
            assert(views(blanked@) =~= mapped.take(i as int).push(mapped[i as int]));
        }
        i = i + 1;
    }
    proof {
        let mapped = ps.map_values(|p: Seq<u8>| blank_b_part(p));
        assert(mapped.take(mapped.len() as int) =~= mapped);
    }
    let semis: [u8; 1] = [59];
    proof {
        assert(semis@ =~= seq![59u8]);
    }
    join_pat(&blanked, semis.as_slice())
}

} // verus!
