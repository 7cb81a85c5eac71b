//! Canonicalization of header fields and message bodies.
//!
//! Two algorithms exist for each. "Simple" passes bytes through almost
//! unchanged; "relaxed" lower-cases header names, collapses whitespace
//! runs to single spaces and drops trailing blank lines, so that benign
//! transport reformatting does not change the hashed bytes.

use vstd::prelude::*;

use crate::bytes::{
    is_wsp, is_fws, lower_seq, strip_ws_end, split_at, first_match, lower_bytes, split_pat,
    copy_range, views, join_with, has_match, lemma_first_match, lemma_first_match_at,
};

verus! {

/// The canonicalization algorithm named by one half of the `c=` tag.
#[derive(Clone, Copy, PartialEq, Eq, Structural, Debug)]
pub enum CanonMode {
    Simple,
    Relaxed,
}

/// The CRLF line terminator.
pub open spec fn crlf() -> Seq<u8> {
    seq![13u8, 10u8]
}

/// One step of whitespace collapsing: a whitespace byte becomes a single
/// space unless a space is already pending; `fold` widens the whitespace
/// set to line folds, and `keep_lead` keeps a space for leading whitespace
/// instead of dropping it.
pub open spec fn collapse_step(acc: Seq<u8>, b: u8, fold: bool, keep_lead: bool) -> Seq<u8> {
    if (if fold {
        is_fws(b)
    } else {
        is_wsp(b)
    }) {
        if acc.len() == 0 {
            if keep_lead {
                acc.push(32)
            } else {
                acc
            }
        } else if acc.last() == 32 {
            acc
        } else {
            acc.push(32)
        }
    } else {
        acc.push(b)
    }
}

/// Whitespace runs collapsed to single spaces, byte by byte from the left.
pub open spec fn collapse_ws(s: Seq<u8>, fold: bool, keep_lead: bool) -> Seq<u8>
    decreases s.len(),
{
    if s.len() == 0 {
        Seq::empty()
    } else {
        collapse_step(collapse_ws(s.drop_last(), fold, keep_lead), s.last(), fold, keep_lead)
    }
}

/// A single trailing space removed.
pub open spec fn strip_last_sp(s: Seq<u8>) -> Seq<u8> {
    if s.len() > 0 && s.last() == 32 {
        s.drop_last()
    } else {
        s
    }
}

/// A header value in relaxed form: folds and whitespace runs become single
/// spaces, and leading and trailing whitespace is dropped.
pub open spec fn relaxed_value(s: Seq<u8>) -> Seq<u8> {
    strip_last_sp(collapse_ws(s, true, false))
}

/// A body line in relaxed form: whitespace runs become single spaces and
/// trailing whitespace is dropped; a leading run stays as one space.
pub open spec fn relaxed_line(s: Seq<u8>) -> Seq<u8> {
    strip_last_sp(collapse_ws(s, false, true))
}

/// Collapse whitespace in `s`.
fn collapse_exec(s: &[u8], fold: bool, keep_lead: bool) -> (r: Vec<u8>)
    ensures
        r@ == strip_last_sp(collapse_ws(s@, fold, keep_lead)),
{
    let mut out: Vec<u8> = Vec::new();
    let mut i: usize = 0;
    proof {
        assert(s@.take(0) =~= Seq::<u8>::empty());
    }
    while i < s.len()
        invariant
            i <= s@.len(),
            out@ == collapse_ws(s@.take(i as int), fold, keep_lead),
        decreases s@.len() - i,
    {
        proof {
            assert(s@.take(i + 1).drop_last() =~= s@.take(i as int));
            assert(s@.take(i + 1).last() == s@[i as int]);
        }
        let b = s[i];
        let ws = b == 32 || b == 9 || (fold && (b == 13 || b == 10));
        if ws {
            if out.len() == 0 {
                if keep_lead {
                    out.push(32);
                }
            } else if out[out.len() - 1] != 32 {
                out.push(32);
            }
        } else {
            out.push(b);
        }
        i = i + 1;
    }
    proof {
        assert(s@.take(s@.len() as int) =~= s@);
    }
    if out.len() > 0 && out[out.len() - 1] == 32 {
        out.pop();
        proof {
            assert(out@ =~= strip_last_sp(collapse_ws(s@, fold, keep_lead)));
        }
    }
    out
}

/// The bytes of `s` split into lines at CRLF; a final fragment without a
/// terminator is a line of its own, and an empty sequence has no lines.
pub open spec fn body_lines(s: Seq<u8>) -> Seq<Seq<u8>> {
    if s.len() == 0 {
        Seq::empty()
    } else if s.len() >= 2 && s[s.len() - 2] == 13 && s[s.len() - 1] == 10 {
        split_at(s.take(s.len() - 2), crlf())
    } else {
        split_at(s, crlf())
    }
}

/// Split a body into its lines.
pub fn split_body_lines(s: &[u8]) -> (r: Vec<Vec<u8>>)
    ensures
        views(r@) == body_lines(s@),
{
    if s.len() == 0 {
        let out: Vec<Vec<u8>> = Vec::new();
        proof {
            assert(views(out@) =~= body_lines(s@));
        }
        return out;
    }
    let sep: [u8; 2] = [13, 10];
    if s.len() >= 2 && s[s.len() - 2] == 13 && s[s.len() - 1] == 10 {
        let head = copy_range(s, 0, s.len() - 2);
        proof {
            assert(head@ =~= s@.take(s@.len() - 2));
            assert(sep@ =~= crlf());
        }
        split_pat(head.as_slice(), sep.as_slice())
    } else {
        proof {
            assert(sep@ =~= crlf());
        }
        split_pat(s, sep.as_slice())
    }
}

/// Trailing empty lines removed.
pub open spec fn drop_trailing_empty(ls: Seq<Seq<u8>>) -> Seq<Seq<u8>>
    decreases ls.len(),
{
    if ls.len() > 0 && ls.last().len() == 0 {
        drop_trailing_empty(ls.drop_last())
    } else {
        ls
    }
}

/// The lines written out, each closed with CRLF.
pub open spec fn cat_lines(ls: Seq<Seq<u8>>) -> Seq<u8>
    decreases ls.len(),
{
    if ls.len() == 0 {
        Seq::empty()
    } else {
        cat_lines(ls.drop_last()) + ls.last() + crlf()
    }
}

/// A body in relaxed form: every line relaxed, trailing blank lines
/// removed, each remaining line closed with CRLF; an empty body stays
/// empty.
pub open spec fn relaxed_body(s: Seq<u8>) -> Seq<u8> {
    cat_lines(drop_trailing_empty(body_lines(s).map_values(|l: Seq<u8>| relaxed_line(l))))
}

/// Trailing CRLF pairs removed.
pub open spec fn strip_crlf_end(s: Seq<u8>) -> Seq<u8>
    decreases s.len(),
{
    if s.len() >= 2 && s[s.len() - 2] == 13 && s[s.len() - 1] == 10 {
        strip_crlf_end(s.take(s.len() - 2))
    } else {
        s
    }
}

/// A body in simple form: trailing empty lines become a single CRLF, and
/// an empty body becomes a single CRLF.
pub open spec fn simple_body(s: Seq<u8>) -> Seq<u8> {
    strip_crlf_end(s) + crlf()
}

/// Canonical body under `mode`, before any length limit.
pub open spec fn body_canon(s: Seq<u8>, mode: CanonMode) -> Seq<u8> {
    match mode {
        CanonMode::Simple => simple_body(s),
        CanonMode::Relaxed => relaxed_body(s),
    }
}

/// Canonical body truncated to a declared length limit, never extended.
pub open spec fn body_canon_limited(s: Seq<u8>, mode: CanonMode, limit: Option<u64>) -> Seq<u8> {
    let c = body_canon(s, mode);
    match limit {
        Option::Some(l) => if (l as nat) < c.len() {
            c.take(l as int)
        } else {
            c
        },
        Option::None => c,
    }
}

/// Canonicalize a body under `mode`, truncating to `limit` when one is set.
pub fn canonicalize_body(s: &[u8], mode: CanonMode, limit: Option<u64>) -> (r: Vec<u8>)
    ensures
        r@ == body_canon_limited(s@, mode, limit),
{
    let mut out: Vec<u8> = match mode {
        CanonMode::Simple => simple_body_exec(s),
        CanonMode::Relaxed => relaxed_body_exec(s),
    };
    if let Option::Some(l) = limit {
        if l < out.len() as u64 {
            #[verifier::truncate]
            let lu = l as usize;
            out.truncate(lu);
            proof {
                assert(out@ =~= body_canon(s@, mode).take(l as int));
            }
        }
    }
    out
}

fn simple_body_exec(s: &[u8]) -> (r: Vec<u8>)
    ensures
        r@ == simple_body(s@),
{
    let mut end: usize = s.len();
    proof {
        assert(s@.take(s@.len() as int) =~= s@);
    }
    while end >= 2 && s[end - 2] == 13 && s[end - 1] == 10
        invariant
            end <= s@.len(),
            strip_crlf_end(s@) == strip_crlf_end(s@.take(end as int)),
        decreases end,
    {
        proof {
            let t = s@.take(end as int);
            assert(t[t.len() - 2] == s@[end - 2] && t[t.len() - 1] == s@[end - 1]);
            assert(t.take(t.len() - 2) =~= s@.take(end - 2));
        }
        end = end - 2;
    }
    proof {
        let t = s@.take(end as int);
        assert(strip_crlf_end(t) == t);
    }
    let mut out = copy_range(s, 0, end);
    proof {
        assert(out@ =~= s@.take(end as int));
    }
    out.push(13);
    out.push(10);
    proof {
        assert(out@ =~= strip_crlf_end(s@) + crlf());
    }
    out
}

fn relaxed_body_exec(s: &[u8]) -> (r: Vec<u8>)
    ensures
        r@ == relaxed_body(s@),
{
    let lines = split_body_lines(s);
    let ghost spec_canon = body_lines(s@).map_values(|l: Seq<u8>| relaxed_line(l));
    let mut canon: Vec<Vec<u8>> = Vec::new();
    let mut i: usize = 0;
    // last index (exclusive) of a non-empty canonical line
    let mut keep: usize = 0;
    while i < lines.len()
        invariant
            i <= lines@.len(),
            views(lines@) == body_lines(s@),
            canon@.len() == i,
            views(canon@) == spec_canon.take(i as int),
            spec_canon == body_lines(s@).map_values(|l: Seq<u8>| relaxed_line(l)),
            keep <= i,
            forall|j: int| keep <= j < i ==> spec_canon[j].len() == 0,
            keep > 0 ==> spec_canon[keep - 1].len() > 0,
        decreases lines@.len() - i,
    {
        let c = collapse_exec(lines[i].as_slice(), false, true);
        proof {
            assert(views(lines@)[i as int] == lines@[i as int]@);
            assert(spec_canon[i as int] == relaxed_line(body_lines(s@)[i as int]));
            assert(views(canon@.push(c)) =~= views(canon@).push(c@));
            assert(spec_canon.take(i + 1) =~= spec_canon.take(i as int).push(
                spec_canon[i as int],
            ));
        }
        let nonempty = c.len() > 0;
        canon.push(c);
        i = i + 1;
        if nonempty {
            keep = i;
        }
    }
    proof {
        assert(spec_canon.take(spec_canon.len() as int) =~= spec_canon);
        lemma_drop_trailing_prefix(spec_canon, keep as int);
    }
    // write out the first `keep` canonical lines, each closed with CRLF
    let mut out: Vec<u8> = Vec::new();
    let mut j: usize = 0;
    while j < keep
        invariant
            j <= keep <= canon@.len(),
            views(canon@) == spec_canon,
            out@ == cat_lines(spec_canon.take(keep as int).take(j as int)),
        decreases keep - j,
    {
        let line = &canon[j];
        let mut k: usize = 0;
        let ghost base = out@;
        while k < line.len()
            invariant
                k <= line@.len(),
                out@ == base + line@.take(k as int),
            decreases line@.len() - k,
        {
            out.push(line[k]);
            proof {
                assert(line@.take(k + 1) =~= line@.take(k as int).push(line@[k as int]));
                assert((base + line@.take(k as int)).push(line@[k as int]) =~= base + line@.take(
                    k + 1,
                ));
            }
            k = k + 1;
        }
        out.push(13);
        out.push(10);
        proof {
            let t = spec_canon.take(keep as int);
            assert(line@.take(line@.len() as int) =~= line@);
            assert(t.take(j + 1).drop_last() =~= t.take(j as int));
            assert(t.take(j + 1).last() == t[j as int]);
            assert(t[j as int] == views(canon@)[j as int]);
            assert(out@ =~= cat_lines(t.take(j as int)) + t[j as int] + crlf());
        }
        j = j + 1;
    }
    proof {
        let t = spec_canon.take(keep as int);
        assert(t.take(t.len() as int) =~= t);
    }
    out
}

/// Dropping trailing empty lines keeps exactly the first `keep` lines when
/// everything after them is empty and the last kept line is not.
proof fn lemma_drop_trailing_prefix(ls: Seq<Seq<u8>>, keep: int)
    requires
        0 <= keep <= ls.len(),
        forall|j: int| keep <= j < ls.len() ==> ls[j].len() == 0,
        keep > 0 ==> ls[keep - 1].len() > 0,
    ensures
        drop_trailing_empty(ls) == ls.take(keep),
    decreases ls.len(),
{
    if ls.len() == 0 {
        assert(ls.take(0) =~= ls);
    } else if keep == ls.len() {
        assert(ls.take(keep) =~= ls);
    } else {
        assert(ls.last().len() == 0);
        lemma_drop_trailing_prefix(ls.drop_last(), keep);
        assert(ls.drop_last().take(keep) =~= ls.take(keep));
    }
}

/// A header field in relaxed form: the name lowered with its trailing
/// whitespace dropped, a bare colon, and the relaxed value.
pub open spec fn relaxed_header(name: Seq<u8>, value: Seq<u8>) -> Seq<u8> {
    strip_ws_end(lower_seq(name), false) + seq![58u8] + relaxed_value(value)
}

/// A header field in simple form: name, colon and value exactly as stored.
pub open spec fn simple_header(name: Seq<u8>, value: Seq<u8>) -> Seq<u8> {
    name + seq![58u8] + value
}

/// Canonical form of one header field under `mode`, without a terminator.
pub open spec fn header_canon(name: Seq<u8>, value: Seq<u8>, mode: CanonMode) -> Seq<u8> {
    match mode {
        CanonMode::Simple => simple_header(name, value),
        CanonMode::Relaxed => relaxed_header(name, value),
    }
}

/// Canonicalize one header field under `mode`.
pub fn canonicalize_header(name: &[u8], value: &[u8], mode: CanonMode) -> (r: Vec<u8>)
    ensures
        r@ == header_canon(name@, value@, mode),
{
    match mode {
        CanonMode::Simple => {
            let mut out = copy_range(name, 0, name.len());
            proof {
                assert(out@ =~= name@);
            }
            out.push(58);
            let mut k: usize = 0;
            let ghost base = out@;
            while k < value.len()
                invariant
                    k <= value@.len(),
                    out@ == base + value@.take(k as int),
                decreases value@.len() - k,
            {
                out.push(value[k]);
                proof {
                    assert(value@.take(k + 1) =~= value@.take(k as int).push(value@[k as int]));
                    assert((base + value@.take(k as int)).push(value@[k as int]) =~= base
                        + value@.take(k + 1));
                }
                k = k + 1;
            }
            proof {
                assert(value@.take(value@.len() as int) =~= value@);
                assert(out@ =~= simple_header(name@, value@));
            }
            out
        },
        CanonMode::Relaxed => {
            let low = lower_bytes(name);
            let mut end: usize = low.len();
            proof {
                assert(low@.take(low@.len() as int) =~= low@);
            }
            while end > 0 && (low[end - 1] == 32 || low[end - 1] == 9)
                invariant
                    end <= low@.len(),
                    strip_ws_end(low@, false) == strip_ws_end(low@.take(end as int), false),
                decreases end,
            {
                proof {
                    let t = low@.take(end as int);
                    assert(t.last() == low@[end - 1]);
                    assert(t.drop_last() =~= low@.take(end - 1));
                }
                end = end - 1;
            }
            proof {
                let t = low@.take(end as int);
                assert(strip_ws_end(t, false) == t);
            }
            let mut out = copy_range(low.as_slice(), 0, end);
            out.push(58);
            let v = collapse_exec(value, true, false);
            let ghost mid = out@;
            let mut k: usize = 0;
            while k < v.len()
                invariant
                    k <= v@.len(),
                    out@ == mid + v@.take(k as int),
                decreases v@.len() - k,
            {
                out.push(v[k]);
                proof {
                    assert(v@.take(k + 1) =~= v@.take(k as int).push(v@[k as int]));
                    assert((mid + v@.take(k as int)).push(v@[k as int]) =~= mid + v@.take(k + 1));
                }
                k = k + 1;
            }
            proof {
                assert(v@.take(v@.len() as int) =~= v@);
                assert(out@ =~= relaxed_header(name@, value@));
            }
            out
        },
    }
}


/// Shape of collapsed text: the only whitespace byte of the mode's set is
/// the space, never two in a row, and at the start only when leading
/// whitespace is kept.
pub open spec fn ws_collapsed(s: Seq<u8>, fold: bool, keep_lead: bool) -> bool {
    forall|i: int|
        0 <= i < s.len() ==> ((if fold {
            is_fws(#[trigger] s[i])
        } else {
            is_wsp(s[i])
        }) ==> (s[i] == 32 && (i == 0 ==> keep_lead) && (i > 0 ==> s[i - 1] != 32)))
}

/// Collapsing always yields collapsed text.
pub proof fn lemma_collapse_shape(s: Seq<u8>, fold: bool, keep_lead: bool)
    ensures
        ws_collapsed(collapse_ws(s, fold, keep_lead), fold, keep_lead),
    decreases s.len(),
{
    if s.len() > 0 {
        lemma_collapse_shape(s.drop_last(), fold, keep_lead);
    }
}

/// Collapsed text is a fixed point of collapsing.
pub proof fn lemma_collapse_fixed(t: Seq<u8>, fold: bool, keep_lead: bool)
    requires
        ws_collapsed(t, fold, keep_lead),
    ensures
        collapse_ws(t, fold, keep_lead) == t,
    decreases t.len(),
{
    if t.len() > 0 {
        let u = t.drop_last();
        assert(ws_collapsed(u, fold, keep_lead));
        lemma_collapse_fixed(u, fold, keep_lead);
        let b = t.last();
        if b == 32 && (if fold {
            is_fws(b)
        } else {
            is_wsp(b)
        }) {
            if t.len() == 1 {
                assert(t =~= Seq::<u8>::empty().push(32));
            } else {
                assert(u.last() == t[t.len() - 2]);
                assert(t[t.len() - 2] != 32);
                assert(t =~= u.push(32));
            }
        } else {
            assert(!(if fold {
                is_fws(b)
            } else {
                is_wsp(b)
            }));
            assert(t =~= u.push(b));
        }
    }
}

/// Re-canonicalizing an already relaxed header value changes nothing:
/// relaxed canonicalization of header values is idempotent (and, being a
/// function of the bytes alone, deterministic).
pub proof fn lemma_relaxed_value_idempotent(s: Seq<u8>)
    ensures
        relaxed_value(relaxed_value(s)) == relaxed_value(s),
{
    lemma_strip_collapse_idempotent(s, true, false);
}

/// Re-canonicalizing an already relaxed body line changes nothing.
pub proof fn lemma_relaxed_line_idempotent(s: Seq<u8>)
    ensures
        relaxed_line(relaxed_line(s)) == relaxed_line(s),
{
    lemma_strip_collapse_idempotent(s, false, true);
}

proof fn lemma_strip_collapse_idempotent(s: Seq<u8>, fold: bool, keep_lead: bool)
    ensures
        strip_last_sp(
            collapse_ws(strip_last_sp(collapse_ws(s, fold, keep_lead)), fold, keep_lead),
        ) == strip_last_sp(collapse_ws(s, fold, keep_lead)),
{
    let c = collapse_ws(s, fold, keep_lead);
    lemma_collapse_shape(s, fold, keep_lead);
    let r = strip_last_sp(c);
    assert(ws_collapsed(r, fold, keep_lead)) by {
        if c.len() > 0 && c.last() == 32 {
            assert(forall|i: int| 0 <= i < r.len() ==> r[i] == c[i]);
        }
    }
    lemma_collapse_fixed(r, fold, keep_lead);
    if r.len() > 0 && r.last() == 32 {
        // impossible: a stripped sequence cannot still end with a space
        if c.len() > 0 && c.last() == 32 {
            assert(r.last() == c[c.len() - 2]);
            assert(is_wsp(32) && is_fws(32));
            assert(false);
        } else {
            assert(false);
        }
    }
}

/// The result of stripping trailing CRLF pairs never ends with one.
proof fn lemma_strip_crlf_end_shape(s: Seq<u8>)
    ensures
        !(strip_crlf_end(s).len() >= 2 && strip_crlf_end(s)[strip_crlf_end(s).len() - 2] == 13
            && strip_crlf_end(s)[strip_crlf_end(s).len() - 1] == 10),
    decreases s.len(),
{
    if s.len() >= 2 && s[s.len() - 2] == 13 && s[s.len() - 1] == 10 {
        lemma_strip_crlf_end_shape(s.take(s.len() - 2));
    }
}

/// Re-canonicalizing an already simple-form body changes nothing: simple
/// body canonicalization is idempotent.
pub proof fn lemma_simple_body_idempotent(s: Seq<u8>)
    ensures
        simple_body(simple_body(s)) == simple_body(s),
{
    let x = strip_crlf_end(s);
    let t = x + crlf();
    assert(t.len() >= 2 && t[t.len() - 2] == 13 && t[t.len() - 1] == 10);
    assert(t.take(t.len() - 2) =~= x);
    lemma_strip_crlf_end_shape(s);
    assert(strip_crlf_end(t) == strip_crlf_end(x));
    assert(strip_crlf_end(x) == x);
}


/// No carriage return immediately followed by a line feed.
pub open spec fn no_crlf(s: Seq<u8>) -> bool {
    forall|i: int| 0 <= i < s.len() - 1 ==> !((#[trigger] s[i]) == 13 && s[i + 1] == 10)
}

/// Collapsing line whitespace neither creates a CRLF pair nor moves a
/// carriage return to the end.
proof fn lemma_collapse_no_crlf(s: Seq<u8>, keep_lead: bool)
    requires
        no_crlf(s),
    ensures
        no_crlf(collapse_ws(s, false, keep_lead)),
        collapse_ws(s, false, keep_lead).len() > 0 && collapse_ws(s, false, keep_lead).last() == 13
            ==> s.len() > 0 && s.last() == 13,
    decreases s.len(),
{
    if s.len() > 0 {
        let u = s.drop_last();
        assert(no_crlf(u)) by {
            assert(forall|i: int| 0 <= i < u.len() ==> u[i] == s[i]);
        }
        lemma_collapse_no_crlf(u, keep_lead);
        let acc = collapse_ws(u, false, keep_lead);
        let b = s.last();
        let c = collapse_ws(s, false, keep_lead);
        if is_wsp(b) {
            if acc.len() == 0 {
                assert(no_crlf(c));
            } else if acc.last() == 32 {
                assert(c == acc);
            } else {
                assert(c == acc.push(32));
                assert(forall|i: int| 0 <= i < acc.len() ==> c[i] == acc[i]);
                assert(no_crlf(c));
            }
        } else {
            assert(c == acc.push(b));
            assert(forall|i: int| 0 <= i < acc.len() ==> c[i] == acc[i]);
            if acc.len() > 0 && acc.last() == 13 && b == 10 {
                assert(u.len() > 0 && u.last() == 13);
                assert(s[s.len() - 2] == 13 && s[s.len() - 1] == 10);
                assert(false);
            }
            assert(no_crlf(c));
        }
    }
}

/// A relaxed body line never holds a CRLF pair when its source held none.
proof fn lemma_relaxed_line_no_crlf(l: Seq<u8>)
    requires
        no_crlf(l),
    ensures
        no_crlf(relaxed_line(l)),
{
    lemma_collapse_no_crlf(l, true);
    let c = collapse_ws(l, false, true);
    let r = relaxed_line(l);
    assert(forall|i: int| 0 <= i < r.len() ==> r[i] == c[i]);
}

/// A sequence without a CRLF pair has no match of the terminator.
proof fn lemma_no_crlf_no_match(x: Seq<u8>)
    requires
        no_crlf(x),
    ensures
        !has_match(x, crlf()),
{
    assert forall|i: int| 0 <= i && i + 2 <= x.len() implies #[trigger] x.subrange(i, i + 2)
        != crlf() by {
        if x.subrange(i, i + 2) == crlf() {
            assert(x.subrange(i, i + 2)[0] == x[i]);
            assert(x.subrange(i, i + 2)[1] == x[i + 1]);
            assert(x[i] == 13 && x[i + 1] == 10);
        }
    }
}

/// Every part of a split holds no separator occurrence.
proof fn lemma_split_parts_no_crlf(x: Seq<u8>)
    ensures
        forall|k: int|
            0 <= k < split_at(x, crlf()).len() ==> no_crlf(#[trigger] split_at(x, crlf())[k]),
    decreases x.len(),
{
    lemma_first_match(x, crlf());
    let i = first_match(x, crlf()) as int;
    if i + 2 <= x.len() {
        lemma_split_parts_no_crlf(x.skip(i + 2));
        let head = x.take(i);
        assert(no_crlf(head)) by {
            assert forall|j: int| 0 <= j < head.len() - 1 implies !((#[trigger] head[j]) == 13
                && head[j + 1] == 10) by {
                if head[j] == 13 && head[j + 1] == 10 {
                    assert(x.subrange(j, j + 2) =~= crlf());
                }
            }
        }
        let parts = split_at(x, crlf());
        assert(parts == seq![head] + split_at(x.skip(i + 2), crlf()));
        assert(forall|k: int|
            1 <= k < parts.len() ==> parts[k] == split_at(x.skip(i + 2), crlf())[k - 1]);
    } else {
        let parts = split_at(x, crlf());
        assert(parts == seq![x]);
        assert(no_crlf(x)) by {
            assert forall|j: int| 0 <= j < x.len() - 1 implies !((#[trigger] x[j]) == 13 && x[j
                + 1] == 10) by {
                if x[j] == 13 && x[j + 1] == 10 {
                    assert(x.subrange(j, j + 2) =~= crlf());
                }
            }
        }
    }
}

/// A joined list unfolds from the left as well.
proof fn lemma_join_left(ls: Seq<Seq<u8>>, p: Seq<u8>)
    requires
        ls.len() >= 2,
    ensures
        join_with(ls, p) == ls[0] + p + join_with(ls.skip(1), p),
    decreases ls.len(),
{
    if ls.len() == 2 {
        assert(ls.drop_last() =~= seq![ls[0]]);
        assert(ls.skip(1) =~= seq![ls[1]]);
        assert(join_with(seq![ls[0]], p) == ls[0]);
        assert(join_with(seq![ls[1]], p) == ls[1]);
    } else {
        let dl = ls.drop_last();
        lemma_join_left(dl, p);
        assert(dl.skip(1) =~= ls.skip(1).drop_last());
        assert(ls.skip(1).last() == ls.last());
        assert(join_with(ls.skip(1), p) == join_with(dl.skip(1), p) + p + ls.last());
        assert(join_with(ls, p) == (dl[0] + p + join_with(dl.skip(1), p)) + p + ls.last());
        assert((dl[0] + p + join_with(dl.skip(1), p)) + p + ls.last() =~= dl[0] + p + (join_with(
            dl.skip(1),
            p,
        ) + p + ls.last()));
    }
}

/// Splitting a joined list of terminator-free lines gives the list back.
proof fn lemma_split_join(ls: Seq<Seq<u8>>)
    requires
        ls.len() > 0,
        forall|k: int| 0 <= k < ls.len() ==> no_crlf(#[trigger] ls[k]),
    ensures
        split_at(join_with(ls, crlf()), crlf()) == ls,
    decreases ls.len(),
{
    let x = join_with(ls, crlf());
    if ls.len() == 1 {
        assert(x == ls[0]);
        lemma_no_crlf_no_match(x);
        lemma_first_match(x, crlf());
        if first_match(x, crlf()) + 2 <= x.len() {
            assert(has_match(x, crlf()));
        }
        assert(split_at(x, crlf()) =~= seq![x]);
        assert(seq![x] =~= ls);
    } else {
        lemma_join_left(ls, crlf());
        let head = ls[0];
        let rest = join_with(ls.skip(1), crlf());
        assert(x == head + crlf() + rest);
        let hl = head.len() as int;
        assert(x.subrange(hl, hl + 2) =~= crlf());
        assert forall|j: int| 0 <= j < hl implies #[trigger] x.subrange(j, j + 2) != crlf() by {
            if x.subrange(j, j + 2) == crlf() {
                assert(x.subrange(j, j + 2)[0] == x[j] && x.subrange(j, j + 2)[1] == x[j + 1]);
                if j + 1 < hl {
                    assert(head[j] == 13 && head[j + 1] == 10);
                } else {
                    assert(x[j + 1] == 13);
                }
            }
        }
        lemma_first_match_at(x, crlf(), hl);
        assert(x.take(hl) =~= head);
        assert(x.skip(hl + 2) =~= rest);
        assert(forall|k: int| 0 <= k < ls.skip(1).len() ==> ls.skip(1)[k] == ls[k + 1]);
        lemma_split_join(ls.skip(1));
        assert(split_at(x, crlf()) == seq![head] + split_at(rest, crlf()));
        assert(seq![head] + ls.skip(1) =~= ls);
    }
}

/// Written-out lines are the joined lines with one more terminator.
proof fn lemma_cat_is_join(ls: Seq<Seq<u8>>)
    requires
        ls.len() > 0,
    ensures
        cat_lines(ls) == join_with(ls, crlf()) + crlf(),
    decreases ls.len(),
{
    if ls.len() == 1 {
        assert(cat_lines(ls.drop_last()) == Seq::<u8>::empty());
        assert(cat_lines(ls) =~= ls[0] + crlf());
        assert(join_with(ls, crlf()) + crlf() =~= ls[0] + crlf());
    } else {
        lemma_cat_is_join(ls.drop_last());
        assert(cat_lines(ls) == (join_with(ls.drop_last(), crlf()) + crlf()) + ls.last() + crlf());
        assert((join_with(ls.drop_last(), crlf()) + crlf()) + ls.last() + crlf() =~= (join_with(
            ls.drop_last(),
            crlf(),
        ) + crlf() + ls.last()) + crlf());
    }
}

/// Dropping trailing empty lines keeps a prefix whose last line, if any,
/// is not empty.
proof fn lemma_dte_shape(ls: Seq<Seq<u8>>)
    ensures
        drop_trailing_empty(ls).len() <= ls.len(),
        forall|k: int|
            0 <= k < drop_trailing_empty(ls).len() ==> #[trigger] drop_trailing_empty(ls)[k]
                == ls[k],
        drop_trailing_empty(ls).len() > 0 ==> drop_trailing_empty(ls).last().len() > 0,
    decreases ls.len(),
{
    if ls.len() > 0 && ls.last().len() == 0 {
        lemma_dte_shape(ls.drop_last());
        assert(forall|k: int| 0 <= k < ls.len() - 1 ==> ls.drop_last()[k] == ls[k]);
    }
}

/// Re-canonicalizing an already relaxed body changes nothing: relaxed
/// body canonicalization is idempotent.
pub proof fn lemma_relaxed_body_idempotent(s: Seq<u8>)
    ensures
        relaxed_body(relaxed_body(s)) == relaxed_body(s),
{
    let m = body_lines(s).map_values(|l: Seq<u8>| relaxed_line(l));
    let ls = drop_trailing_empty(m);
    let t = cat_lines(ls);
    lemma_dte_shape(m);
    if ls.len() == 0 {
        assert(t == Seq::<u8>::empty());
        assert(body_lines(t) =~= Seq::<Seq<u8>>::empty());
        assert(body_lines(t).map_values(|l: Seq<u8>| relaxed_line(l)) =~= Seq::<Seq<u8>>::empty());
        assert(relaxed_body(t) == t);
    } else {
        // every kept line is a relaxed line without a terminator inside
        assert forall|k: int| 0 <= k < ls.len() implies no_crlf(#[trigger] ls[k]) && relaxed_line(
            ls[k],
        ) == ls[k] by {
            assert(ls[k] == m[k]);
            assert(m[k] == relaxed_line(body_lines(s)[k]));
            lemma_split_parts_no_crlf(if s.len() >= 2 && s[s.len() - 2] == 13 && s[s.len() - 1]
                == 10 {
                s.take(s.len() - 2)
            } else {
                s
            });
            assert(no_crlf(body_lines(s)[k]));
            lemma_relaxed_line_no_crlf(body_lines(s)[k]);
            lemma_relaxed_line_idempotent(body_lines(s)[k]);
        }
        lemma_cat_is_join(ls);
        let joined = join_with(ls, crlf());
        assert(t == joined + crlf());
        assert(t.len() >= 2 && t[t.len() - 2] == 13 && t[t.len() - 1] == 10) by {
            assert(t[t.len() - 2] == crlf()[0] && t[t.len() - 1] == crlf()[1]);
        }
        assert(t.take(t.len() - 2) =~= joined);
        lemma_split_join(ls);
        assert(body_lines(t) == ls);
        let m2 = body_lines(t).map_values(|l: Seq<u8>| relaxed_line(l));
        assert(m2 =~= ls) by {
            assert(forall|k: int| 0 <= k < ls.len() ==> m2[k] == relaxed_line(ls[k]));
        }
        assert(drop_trailing_empty(ls) == ls);
        assert(relaxed_body(t) == cat_lines(ls));
    }
}

} // verus!
