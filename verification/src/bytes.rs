//! Byte-level helpers shared by the canonicalizer and the parsers:
//! whitespace classification, ASCII lowering, pattern search and
//! splitting over byte sequences.

use vstd::prelude::*;

verus! {

/// Space or horizontal tab: the whitespace that may appear inside a line.
pub open spec fn is_wsp(b: u8) -> bool {
    b == 32 || b == 9
}

/// Whitespace that may fold a header value over several lines:
/// space, tab, carriage return, line feed.
pub open spec fn is_fws(b: u8) -> bool {
    b == 32 || b == 9 || b == 13 || b == 10
}

/// ASCII upper-case letters map to lower case; all else unchanged.
pub open spec fn to_lower(b: u8) -> u8 {
    if 65 <= b && b <= 90 { (b + 32) as u8 } else { b }
}

/// A byte sequence lowered byte by byte.
pub open spec fn lower_seq(s: Seq<u8>) -> Seq<u8> {
    s.map_values(|b: u8| to_lower(b))
}

pub fn byte_to_lower(b: u8) -> (r: u8)
    ensures
        r == to_lower(b),
{
    if 65 <= b && b <= 90 { b + 32 } else { b }
}

/// Lower-case a byte string.
pub fn lower_bytes(s: &[u8]) -> (r: Vec<u8>)
    ensures
        r@ == lower_seq(s@),
{
    let mut out: Vec<u8> = Vec::new();
    let mut i: usize = 0;
    while i < s.len()
        invariant
            i <= s.len(),
            out@ == lower_seq(s@).take(i as int),
        decreases s.len() - i,
    {
        out.push(byte_to_lower(s[i]));
        proof {
            assert(lower_seq(s@).take(i + 1) =~= lower_seq(s@).take(i as int).push(to_lower(s@[i as int])));
        }
        i = i + 1;
    }
    proof {
        assert(lower_seq(s@).take(s@.len() as int) =~= lower_seq(s@));
    }
    out
}

/// Whether two byte strings hold the same bytes.
pub fn bytes_eq(a: &[u8], b: &[u8]) -> (r: bool)
    ensures
        r <==> a@ == b@,
{
    if a.len() != b.len() {
        proof {
            assert(a@ != b@);
        }
        return false;
    }
    let mut i: usize = 0;
    while i < a.len()
        invariant
            i <= a.len(),
            a@.len() == b@.len(),
            forall|j: int| 0 <= j < i ==> a@[j] == b@[j],
        decreases a.len() - i,
    {
        if a[i] != b[i] {
            return false;
        }
        i = i + 1;
    }
    proof {
        assert(a@ =~= b@);
    }
    true
}

/// The sequence `s` starts with `p`.
pub open spec fn starts_with(s: Seq<u8>, p: Seq<u8>) -> bool {
    p.len() <= s.len() && s.take(p.len() as int) == p
}

/// Index of the first occurrence of `p` in `s`; `s.len()` when there is none.
pub open spec fn first_match(s: Seq<u8>, p: Seq<u8>) -> nat
    decreases s.len(),
{
    if s.len() < p.len() {
        s.len()
    } else if starts_with(s, p) {
        0
    } else if s.len() == 0 {
        0
    } else {
        1 + first_match(s.skip(1), p)
    }
}

/// `p` occurs somewhere in `s`.
pub open spec fn has_match(s: Seq<u8>, p: Seq<u8>) -> bool {
    exists|i: int| 0 <= i && i + p.len() <= s.len() && #[trigger] s.subrange(i, i + p.len() as int)
        == p
}

/// What `first_match` returns: a position where `p` occurs, earlier than
/// every other occurrence, or `s.len()` when `p` does not occur at all.
pub proof fn lemma_first_match(s: Seq<u8>, p: Seq<u8>)
    requires
        p.len() > 0,
    ensures
        first_match(s, p) <= s.len(),
        first_match(s, p) + p.len() <= s.len() ==> s.subrange(
            first_match(s, p) as int,
            first_match(s, p) + p.len() as int,
        ) == p,
        forall|j: int|
            0 <= j < first_match(s, p) && j + p.len() <= s.len() ==> #[trigger] s.subrange(
                j,
                j + p.len() as int,
            ) != p,
        first_match(s, p) + p.len() > s.len() ==> !has_match(s, p),
    decreases s.len(),
{
    if s.len() < p.len() {
        assert(!has_match(s, p));
    } else if starts_with(s, p) {
        assert(s.take(p.len() as int) =~= s.subrange(0, p.len() as int));
    } else {
        let t = s.skip(1);
        lemma_first_match(t, p);
        let f = first_match(s, p);
        assert(f == 1 + first_match(t, p));
        assert forall|j: int| 0 <= j < f && j + p.len() <= s.len() implies #[trigger] s.subrange(
            j,
            j + p.len() as int,
        ) != p by {
            if j == 0 {
                assert(s.take(p.len() as int) =~= s.subrange(0, p.len() as int));
            } else {
                assert(t.subrange(j - 1, j - 1 + p.len() as int) =~= s.subrange(
                    j,
                    j + p.len() as int,
                ));
            }
        }
        if f + p.len() > s.len() {
            assert forall|i: int| 0 <= i && i + p.len() <= s.len() implies #[trigger] s.subrange(
                i,
                i + p.len() as int,
            ) != p by {}
        }
    }
}

/// Position of the first occurrence of `p` in `s` at or after `from`.
pub fn find_pat(s: &[u8], p: &[u8], from: usize) -> (r: usize)
    requires
        p@.len() > 0,
        from <= s@.len(),
    ensures
        r - from == first_match(s@.skip(from as int), p@),
        from <= r <= s@.len(),
{
    proof {
        lemma_first_match(s@.skip(from as int), p@);
    }
    let n: usize = s.len();
    let mut i: usize = from;
    loop
        invariant
            from <= i <= s@.len(),
            n == s@.len(),
            p@.len() > 0,
            forall|j: int|
                from <= j < i && j + p@.len() <= s@.len() ==> #[trigger] s@.subrange(
                    j,
                    j + p@.len() as int,
                ) != p@,
        decreases s@.len() - i,
    {
        if s.len() - i < p.len() {
            proof {
                let t = s@.skip(from as int);
                lemma_first_match(t, p@);
                assert forall|k: int| 0 <= k && k + p@.len() <= t.len() implies #[trigger] t.subrange(
                    k,
                    k + p@.len() as int,
                ) != p@ by {
                    assert(t.subrange(k, k + p@.len() as int) =~= s@.subrange(
                        from + k,
                        from + k + p@.len(),
                    ));
                }
                assert(!has_match(t, p@));
                if first_match(t, p@) + p@.len() <= t.len() {
                    assert(has_match(t, p@));
                }
                assert(first_match(t, p@) + p@.len() > t.len());
                // no occurrence: first_match is in the tail beyond reach; show it equals t.len()
                lemma_first_match_no_match_is_len(t, p@);
            }
            return s.len();
        }
        // check whether p occurs at i
        let mut k: usize = 0;
        let mut matched = true;
        while k < p.len()
            invariant
                k <= p@.len(),
                i + p@.len() <= s@.len(),
                n == s@.len(),
                matched <==> (forall|j: int| 0 <= j < k ==> s@[i + j] == p@[j]),
            decreases p@.len() - k,
        {
            if s[i + k] != p[k] {
                matched = false;
                k = p.len();
            } else {
                k = k + 1;
            }
        }
        if matched {
            proof {
                assert(s@.subrange(i as int, i + p@.len()) =~= p@);
                let t = s@.skip(from as int);
                lemma_first_match(t, p@);
                let ii = i - from;
                assert(t.subrange(ii as int, ii + p@.len()) =~= s@.subrange(i as int, i + p@.len()));
                assert forall|j: int| 0 <= j < ii implies #[trigger] t.subrange(j, j + p@.len() as int) != p@
                    by {
                    if j + p@.len() <= t.len() {
                        assert(t.subrange(j, j + p@.len() as int) =~= s@.subrange(
                            from + j,
                            from + j + p@.len(),
                        ));
                    } else {
                        assert(t.subrange(j, j + p@.len() as int).len() != p@.len());
                    }
                }
                lemma_first_match_at(t, p@, ii as int);
            }
            return i;
        }
        proof {
            assert(s@.subrange(i as int, i + p@.len()) != p@);
        }
        i = i + 1;
    }
}

/// When `p` occurs at `i` and nowhere earlier, `first_match` returns `i`.
pub proof fn lemma_first_match_at(s: Seq<u8>, p: Seq<u8>, i: int)
    requires
        p.len() > 0,
        0 <= i,
        i + p.len() <= s.len(),
        s.subrange(i, i + p.len() as int) == p,
        forall|j: int| 0 <= j < i ==> #[trigger] s.subrange(j, j + p.len() as int) != p,
    ensures
        first_match(s, p) == i,
    decreases s.len(),
{
    if i == 0 {
        assert(s.take(p.len() as int) =~= s.subrange(0, p.len() as int));
        assert(starts_with(s, p));
    } else {
        assert(s.subrange(0, 0 + p.len() as int) != p);
        assert(s.take(p.len() as int) =~= s.subrange(0, 0 + p.len() as int));
        assert(!starts_with(s, p));
        let t = s.skip(1);
        assert(t.subrange(i - 1, i - 1 + p.len() as int) =~= s.subrange(i, i + p.len() as int));
        assert forall|j: int| 0 <= j < i - 1 implies #[trigger] t.subrange(j, j + p.len() as int) != p by {
            assert(t.subrange(j, j + p.len() as int) =~= s.subrange(j + 1, j + 1 + p.len() as int));
        }
        lemma_first_match_at(t, p, i - 1);
    }
}

/// When `p` occurs nowhere in `s`, `first_match` returns `s.len()`.
pub proof fn lemma_first_match_no_match_is_len(s: Seq<u8>, p: Seq<u8>)
    requires
        p.len() > 0,
        !has_match(s, p),
    ensures
        first_match(s, p) == s.len(),
    decreases s.len(),
{
    if s.len() < p.len() {
    } else {
        if starts_with(s, p) {
            assert(s.take(p.len() as int) =~= s.subrange(0, 0 + p.len() as int));
            assert(has_match(s, p));
        }
        let t = s.skip(1);
        assert forall|i: int| 0 <= i && i + p.len() <= t.len() implies #[trigger] t.subrange(
            i,
            i + p.len() as int,
        ) != p by {
            if t.subrange(i, i + p.len() as int) == p {
                assert(s.subrange(i + 1, i + 1 + p.len() as int) =~= t.subrange(
                    i,
                    i + p.len() as int,
                ));
                assert(has_match(s, p));
            }
        }
        lemma_first_match_no_match_is_len(t, p);
    }
}

/// Whether `needle` occurs as a contiguous run inside `hay`; the empty
/// needle occurs everywhere.
pub fn contains_subslice(hay: &[u8], needle: &[u8]) -> (r: bool)
    ensures
        r <==> (needle@.len() == 0 || has_match(hay@, needle@)),
{
    if needle.len() == 0 {
        return true;
    }
    let i = find_pat(hay, needle, 0);
    proof {
        assert(hay@.skip(0) =~= hay@);
        lemma_first_match(hay@, needle@);
        if i + needle@.len() <= hay@.len() {
            assert(has_match(hay@, needle@));
        }
    }
    needle.len() <= hay.len() - i
}

/// Copy of `s[a..b]`.
pub fn copy_range(s: &[u8], a: usize, b: usize) -> (r: Vec<u8>)
    requires
        a <= b <= s@.len(),
    ensures
        r@ == s@.subrange(a as int, b as int),
{
    let mut out: Vec<u8> = Vec::new();
    let mut i: usize = a;
    while i < b
        invariant
            a <= i <= b <= s@.len(),
            out@ == s@.subrange(a as int, i as int),
        decreases b - i,
    {
        out.push(s[i]);
        proof {
            assert(s@.subrange(a as int, i + 1) =~= s@.subrange(a as int, i as int).push(
                s@[i as int],
            ));
        }
        i = i + 1;
    }
    out
}

/// `s` split on every occurrence of the separator `p`, the separators
/// themselves dropped. A sequence without `p` is a single part; each
/// further occurrence adds one part, so `n` separators give `n + 1` parts.
pub open spec fn split_at(s: Seq<u8>, p: Seq<u8>) -> Seq<Seq<u8>>
    decreases s.len(),
{
    if p.len() == 0 {
        seq![s]
    } else {
        let i = first_match(s, p) as int;
        if i + p.len() <= s.len() {
            seq![s.take(i)] + split_at(s.skip(i + p.len() as int), p)
        } else {
            seq![s]
        }
    }
}

/// The views of the parts that `split_pat` returns.
pub open spec fn views(parts: Seq<Vec<u8>>) -> Seq<Seq<u8>> {
    parts.map_values(|v: Vec<u8>| v@)
}

/// Split `s` on every occurrence of `p`.
pub fn split_pat(s: &[u8], p: &[u8]) -> (r: Vec<Vec<u8>>)
    requires
        p@.len() > 0,
    ensures
        views(r@) == split_at(s@, p@),
{
    let mut parts: Vec<Vec<u8>> = Vec::new();
    let mut pos: usize = 0;
    proof {
        assert(s@.skip(0) =~= s@);
        assert(views(parts@) + split_at(s@, p@) =~= split_at(s@, p@));
    }
    loop
        invariant
            pos <= s@.len(),
            p@.len() > 0,
            split_at(s@, p@) == views(parts@) + split_at(s@.skip(pos as int), p@),
        decreases s@.len() - pos,
    {
        let j = find_pat(s, p, pos);
        proof {
            lemma_first_match(s@.skip(pos as int), p@);
        }
        if p.len() <= s.len() && j <= s.len() - p.len() {
            let part = copy_range(s, pos, j);
            proof {
                let t = s@.skip(pos as int);
                let i = first_match(t, p@) as int;
                assert(t.take(i) =~= s@.subrange(pos as int, j as int));
                assert(t.skip(i + p@.len() as int) =~= s@.skip(j + p@.len()));
                assert(views(parts@.push(part)) =~= views(parts@).push(part@));
                assert(views(parts@) + split_at(t, p@) =~= (views(parts@) + seq![part@])
                    + split_at(s@.skip(j + p@.len()), p@));
                assert(views(parts@.push(part)) =~= views(parts@) + seq![part@]);
            }
            parts.push(part);
            pos = j + p.len();
        } else {
            let part = copy_range(s, pos, s.len());
            proof {
                let t = s@.skip(pos as int);
                assert(t.take(t.len() as int) =~= t);
                assert(t =~= s@.subrange(pos as int, s@.len() as int));
                assert(split_at(t, p@) =~= seq![t]);
                assert(views(parts@.push(part)) =~= views(parts@) + seq![part@]);
            }
            parts.push(part);
            return parts;
        }
    }
}

/// The parts joined with the separator `p` between each two.
pub open spec fn join_with(parts: Seq<Seq<u8>>, p: Seq<u8>) -> Seq<u8>
    decreases parts.len(),
{
    if parts.len() == 0 {
        Seq::empty()
    } else if parts.len() == 1 {
        parts[0]
    } else {
        join_with(parts.drop_last(), p) + p + parts.last()
    }
}

/// Join parts with the separator `p`.
pub fn join_pat(parts: &Vec<Vec<u8>>, p: &[u8]) -> (r: Vec<u8>)
    ensures
        r@ == join_with(views(parts@), p@),
{
    let mut out: Vec<u8> = Vec::new();
    let mut i: usize = 0;
    while i < parts.len()
        invariant
            i <= parts@.len(),
            out@ == join_with(views(parts@).take(i as int), p@),
        decreases parts@.len() - i,
    {
        if i > 0 {
            let mut k: usize = 0;
            while k < p.len()
                invariant
                    k <= p@.len(),
                    i >= 1,
                    out@ == join_with(views(parts@).take(i as int), p@) + p@.take(k as int),
                decreases p@.len() - k,
            {
                out.push(p[k]);
                proof {
                    assert(p@.take(k + 1) =~= p@.take(k as int).push(p@[k as int]));
                    assert((join_with(views(parts@).take(i as int), p@) + p@.take(k as int)).push(
                        p@[k as int],
                    ) =~= join_with(views(parts@).take(i as int), p@) + p@.take(k + 1));
                }
                k = k + 1;
            }
            proof {
                assert(p@.take(p@.len() as int) =~= p@);
            }
        }
        let mut k: usize = 0;
        let ghost base = out@;
        while k < parts[i].len()
            invariant
                k <= parts@[i as int]@.len(),
                i < parts@.len(),
                out@ == base + parts@[i as int]@.take(k as int),
            decreases parts@[i as int]@.len() - k,
        {
            let b = parts[i][k];
            out.push(b);
            proof {
                assert(parts@[i as int]@.take(k + 1) =~= parts@[i as int]@.take(k as int).push(
                    parts@[i as int]@[k as int],
                ));
                assert((base + parts@[i as int]@.take(k as int)).push(parts@[i as int]@[k as int])
                    =~= base + parts@[i as int]@.take(k + 1));
            }
            k = k + 1;
        }
        proof {
            let vs = views(parts@);
            assert(parts@[i as int]@.take(parts@[i as int]@.len() as int) =~= parts@[i as int]@);
            assert(vs.take(i + 1).drop_last() =~= vs.take(i as int));
            assert(vs.take(i + 1).last() == vs[i as int]);
            if i == 0 {
                assert(join_with(vs.take(1), p@) == vs.take(1)[0]);
                assert(vs.take(1)[0] == parts@[0]@);
            }
        }
        i = i + 1;
    }
    proof {
        assert(views(parts@).take(parts@.len() as int) =~= views(parts@));
    }
    out
}

/// Leading whitespace removed; `fold` widens whitespace to line folds.
pub open spec fn strip_ws_start(s: Seq<u8>, fold: bool) -> Seq<u8>
    decreases s.len(),
{
    if s.len() > 0 && (if fold {
        is_fws(s[0])
    } else {
        is_wsp(s[0])
    }) {
        strip_ws_start(s.skip(1), fold)
    } else {
        s
    }
}

/// Trailing whitespace removed; `fold` widens whitespace to line folds.
pub open spec fn strip_ws_end(s: Seq<u8>, fold: bool) -> Seq<u8>
    decreases s.len(),
{
    if s.len() > 0 && (if fold {
        is_fws(s.last())
    } else {
        is_wsp(s.last())
    }) {
        strip_ws_end(s.drop_last(), fold)
    } else {
        s
    }
}

/// Whitespace removed from both ends.
pub open spec fn trimmed(s: Seq<u8>, fold: bool) -> Seq<u8> {
    strip_ws_end(strip_ws_start(s, fold), fold)
}

fn is_ws_byte(b: u8, fold: bool) -> (r: bool)
    ensures
        r == if fold {
            is_fws(b)
        } else {
            is_wsp(b)
        },
{
    b == 32 || b == 9 || (fold && (b == 13 || b == 10))
}

/// Copy of `s` with whitespace removed from both ends.
pub fn trim_ws(s: &[u8], fold: bool) -> (r: Vec<u8>)
    ensures
        r@ == trimmed(s@, fold),
{
    let mut a: usize = 0;
    proof {
        assert(s@.skip(0) =~= s@);
    }
    while a < s.len() && is_ws_byte(s[a], fold)
        invariant
            a <= s@.len(),
            strip_ws_start(s@, fold) == strip_ws_start(s@.skip(a as int), fold),
        decreases s@.len() - a,
    {
        proof {
            assert(s@.skip(a as int).skip(1) =~= s@.skip(a + 1));
        }
        a = a + 1;
    }
    let mut b: usize = s.len();
    while b > a && is_ws_byte(s[b - 1], fold)
        invariant
            a <= b <= s@.len(),
            strip_ws_start(s@, fold) == strip_ws_start(s@.skip(a as int), fold),
            a < s@.len() ==> !(if fold {
                is_fws(s@[a as int])
            } else {
                is_wsp(s@[a as int])
            }),
            strip_ws_end(s@.skip(a as int), fold) == strip_ws_end(
                s@.subrange(a as int, b as int),
                fold,
            ),
        decreases b,
    {
        proof {
            let t = s@.subrange(a as int, b as int);
            assert(t.last() == s@[b - 1]);
            assert(t.drop_last() =~= s@.subrange(a as int, b - 1));
        }
        b = b - 1;
    }
    proof {
        let t = s@.subrange(a as int, b as int);
        if a == b {
            assert(t.len() == 0);
            assert(strip_ws_end(t, fold) == t);
        } else {
            assert(t.last() == s@[b - 1]);
            assert(strip_ws_end(t, fold) == t);
        }
        if a < s@.len() {
            assert(strip_ws_start(s@.skip(a as int), fold) == s@.skip(a as int));
        } else {
            assert(s@.skip(a as int).len() == 0);
            assert(strip_ws_start(s@.skip(a as int), fold) == s@.skip(a as int));
        }
        assert(trimmed(s@, fold) == strip_ws_end(s@.skip(a as int), fold));
    }
    copy_range(s, a, b)
}

/// All folding whitespace removed, wherever it stands.
pub open spec fn strip_all_fws(s: Seq<u8>) -> Seq<u8>
    decreases s.len(),
{
    if s.len() == 0 {
        Seq::empty()
    } else if is_fws(s.last()) {
        strip_all_fws(s.drop_last())
    } else {
        strip_all_fws(s.drop_last()).push(s.last())
    }
}

/// Copy of `s` with every whitespace byte removed.
pub fn remove_fws(s: &[u8]) -> (r: Vec<u8>)
    ensures
        r@ == strip_all_fws(s@),
{
    let mut out: Vec<u8> = Vec::new();
    let mut i: usize = 0;
    while i < s.len()
        invariant
            i <= s@.len(),
            out@ == strip_all_fws(s@.take(i as int)),
        decreases s@.len() - i,
    {
        proof {
            assert(s@.take(i + 1).drop_last() =~= s@.take(i as int));
            assert(s@.take(i + 1).last() == s@[i as int]);
        }
        if !is_ws_byte(s[i], true) {
            out.push(s[i]);
        }
        i = i + 1;
    }
    proof {
        assert(s@.take(s@.len() as int) =~= s@);
    }
    out
}



/// Append all of `s` to `out`.
pub fn append_bytes(out: &mut Vec<u8>, s: &[u8])
    ensures
        final(out)@ == old(out)@ + s@,
{
    let mut k: usize = 0;
    proof {
        assert(out@ =~= old(out)@ + s@.take(0));
    }
    while k < s.len()
        invariant
            k <= s@.len(),
            out@ == old(out)@ + s@.take(k as int),
        decreases s@.len() - k,
    {
        out.push(s[k]);
        proof {
            assert(s@.take(k + 1) =~= s@.take(k as int).push(s@[k as int]));
            assert((old(out)@ + s@.take(k as int)).push(s@[k as int]) =~= old(out)@ + s@.take(
                k + 1,
            ));
        }
        k = k + 1;
    }
    proof {
        assert(s@.take(s@.len() as int) =~= s@);
    }
}


/// A single trailing carriage return removed, as line splitting on line
/// feeds leaves one behind for CRLF-terminated text.
pub open spec fn strip_cr_end(l: Seq<u8>) -> Seq<u8> {
    if l.len() > 0 && l.last() == 13 {
        l.drop_last()
    } else {
        l
    }
}

/// The lines of a text: split at every line feed, a carriage return
/// before the line feed dropped, and no empty line after a final
/// terminator.
pub open spec fn text_lines(s: Seq<u8>) -> Seq<Seq<u8>> {
    let base = if s.len() == 0 {
        Seq::<Seq<u8>>::empty()
    } else if s.last() == 10 {
        split_at(s.take(s.len() - 1), seq![10u8])
    } else {
        split_at(s, seq![10u8])
    };
    base.map_values(|l: Seq<u8>| strip_cr_end(l))
}

/// Split a text into its lines.
pub fn split_text_lines(s: &[u8]) -> (r: Vec<Vec<u8>>)
    ensures
        views(r@) == text_lines(s@),
{
    if s.len() == 0 {
        let out: Vec<Vec<u8>> = Vec::new();
        proof {
            assert(views(out@) =~= text_lines(s@));
        }
        return out;
    }
    let lf: [u8; 1] = [10];
    proof {
        assert(lf@ =~= seq![10u8]);
    }
    let raw = if s[s.len() - 1] == 10 {
        let head = copy_range(s, 0, s.len() - 1);
        proof {
            assert(head@ =~= s@.take(s@.len() - 1));
        }
        split_pat(head.as_slice(), lf.as_slice())
    } else {
        split_pat(s, lf.as_slice())
    };
    let ghost base = views(raw@);
    let mut out: Vec<Vec<u8>> = Vec::new();
    let mut i: usize = 0;
    let ghost mapped = base.map_values(|l: Seq<u8>| strip_cr_end(l));
    while i < raw.len()
        invariant
            i <= raw@.len(),
            base == views(raw@),
            mapped == base.map_values(|l: Seq<u8>| strip_cr_end(l)),
            views(out@) == mapped.take(i as int),
        decreases raw@.len() - i,
    {
        proof {
            assert(mapped.take(i + 1) =~= mapped.take(i as int).push(mapped[i as int]));
        }
        let l = &raw[i];
        let end = if l.len() > 0 && l[l.len() - 1] == 13 {
            l.len() - 1
        } else {
            l.len()
        };
        let line = copy_range(l.as_slice(), 0, end);
        proof {
            assert(line@ =~= strip_cr_end(base[i as int]));
        }
        out.push(line);
        proof {
            assert(views(out@) =~= mapped.take(i as int).push(mapped[i as int]));
        }
        i = i + 1;
    }
    proof {
        assert(mapped.take(mapped.len() as int) =~= mapped);
        assert(views(out@) =~= text_lines(s@));
    }
    out
}

} // verus!

