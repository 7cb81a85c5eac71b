//! Splitting a raw message into its header fields and its body.
//!
//! The header block ends at the first empty line; folded header lines are
//! joined to the field they continue; each field is divided at its first
//! colon into a name and a value, both kept byte-exact so that simple
//! canonicalization can reproduce the stored form.

use vstd::prelude::*;

use crate::bytes::{
    is_wsp, lower_seq, trimmed, first_match, find_pat, copy_range, trim_ws, lower_bytes, bytes_eq,
    append_bytes,
};
use crate::canon::{body_lines, split_body_lines, crlf};

verus! {

/// The empty line that separates header block and body.
pub open spec fn crlf_crlf() -> Seq<u8> {
    seq![13u8, 10u8, 13u8, 10u8]
}

/// The header block of a message: everything up to and including the CRLF
/// before the first empty line, or the whole message when there is none.
pub open spec fn header_part(m: Seq<u8>) -> Seq<u8> {
    let i = first_match(m, crlf_crlf()) as int;
    if i + 4 <= m.len() {
        m.take(i + 2)
    } else {
        m
    }
}

/// The body of a message: everything after the first empty line, or
/// nothing when there is none.
pub open spec fn body_part(m: Seq<u8>) -> Seq<u8> {
    let i = first_match(m, crlf_crlf()) as int;
    if i + 4 <= m.len() {
        m.skip(i + 4)
    } else {
        Seq::empty()
    }
}

/// Mathematical model of one header field.
pub ghost struct HeaderModel {
    pub name: Seq<u8>,
    pub value: Seq<u8>,
}

/// One header field: the bytes before the first colon, and the bytes after
/// it, folds included.
pub struct Header {
    pub name: Vec<u8>,
    pub value: Vec<u8>,
}

impl View for Header {
    type V = HeaderModel;

    open spec fn view(&self) -> HeaderModel {
        HeaderModel { name: self.name@, value: self.value@ }
    }
}

/// The views of a list of header fields.
pub open spec fn header_views(hs: Seq<Header>) -> Seq<HeaderModel> {
    hs.map_values(|h: Header| h@)
}

/// Folded continuation lines joined to the field they continue, the fold
/// kept as stored.
pub open spec fn unfold_lines(ls: Seq<Seq<u8>>) -> Seq<Seq<u8>>
    decreases ls.len(),
{
    if ls.len() == 0 {
        Seq::empty()
    } else {
        let prev = unfold_lines(ls.drop_last());
        let l = ls.last();
        if l.len() > 0 && is_wsp(l[0]) && prev.len() > 0 {
            prev.drop_last().push(prev.last() + crlf() + l)
        } else {
            prev.push(l)
        }
    }
}

/// A header line divided at its first colon; a line without one is no
/// header field.
pub open spec fn parse_header_line(l: Seq<u8>) -> Option<HeaderModel> {
    let i = first_match(l, seq![58u8]) as int;
    if i + 1 <= l.len() {
        Option::Some(HeaderModel { name: l.take(i), value: l.skip(i + 1) })
    } else {
        Option::None
    }
}

/// The header fields among a list of unfolded lines.
pub open spec fn headers_from_lines(ls: Seq<Seq<u8>>) -> Seq<HeaderModel>
    decreases ls.len(),
{
    if ls.len() == 0 {
        Seq::empty()
    } else {
        let prev = headers_from_lines(ls.drop_last());
        match parse_header_line(ls.last()) {
            Option::Some(h) => prev.push(h),
            Option::None => prev,
        }
    }
}

/// All header fields of a message, in stored order.
pub open spec fn headers_of(m: Seq<u8>) -> Seq<HeaderModel> {
    headers_from_lines(unfold_lines(body_lines(header_part(m))))
}

/// Split a message at its first empty line into header block and body.
pub fn split_message(m: &[u8]) -> (r: (Vec<u8>, Vec<u8>))
    ensures
        r.0@ == header_part(m@),
        r.1@ == body_part(m@),
{
    let sep: [u8; 4] = [13, 10, 13, 10];
    proof {
        assert(sep@ =~= crlf_crlf());
        assert(m@.skip(0) =~= m@);
    }
    let i = find_pat(m, sep.as_slice(), 0);
    if m.len() >= 4 && i <= m.len() - 4 {
        let h = copy_range(m, 0, i + 2);
        let b = copy_range(m, i + 4, m.len());
        proof {
            assert(h@ =~= header_part(m@));
            assert(b@ =~= body_part(m@));
        }
        (h, b)
    } else {
        let h = copy_range(m, 0, m.len());
        let b: Vec<u8> = Vec::new();
        proof {
            assert(h@ =~= header_part(m@));
            assert(b@ =~= body_part(m@));
        }
        (h, b)
    }
}

/// Parse the header fields of a message.
pub fn parse_headers(m: &[u8]) -> (r: Vec<Header>)
    ensures
        header_views(r@) == headers_of(m@),
{
    let (head, _body) = split_message(m);
    let lines = split_body_lines(head.as_slice());
    // join folded continuation lines
    let mut unfolded: Vec<Vec<u8>> = Vec::new();
    let mut i: usize = 0;
    while i < lines.len()
        invariant
            i <= lines@.len(),
            crate::bytes::views(lines@) == body_lines(header_part(m@)),
            crate::bytes::views(unfolded@) == unfold_lines(
                crate::bytes::views(lines@).take(i as int),
            ),
        decreases lines@.len() - i,
    {
        let ghost ls = crate::bytes::views(lines@);
        proof {
            assert(ls.take(i + 1).drop_last() =~= ls.take(i as int));
            assert(ls.take(i + 1).last() == ls[i as int]);
        }
        let l = &lines[i];
        if l.len() > 0 && (l[0] == 32 || l[0] == 9) && unfolded.len() > 0 {
            let mut last = unfolded.pop().unwrap();
            last.push(13);
            last.push(10);
            append_bytes(&mut last, l.as_slice());
            proof {
                let prev = unfold_lines(ls.take(i as int));
                assert(last@ =~= prev.last() + crlf() + ls[i as int]);
            }
            unfolded.push(last);
            proof {
                let prev = unfold_lines(ls.take(i as int));
                assert(crate::bytes::views(unfolded@) =~= prev.drop_last().push(
                    prev.last() + crlf() + ls[i as int],
                ));
            }
        } else {
            let own = copy_range(l.as_slice(), 0, l.len());
            proof {
                assert(own@ =~= l@);
            }
            unfolded.push(own);
            proof {
                let prev = unfold_lines(ls.take(i as int));
                assert(crate::bytes::views(unfolded@) =~= prev.push(ls[i as int]));
            }
        }
        i = i + 1;
    }
    proof {
        let ls = crate::bytes::views(lines@);
        assert(ls.take(ls.len() as int) =~= ls);
    }
    // divide each line at its first colon
    let colon: [u8; 1] = [58];
    proof {
        assert(colon@ =~= seq![58u8]);
    }
    let mut out: Vec<Header> = Vec::new();
    let mut j: usize = 0;
    while j < unfolded.len()
        invariant
            j <= unfolded@.len(),
            crate::bytes::views(unfolded@) == unfold_lines(body_lines(header_part(m@))),
            header_views(out@) == headers_from_lines(
                crate::bytes::views(unfolded@).take(j as int),
            ),
            colon@ == seq![58u8],
        decreases unfolded@.len() - j,
    {
        let ghost us = crate::bytes::views(unfolded@);
        proof {
            assert(us.take(j + 1).drop_last() =~= us.take(j as int));
            assert(us.take(j + 1).last() == us[j as int]);
            assert(unfolded@[j as int]@.skip(0) =~= unfolded@[j as int]@);
        }
        let l = &unfolded[j];
        let c = find_pat(l.as_slice(), colon.as_slice(), 0);
        if c < l.len() {
            let name = copy_range(l.as_slice(), 0, c);
            let value = copy_range(l.as_slice(), c + 1, l.len());
            let h = Header { name, value };
            proof {
                assert(h@.name =~= us[j as int].take(c as int));
                assert(h@.value =~= us[j as int].skip(c + 1));
                assert(parse_header_line(us[j as int]) == Option::Some(h@));
            }
            out.push(h);
            proof {
                assert(header_views(out@) =~= headers_from_lines(us.take(j as int)).push(
                    parse_header_line(us[j as int]).unwrap(),
                ));
            }
        } else {
            proof {
                assert(parse_header_line(us[j as int]) is None);
            }
        }
        j = j + 1;
    }
    proof {
        let us = crate::bytes::views(unfolded@);
        assert(us.take(us.len() as int) =~= us);
    }
    out
}

/// The lowered name of the signature header field.
pub open spec fn dkim_name() -> Seq<u8> {
    seq![100u8, 107u8, 105u8, 109u8, 45u8, 115u8, 105u8, 103u8, 110u8, 97u8, 116u8, 117u8, 114u8, 101u8]
}

/// Whether a header field is a `DKIM-Signature` field, whatever its case.
pub open spec fn is_dkim_header(h: HeaderModel) -> bool {
    lower_seq(trimmed(h.name, false)) == dkim_name()
}

/// The signature header fields of a list, in stored order.
pub open spec fn dkim_headers(hs: Seq<HeaderModel>) -> Seq<HeaderModel>
    decreases hs.len(),
{
    if hs.len() == 0 {
        Seq::empty()
    } else {
        let prev = dkim_headers(hs.drop_last());
        if is_dkim_header(hs.last()) {
            prev.push(hs.last())
        } else {
            prev
        }
    }
}

/// Whether this header field is a `DKIM-Signature` field.
pub fn header_is_dkim(h: &Header) -> (r: bool)
    ensures
        r == is_dkim_header(h@),
{
    let t = trim_ws(h.name.as_slice(), false);
    let low = lower_bytes(t.as_slice());
    let pat: [u8; 14] = [100, 107, 105, 109, 45, 115, 105, 103, 110, 97, 116, 117, 114, 101];
    proof {
        assert(pat@ =~= dkim_name());
    }
    bytes_eq(low.as_slice(), pat.as_slice())
}

/// Copies of the signature header fields of a message, in stored order.
pub fn find_dkim_headers(hs: &Vec<Header>) -> (r: Vec<Header>)
    ensures
        header_views(r@) == dkim_headers(header_views(hs@)),
{
    let mut out: Vec<Header> = Vec::new();
    let mut i: usize = 0;
    while i < hs.len()
        invariant
            i <= hs@.len(),
            header_views(out@) == dkim_headers(header_views(hs@).take(i as int)),
        decreases hs@.len() - i,
    {
        let ghost vs = header_views(hs@);
        proof {
            assert(vs.take(i + 1).drop_last() =~= vs.take(i as int));
            assert(vs.take(i + 1).last() == vs[i as int]);
        }
        if header_is_dkim(&hs[i]) {
            let name = copy_range(hs[i].name.as_slice(), 0, hs[i].name.len());
            let value = copy_range(hs[i].value.as_slice(), 0, hs[i].value.len());
            let h = Header { name, value };
            proof {
                assert(h@.name =~= hs@[i as int]@.name);
                assert(h@.value =~= hs@[i as int]@.value);
                assert(h@ == vs[i as int]);
            }
            out.push(h);
            proof {
                assert(header_views(out@) =~= dkim_headers(vs.take(i as int)).push(vs[i as int]));
            }
        }
        i = i + 1;
    }
    proof {
        let vs = header_views(hs@);
        assert(vs.take(vs.len() as int) =~= vs);
    }
    out
}

} // verus!
