//! The verification pipeline over a whole message: every signature header
//! runs through parser, key resolution and verifier; the results are
//! aggregated under the strict rule that every signature must pass.

use vstd::prelude::*;

use crate::bytes::{views, copy_range};
use crate::headers::{
    Header, HeaderModel, header_views, headers_of, dkim_headers, parse_headers, find_dkim_headers,
    body_part, split_message,
};
use crate::sig::{parse_sig, parse_signature};
use crate::key::{DnsModel, DnsOutcome, KeyError, resolve_outcome, resolve_key, key_query_name,
    query_name};
use crate::verify::{DkimStatus, PermCause, verdict, verify_signature};

verus! {

/// Mathematical model of one signature's outcome.
pub ghost struct ResultModel {
    pub status: DkimStatus,
    pub domain: Seq<u8>,
    pub selector: Seq<u8>,
}

/// The outcome for one signature, with the domain and selector it named.
pub struct VerificationResult {
    pub status: DkimStatus,
    pub domain: Vec<u8>,
    pub selector: Vec<u8>,
}

impl View for VerificationResult {
    type V = ResultModel;

    open spec fn view(&self) -> ResultModel {
        ResultModel { status: self.status, domain: self.domain@, selector: self.selector@ }
    }
}

pub open spec fn result_views(rs: Seq<VerificationResult>) -> Seq<ResultModel> {
    rs.map_values(|r: VerificationResult| r@)
}

/// The signature headers of a message, in stored order.
pub open spec fn message_sigs(m: Seq<u8>) -> Seq<HeaderModel> {
    dkim_headers(headers_of(m))
}

/// What one signature header comes to, given the lookup outcome supplied
/// for it: a parse error ends the pipeline at once, as does a key error;
/// a missing outcome counts as a lookup that could not finish.
pub open spec fn one_verdict(
    hs: Seq<HeaderModel>,
    body: Seq<u8>,
    sig_hdr: HeaderModel,
    dns: Option<DnsModel>,
    now: u64,
) -> ResultModel {
    match parse_sig(sig_hdr.value) {
        Result::Err(e) => ResultModel {
            status: DkimStatus::PermError(PermCause::Parse(e)),
            domain: Seq::empty(),
            selector: Seq::empty(),
        },
        Result::Ok(rec) => ResultModel {
            status: match dns {
                Option::None => DkimStatus::TempError,
                Option::Some(o) => match resolve_outcome(o) {
                    Result::Err(KeyError::Transient) => DkimStatus::TempError,
                    Result::Err(KeyError::NoKey) => DkimStatus::PermError(PermCause::NoKey),
                    Result::Err(KeyError::Malformed) => DkimStatus::PermError(
                        PermCause::KeyMalformed,
                    ),
                    Result::Ok(key) => verdict(hs, body, sig_hdr, rec, key, now),
                },
            },
            domain: rec.domain,
            selector: rec.selector,
        },
    }
}

/// The outcomes of all signature headers of a message, the `i`-th checked
/// against the `i`-th supplied lookup outcome.
pub open spec fn message_verdicts(m: Seq<u8>, dns: Seq<DnsModel>, now: u64) -> Seq<ResultModel> {
    Seq::new(
        message_sigs(m).len(),
        |i: int|
            one_verdict(
                headers_of(m),
                body_part(m),
                message_sigs(m)[i],
                if i < dns.len() {
                    Option::Some(dns[i])
                } else {
                    Option::None
                },
                now,
            ),
    )
}

pub open spec fn dns_views(dns: Seq<DnsOutcome>) -> Seq<DnsModel> {
    dns.map_values(|o: DnsOutcome| o@)
}

/// How many signature headers a message carries.
pub fn count_signatures(m: &[u8]) -> (r: usize)
    ensures
        r == message_sigs(m@).len(),
{
    let hs = parse_headers(m);
    let ds = find_dkim_headers(&hs);
    proof {
        assert(header_views(ds@).len() == ds@.len());
    }
    ds.len()
}

/// The DNS names to look up, one per signature header in stored order; a
/// header that does not parse asks for nothing and gets an empty name.
pub open spec fn query_of(sig_hdr: HeaderModel) -> Seq<u8> {
    match parse_sig(sig_hdr.value) {
        Result::Ok(rec) => key_query_name(rec.domain, rec.selector),
        Result::Err(_) => Seq::empty(),
    }
}

/// Build the DNS names to look up, one per signature header.
pub fn signature_queries(m: &[u8]) -> (r: Vec<Vec<u8>>)
    ensures
        views(r@).len() == message_sigs(m@).len(),
        forall|i: int|
            0 <= i < views(r@).len() ==> #[trigger] views(r@)[i] == query_of(message_sigs(m@)[i]),
{
    let hs = parse_headers(m);
    let ds = find_dkim_headers(&hs);
    let mut out: Vec<Vec<u8>> = Vec::new();
    let mut i: usize = 0;
    while i < ds.len()
        invariant
            i <= ds@.len(),
            header_views(ds@) == message_sigs(m@),
            views(out@).len() == i,
            forall|j: int|
                0 <= j < i ==> #[trigger] views(out@)[j] == query_of(message_sigs(m@)[j]),
        decreases ds@.len() - i,
    {
        let q = match parse_signature(ds[i].value.as_slice()) {
            Result::Ok(rec) => query_name(rec.domain.as_slice(), rec.selector.as_slice()),
            Result::Err(_) => Vec::new(),
        };
        proof {
            assert(header_views(ds@)[i as int] == ds@[i as int]@);
            assert(q@ == query_of(message_sigs(m@)[i as int]));
        }
        let ghost before = views(out@);
        out.push(q);
        proof {
            assert(views(out@) =~= before.push(q@));
            assert(views(out@)[i as int] == q@);
            assert(forall|j: int| 0 <= j < i ==> #[trigger] views(out@)[j] == before[j]);
        }
        i = i + 1;
    }
    out
}

/// Verify every signature header of a message. The `i`-th signature is
/// checked against `dns[i]`; a signature without a supplied outcome is
/// reported transient, as an aborted lookup is.
pub fn verify_message(m: &[u8], dns: &Vec<DnsOutcome>, now: u64) -> (r: Vec<VerificationResult>)
    ensures
        result_views(r@) == message_verdicts(m@, dns_views(dns@), now),
{
    let hs = parse_headers(m);
    let ds = find_dkim_headers(&hs);
    let (_head, body) = split_message(m);
    let mut out: Vec<VerificationResult> = Vec::new();
    let mut i: usize = 0;
    let ghost spec_out = message_verdicts(m@, dns_views(dns@), now);
    while i < ds.len()
        invariant
            i <= ds@.len(),
            header_views(hs@) == headers_of(m@),
            header_views(ds@) == message_sigs(m@),
            body@ == body_part(m@),
            spec_out == message_verdicts(m@, dns_views(dns@), now),
            spec_out.len() == ds@.len(),
            result_views(out@) == spec_out.take(i as int),
        decreases ds@.len() - i,
    {
        proof {
            assert(spec_out.take(i + 1) =~= spec_out.take(i as int).push(spec_out[i as int]));
            assert(header_views(ds@)[i as int] == ds@[i as int]@);
        }
        let sig_hdr = &ds[i];
        let res: VerificationResult = match parse_signature(sig_hdr.value.as_slice()) {
            Result::Err(e) => VerificationResult {
                status: DkimStatus::PermError(PermCause::Parse(e)),
                domain: Vec::new(),
                selector: Vec::new(),
            },
            Result::Ok(rec) => {
                let status: DkimStatus = if i < dns.len() {
                    proof {
                        assert(dns_views(dns@)[i as int] == dns@[i as int]@);
                    }
                    match resolve_key(&dns[i]) {
                        Result::Err(KeyError::Transient) => DkimStatus::TempError,
                        Result::Err(KeyError::NoKey) => DkimStatus::PermError(PermCause::NoKey),
                        Result::Err(KeyError::Malformed) => DkimStatus::PermError(
                            PermCause::KeyMalformed,
                        ),
                        Result::Ok(key) => verify_signature(&hs, body.as_slice(), sig_hdr, &rec, &key, now),
                    }
                } else {
                    DkimStatus::TempError
                };
                let domain = copy_range(rec.domain.as_slice(), 0, rec.domain.len());
                let selector = copy_range(rec.selector.as_slice(), 0, rec.selector.len());
                proof {
                    assert(domain@ =~= rec@.domain);
                    assert(selector@ =~= rec@.selector);
                }
                VerificationResult { status, domain, selector }
            },
        };
        proof {
            assert(res@ == spec_out[i as int]);
        }
        out.push(res);
        proof {
            assert(result_views(out@) =~= spec_out.take(i as int).push(res@));
        }
        i = i + 1;
    }
    proof {
        assert(spec_out.take(spec_out.len() as int) =~= spec_out);
    }
    out
}

/// Every listed outcome is a pass.
pub open spec fn all_pass(rs: Seq<ResultModel>) -> bool {
    forall|i: int| 0 <= i < rs.len() ==> (#[trigger] rs[i]).status == DkimStatus::Pass
}

/// The aggregate trust verdict, under the strict rule: a message is
/// trusted only when it carries at least one signature and every one of
/// them passes; any failure, error or neutral outcome withholds trust.
pub fn message_trusted(rs: &Vec<VerificationResult>) -> (r: bool)
    ensures
        r <==> (rs@.len() > 0 && all_pass(result_views(rs@))),
{
    if rs.len() == 0 {
        return false;
    }
    let mut i: usize = 0;
    while i < rs.len()
        invariant
            i <= rs@.len(),
            forall|j: int|
                0 <= j < i ==> (#[trigger] result_views(rs@)[j]).status == DkimStatus::Pass,
        decreases rs@.len() - i,
    {
        let passed = match rs[i].status {
            DkimStatus::Pass => true,
            _ => false,
        };
        if !passed {
            proof {
                assert(result_views(rs@)[i as int] == rs@[i as int]@);
                assert(!all_pass(result_views(rs@)));
            }
            return false;
        }
        proof {
            assert(result_views(rs@)[i as int] == rs@[i as int]@);
        }
        i = i + 1;
    }
    true
}

/// The overall standing of a message: no signature at all, a pass when
/// every signature passes, and otherwise the first outcome that is no
/// pass — never upgrading one error class into another.
pub open spec fn overall_of(rs: Seq<ResultModel>) -> DkimStatus
    decreases rs.len(),
{
    if rs.len() == 0 {
        DkimStatus::NoSignature
    } else if rs[0].status != DkimStatus::Pass {
        rs[0].status
    } else if rs.len() == 1 {
        DkimStatus::Pass
    } else {
        overall_of(rs.skip(1))
    }
}

/// The overall standing of a message's results.
pub fn overall_status(rs: &Vec<VerificationResult>) -> (r: DkimStatus)
    ensures
        r == overall_of(result_views(rs@)),
        rs@.len() == 0 ==> r == DkimStatus::NoSignature,
        (rs@.len() > 0 && all_pass(result_views(rs@))) ==> r == DkimStatus::Pass,
{
    let ghost vs = result_views(rs@);
    let mut i: usize = 0;
    proof {
        assert(vs.skip(0) =~= vs);
    }
    while i < rs.len()
        invariant
            i <= rs@.len(),
            rs@.len() == 0 || i < rs@.len(),
            vs == result_views(rs@),
            overall_of(vs) == overall_of(vs.skip(i as int)),
            forall|j: int| 0 <= j < i ==> (#[trigger] vs[j]).status == DkimStatus::Pass,
        decreases rs@.len() - i,
    {
        proof {
            assert(vs.skip(i as int)[0] == vs[i as int]);
            assert(vs[i as int] == rs@[i as int]@);
            assert(vs.skip(i as int).skip(1) =~= vs.skip(i + 1));
        }
        let passed = match rs[i].status {
            DkimStatus::Pass => true,
            _ => false,
        };
        if !passed {
            return rs[i].status;
        }
        if i + 1 == rs.len() {
            return DkimStatus::Pass;
        }
        i = i + 1;
    }
    proof {
        assert(vs.skip(vs.len() as int) =~= Seq::<ResultModel>::empty());
    }
    DkimStatus::NoSignature
}

/// A message without signature headers always stands at `NoSignature`:
/// the empty scan ends the pipeline with no per-signature work.
pub proof fn lemma_no_signatures_overall(m: Seq<u8>, dns: Seq<DnsModel>, now: u64)
    requires
        message_sigs(m).len() == 0,
    ensures
        message_verdicts(m, dns, now).len() == 0,
        overall_of(message_verdicts(m, dns, now)) == DkimStatus::NoSignature,
{
}

/// The verdict list is as long as the signature header list, and each
/// entry answers for its own signature: nothing is swallowed, nothing is
/// reclassified on the way out.
pub proof fn lemma_verdicts_pointwise(m: Seq<u8>, dns: Seq<DnsModel>, now: u64)
    ensures
        message_verdicts(m, dns, now).len() == message_sigs(m).len(),
        forall|i: int|
            0 <= i < message_sigs(m).len() ==> #[trigger] message_verdicts(m, dns, now)[i]
                == one_verdict(
                headers_of(m),
                body_part(m),
                message_sigs(m)[i],
                if i < dns.len() {
                    Option::Some(dns[i])
                } else {
                    Option::None
                },
                now,
            ),
{
}


/// Some listed outcome is a pass.
pub open spec fn some_pass(rs: Seq<ResultModel>) -> bool {
    exists|i: int| 0 <= i < rs.len() && (#[trigger] rs[i]).status == DkimStatus::Pass
}

/// The aggregate trust policy. The strict rule is the conservative one:
/// deployments vary, so the choice stays with the caller.
#[derive(Clone, Copy, PartialEq, Eq, Structural, Debug)]
pub enum TrustPolicy {
    /// Every discovered signature must pass.
    AllMustPass,
    /// One passing signature is enough.
    AnyPass,
}

/// The aggregate trust verdict under a chosen policy; a message without
/// signatures is trusted under neither.
pub fn trusted_under(policy: TrustPolicy, rs: &Vec<VerificationResult>) -> (r: bool)
    ensures
        policy == TrustPolicy::AllMustPass ==> (r <==> (rs@.len() > 0 && all_pass(
            result_views(rs@),
        ))),
        policy == TrustPolicy::AnyPass ==> (r <==> some_pass(result_views(rs@))),
{
    match policy {
        TrustPolicy::AllMustPass => message_trusted(rs),
        TrustPolicy::AnyPass => {
            let mut i: usize = 0;
            while i < rs.len()
                invariant
                    i <= rs@.len(),
                    policy == TrustPolicy::AnyPass,
                    forall|j: int|
                        0 <= j < i ==> (#[trigger] result_views(rs@)[j]).status
                            != DkimStatus::Pass,
                decreases rs@.len() - i,
            {
                let passed = match rs[i].status {
                    DkimStatus::Pass => true,
                    _ => false,
                };
                proof {
                    assert(result_views(rs@)[i as int] == rs@[i as int]@);
                }
                if passed {
                    return true;
                }
                i = i + 1;
            }
            false
        },
    }
}

/// Whether a signature leans on the declared body length limit: an
/// intentional legacy escape hatch that lets unsigned content trail the
/// hashed body, so a caller may want to reject such signatures outright.
pub fn uses_length_limit(rec: &crate::sig::SignatureRecord) -> (r: bool)
    ensures
        r == (rec@.body_limit is Some),
{
    match rec.body_limit {
        Option::Some(_) => true,
        Option::None => false,
    }
}

} // verus!
