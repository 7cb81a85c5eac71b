//! Published key records: the DNS lookup outcome as a plain value, the
//! query name a signature asks for, and the parsed TXT key record.

use vstd::prelude::*;

use crate::bytes::{strip_all_fws, bytes_eq, append_bytes, remove_fws, views};
use crate::sig::{tags_of, find_tag, parse_tags, find_tag_exec};

verus! {

/// What a DNS TXT lookup came back with, handed in as a plain value.
pub enum DnsOutcome {
    /// The TXT strings found at the queried name, in answer order.
    Records(Vec<Vec<u8>>),
    /// The lookup timed out or the resolver was unreachable.
    Timeout,
    /// The name does not exist.
    NxDomain,
    /// The server answered with a failure.
    ServFail,
}

/// Mathematical model of a lookup outcome.
pub ghost enum DnsModel {
    Records(Seq<Seq<u8>>),
    Timeout,
    NxDomain,
    ServFail,
}

impl View for DnsOutcome {
    type V = DnsModel;

    open spec fn view(&self) -> DnsModel {
        match self {
            DnsOutcome::Records(rs) => DnsModel::Records(rs@.map_values(|r: Vec<u8>| r@)),
            DnsOutcome::Timeout => DnsModel::Timeout,
            DnsOutcome::NxDomain => DnsModel::NxDomain,
            DnsOutcome::ServFail => DnsModel::ServFail,
        }
    }
}

/// Why no usable key came out of a lookup.
#[derive(Clone, Copy, PartialEq, Eq, Structural, Debug)]
pub enum KeyError {
    /// The name exists but holds no key record, or does not exist.
    NoKey,
    /// The key record breaks the tag=value rules of key records.
    Malformed,
    /// The lookup failed in a way that may pass: worth retrying.
    Transient,
}

/// The key family a key record declares.
#[derive(Clone, Copy, PartialEq, Eq, Structural, Debug)]
pub enum KeyAlgorithm {
    Rsa,
    Ed25519,
}

/// Mathematical model of a parsed key record.
pub ghost struct KeyModel {
    pub key_algorithm: KeyAlgorithm,
    pub key_data_b64: Seq<u8>,
    pub revoked: bool,
    pub service_flags: Option<Seq<u8>>,
}

/// A parsed DNS TXT key record.
pub struct PublicKeyRecord {
    /// The key family of the `k=` tag; RSA when the tag is absent.
    pub key_algorithm: KeyAlgorithm,
    /// The published key of the `p=` tag, base64 text without folds.
    pub key_data_b64: Vec<u8>,
    /// Whether the `p=` tag is present but empty: an explicit revocation.
    pub revoked: bool,
    /// The service flags of the `s=` tag, when one is present.
    pub service_flags: Option<Vec<u8>>,
}

impl View for PublicKeyRecord {
    type V = KeyModel;

    open spec fn view(&self) -> KeyModel {
        KeyModel {
            key_algorithm: self.key_algorithm,
            key_data_b64: self.key_data_b64@,
            revoked: self.revoked,
            service_flags: match self.service_flags {
                Option::Some(v) => Option::Some(v@),
                Option::None => Option::None,
            },
        }
    }
}

/// The TXT strings of all records written out one after the other, as the
/// protocol reads multi-string answers.
pub open spec fn concat_txt(rs: Seq<Seq<u8>>) -> Seq<u8>
    decreases rs.len(),
{
    if rs.len() == 0 {
        Seq::empty()
    } else {
        concat_txt(rs.drop_last()) + rs.last()
    }
}

/// What parsing a concatenated TXT key record yields: a `v=` tag other
/// than `DKIM1` or a `k=` tag naming no known family or a missing `p=` tag
/// is malformed; a present but empty `p=` tag marks the key revoked.
pub open spec fn parse_key(txt: Seq<u8>) -> Result<KeyModel, KeyError> {
    let ts = tags_of(txt);
    let vok = match find_tag(ts, seq![118u8]) {
        Option::None => true,
        Option::Some(v) => v == seq![68u8, 75u8, 73u8, 77u8, 49u8],
    };
    if !vok {
        Result::Err(KeyError::Malformed)
    } else {
        let ka = match find_tag(ts, seq![107u8]) {
            Option::None => Option::Some(KeyAlgorithm::Rsa),
            Option::Some(k) => if k == seq![114u8, 115u8, 97u8] {
                Option::Some(KeyAlgorithm::Rsa)
            } else if k == seq![101u8, 100u8, 50u8, 53u8, 53u8, 49u8, 57u8] {
                Option::Some(KeyAlgorithm::Ed25519)
            } else {
                Option::None
            },
        };
        match ka {
            Option::None => Result::Err(KeyError::Malformed),
            Option::Some(alg) => match find_tag(ts, seq![112u8]) {
                Option::None => Result::Err(KeyError::Malformed),
                Option::Some(p) => {
                    let data = strip_all_fws(p);
                    Result::Ok(
                        KeyModel {
                            key_algorithm: alg,
                            key_data_b64: data,
                            revoked: data.len() == 0,
                            service_flags: find_tag(ts, seq![115u8]),
                        },
                    )
                },
            },
        }
    }
}

/// What resolving a lookup outcome yields: a timeout or a server failure
/// is transient; a missing name or an empty answer means no key; anything
/// else is read as a key record.
pub open spec fn resolve_outcome(o: DnsModel) -> Result<KeyModel, KeyError> {
    match o {
        DnsModel::Timeout => Result::Err(KeyError::Transient),
        DnsModel::ServFail => Result::Err(KeyError::Transient),
        DnsModel::NxDomain => Result::Err(KeyError::NoKey),
        DnsModel::Records(rs) => if rs.len() == 0 {
            Result::Err(KeyError::NoKey)
        } else {
            parse_key(concat_txt(rs))
        },
    }
}

/// Parse the concatenated TXT strings of a key lookup.
pub fn parse_key_record(txt: &[u8]) -> (r: Result<PublicKeyRecord, KeyError>)
    ensures
        match r {
            Result::Ok(rec) => parse_key(txt@) == Result::<KeyModel, KeyError>::Ok(rec@),
            Result::Err(e) => parse_key(txt@) == Result::<KeyModel, KeyError>::Err(e),
        },
{
    let ts = parse_tags(txt);
    let n_v: [u8; 1] = [118];
    let n_k: [u8; 1] = [107];
    let n_p: [u8; 1] = [112];
    let n_s: [u8; 1] = [115];
    let dkim1: [u8; 5] = [68, 75, 73, 77, 49];
    let rsa: [u8; 3] = [114, 115, 97];
    let ed: [u8; 7] = [101, 100, 50, 53, 53, 49, 57];
    proof {
        assert(n_v@ =~= seq![118u8]);
        assert(n_k@ =~= seq![107u8]);
        assert(n_p@ =~= seq![112u8]);
        assert(n_s@ =~= seq![115u8]);
        assert(dkim1@ =~= seq![68u8, 75u8, 73u8, 77u8, 49u8]);
        assert(rsa@ =~= seq![114u8, 115u8, 97u8]);
        assert(ed@ =~= seq![101u8, 100u8, 50u8, 53u8, 53u8, 49u8, 57u8]);
    }
    if let Option::Some(v) = find_tag_exec(&ts, n_v.as_slice()) {
        if !bytes_eq(v.as_slice(), dkim1.as_slice()) {
            return Result::Err(KeyError::Malformed);
        }
    }
    let alg = match find_tag_exec(&ts, n_k.as_slice()) {
        Option::None => KeyAlgorithm::Rsa,
        Option::Some(k) => {
            if bytes_eq(k.as_slice(), rsa.as_slice()) {
                KeyAlgorithm::Rsa
            } else if bytes_eq(k.as_slice(), ed.as_slice()) {
                KeyAlgorithm::Ed25519
            } else {
                return Result::Err(KeyError::Malformed);
            }
        },
    };
    let p = match find_tag_exec(&ts, n_p.as_slice()) {
        Option::None => {
            return Result::Err(KeyError::Malformed);
        },
        Option::Some(p) => p,
    };
    let data = remove_fws(p.as_slice());
    let revoked = data.len() == 0;
    let flags = match find_tag_exec(&ts, n_s.as_slice()) {
        Option::None => Option::None,
        Option::Some(f) => Option::Some(f),
    };
    let rec = PublicKeyRecord {
        key_algorithm: alg,
        key_data_b64: data,
        revoked,
        service_flags: flags,
    };
    Result::Ok(rec)
}

/// Resolve a lookup outcome into a key record or the error it classifies
/// to.
pub fn resolve_key(o: &DnsOutcome) -> (r: Result<PublicKeyRecord, KeyError>)
    ensures
        match r {
            Result::Ok(rec) => resolve_outcome(o@) == Result::<KeyModel, KeyError>::Ok(rec@),
            Result::Err(e) => resolve_outcome(o@) == Result::<KeyModel, KeyError>::Err(e),
        },
{
    match o {
        DnsOutcome::Timeout => Result::Err(KeyError::Transient),
        DnsOutcome::ServFail => Result::Err(KeyError::Transient),
        DnsOutcome::NxDomain => Result::Err(KeyError::NoKey),
        DnsOutcome::Records(rs) => {
            if rs.len() == 0 {
                proof {
                    assert(rs@.map_values(|r: Vec<u8>| r@).len() == 0);
                }
                Result::Err(KeyError::NoKey)
            } else {
                let mut txt: Vec<u8> = Vec::new();
                let mut i: usize = 0;
                let ghost rsm = rs@.map_values(|r: Vec<u8>| r@);
                while i < rs.len()
                    invariant
                        i <= rs@.len(),
                        rsm == rs@.map_values(|r: Vec<u8>| r@),
                        txt@ == concat_txt(rsm.take(i as int)),
                    decreases rs@.len() - i,
                {
                    proof {
                        assert(rsm.take(i + 1).drop_last() =~= rsm.take(i as int));
                        assert(rsm.take(i + 1).last() == rsm[i as int]);
                    }
                    append_bytes(&mut txt, rs[i].as_slice());
                    i = i + 1;
                }
                proof {
                    assert(rsm.take(rsm.len() as int) =~= rsm);
                }
                parse_key_record(txt.as_slice())
            }
        },
    }
}

/// The label between selector and domain in a key query name.
pub open spec fn domainkey_infix() -> Seq<u8> {
    seq![
        46u8,
        95u8,
        100u8,
        111u8,
        109u8,
        97u8,
        105u8,
        110u8,
        107u8,
        101u8,
        121u8,
        46u8,
    ]
}

/// The DNS name where a signature's key is published.
pub open spec fn key_query_name(domain: Seq<u8>, selector: Seq<u8>) -> Seq<u8> {
    selector + domainkey_infix() + domain
}

/// Build the DNS name where a signature's key is published.
pub fn query_name(domain: &[u8], selector: &[u8]) -> (r: Vec<u8>)
    ensures
        r@ == key_query_name(domain@, selector@),
{
    let infix: [u8; 12] = [46, 95, 100, 111, 109, 97, 105, 110, 107, 101, 121, 46];
    proof {
        assert(infix@ =~= domainkey_infix());
    }
    let mut out: Vec<u8> = Vec::new();
    append_bytes(&mut out, selector);
    append_bytes(&mut out, infix.as_slice());
    append_bytes(&mut out, domain);
    out
}

} // verus!
