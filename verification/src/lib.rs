//! Verification of DKIM (DomainKeys Identified Mail) signatures.
//!
//! The crate canonicalizes message headers and body, parses
//! `DKIM-Signature` headers and published key records, and checks the
//! declared hashes and signatures, classifying each signature as the
//! protocol requires. DNS lookup results are handed in as plain values,
//! so the whole decision pipeline is pure.

pub mod bytes;
pub mod canon;
pub mod headers;
pub mod sig;
pub mod key;
pub mod crypto;
pub mod verify;
pub mod pipeline;
pub mod proofcheck;

pub use bytes::contains_subslice;
pub use proofcheck::{Proof, is_valid_hex, validate_proof};
