//! Canonical DNSSEC signed-data reconstruction and signature checking.
//!
//! The library rebuilds, byte for byte, the data that a SIG/RRSIG record
//! signs over a record set (RFC 4034 §3.1.8.1 and §6), and checks an
//! ECDSA P-256/SHA-256 signature over it.

/// Structural errors.
pub mod error;
/// Domain name labels.
pub mod label;
/// The wire-format writer and its name-compression table.
pub mod encoder;
/// Domain names and their wire form.
pub mod name;
/// Domain names in text form.
pub mod name_text;
/// Classes, record types and algorithms.
pub mod types;
/// Record data and records.
pub mod rdata;
/// The signed data of a record set.
pub mod message;
/// Signature checking.
pub mod verify;

pub use verify::{verify_ecdsa_signature, verify_rrsig};
