//! Verified ingestion core for Drift v2 on-chain instructions.
//!
//! The crate decodes the fixed-layout binary instruction payloads of the
//! Drift v2 program, resolves a transaction's account references (including
//! indirect lookup-table references), flattens upstream transaction records
//! into one canonical tree-shaped record, and searches that tree for
//! instructions of a target program.

use vstd::prelude::*;

pub mod wire;
pub mod fields;
pub mod orders;
pub mod payloads;
pub mod instructions;
pub mod models;
pub mod locator;
pub mod resolver;
pub mod flatten;
pub mod settings;
pub mod base58;

verus! {

/// Failure of the instruction decoder.
#[derive(Clone, Copy, Debug, PartialEq, Eq, Structural)]
pub enum DecodeError {
    /// The tag is known but the buffer is shorter than a tag, or the payload
    /// is malformed, truncated, or not fully consumed.
    InvalidEncoding,
    /// The 8-byte tag is absent from the instruction catalog.
    UnknownInstruction,
}

} // verus!
