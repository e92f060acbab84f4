//! Codec for blockchain undo records: the saved prior state of every
//! transaction output spent inside a block, which a node replays to roll its
//! unspent-output set back when a block is disconnected.
//!
//! The wire format is not self-describing: heights and coinbase flags share
//! one packed integer, amounts travel through a digit/exponent compression,
//! and the length of a script payload is inferred from its leading type code.
//! Every byte is consensus-critical, so each transform here carries a proved
//! round-trip contract.

use vstd::prelude::*;

pub mod amount;
pub mod script;
pub mod undo;
pub mod varint;

verus! {

/// Why a decode failed. No error is recovered locally: every failure aborts
/// the whole decode and surfaces to the caller unchanged.
#[derive(Clone, Copy, Debug, PartialEq, Eq, Structural)]
pub enum CodecError {
    /// The input ended before a required field or payload was fully read.
    Truncated,
    /// A standard compact integer was not minimally encoded.
    NonMinimal,
    /// A decoded value does not fit the 64-bit range of its field.
    Overflow,
}

} // verus!
