//! The compressed-script payload and its type-tagged length inference.
//!
//! A compressed script travels as a type code followed by a payload whose
//! length is inferred from the code rather than stored: hash-based types
//! take 20 bytes, compressed-key types 32, and any larger code `c` means a
//! raw script of `c - 6` bytes. This module owns only the length rule; the
//! interpretation of code and payload belongs to the script model.

use vstd::prelude::*;

verus! {

/// The decompressed payload length that the type code `c` implies.
pub open spec fn spec_script_payload_len(c: nat) -> nat {
    if c < 2 {
        20
    } else if c < 6 {
        32
    } else {
        (c - 6) as nat
    }
}

/// Maps a script type code to the byte length of the payload that follows
/// it on the wire.
pub fn script_payload_len(code: u64) -> (r: u64)
    ensures
        r == spec_script_payload_len(code as nat),
{
    if code < 2 {
        20
    } else if code < 6 {
        32
    } else {
        code - 6
    }
}

/// The compressed form of a spending target: the leading type code and the
/// payload bytes whose length the code implies.
#[derive(Clone, Debug, PartialEq, Eq)]
pub struct CompressedScript {
    /// The script type code, as read from the wire.
    pub script_code: u64,
    /// The payload bytes that follow the type code.
    pub payload: Vec<u8>,
}

impl CompressedScript {
    /// The payload length matches what the type code implies.
    pub open spec fn wf(self) -> bool {
        self.payload@.len() == spec_script_payload_len(self.script_code as nat)
    }

    /// Builds a compressed script, rejecting a payload whose length does
    /// not match the type code.
    pub fn new(script_code: u64, payload: Vec<u8>) -> (r: Option<CompressedScript>)
        ensures
            match r {
                Some(cs) => {
                    &&& cs.wf()
                    &&& cs.script_code == script_code
                    &&& cs.payload@ == payload@
                    &&& payload@.len() == spec_script_payload_len(script_code as nat)
                },
                None => payload@.len() != spec_script_payload_len(script_code as nat),
            },
    {
        let want = script_payload_len(script_code);
        if payload.len() as u64 == want {
            Some(CompressedScript { script_code, payload })
        } else {
            None
        }
    }
}

} // verus!
