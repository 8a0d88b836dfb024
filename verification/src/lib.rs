//! Lossless byte-stream compression with static Huffman coding.
//!
//! The library counts byte frequencies, builds an optimal prefix-code tree,
//! serializes the tree into a self-delimiting bit grammar, and packs the
//! per-byte codes into a byte stream that the decoder inverts exactly.

use vstd::prelude::*;

pub mod bits;
pub mod codes;
pub mod compress;
pub mod histogram;
pub mod node;
pub mod queue;

verus! {

/// A codec-level failure. I/O failures belong to the surrounding program,
/// not to the codec.
#[derive(Clone, Copy, Debug, PartialEq, Eq, Structural)]
pub enum HufError {
    /// Nothing to encode: every byte count is zero.
    EmptyInput,
    /// The stream is too short to hold the fixed-width length header.
    CorruptHeader,
    /// The serialized tree ends before a well-formed tree is parsed.
    TruncatedTree,
    /// The packed code bits end before the declared length is decoded.
    CorruptStream,
}

impl HufError {
    /// A human-readable description, for callers that print failures.
    pub fn message(&self) -> (r: &'static str)
        ensures
            r@ == self.spec_message(),
    {
        match self {
            HufError::EmptyInput => "Unable to convert heap to tree",
            HufError::CorruptHeader => "Corrupt header",
            HufError::TruncatedTree => "Truncated tree",
            HufError::CorruptStream => "Corrupt stream",
        }
    }

    pub open spec fn spec_message(self) -> Seq<char> {
        match self {
            HufError::EmptyInput => "Unable to convert heap to tree"@,
            HufError::CorruptHeader => "Corrupt header"@,
            HufError::TruncatedTree => "Truncated tree"@,
            HufError::CorruptStream => "Corrupt stream"@,
        }
    }
}

} // verus!
