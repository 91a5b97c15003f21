//! The ways in which coding and decoding fail.

use vstd::prelude::*;

verus! {

/// What is wrong with the part of a container that precedes the coded data.
#[derive(Clone, Copy, Debug, PartialEq, Eq, Structural)]
pub enum HeaderFault {
    /// Fewer than the five bytes of padding counts and tree length.
    Truncated,
    /// A padding count above seven.
    InvalidPadding,
    /// The tree is declared longer than the bytes that follow.
    TruncatedTree,
}

/// Why coding or decoding failed.
#[derive(Clone, Copy, Debug, PartialEq, Eq, Structural)]
pub enum CodecError {
    /// The container's header cannot be read.
    MalformedHeader(HeaderFault),
    /// The bits of the tree end early, go on after the root is complete, or
    /// hold a leaf payload that is no code point.
    MalformedTree,
    /// A symbol of the text has no code in the tree.
    UnknownSymbol(char),
    /// The coded data ends on the way from the root to a leaf.
    TruncatedData,
    /// A protected block, given by its index, points at a bit outside itself.
    UncorrectableBlock(usize),
    /// A stream of blocks ends with an incomplete block.
    PartialBlock,
}

impl CodecError {
    /// The words that `describe` gives.
    pub open spec fn description(&self) -> Seq<char> {
        match self {
            CodecError::MalformedHeader(HeaderFault::Truncated) => "truncated header"@,
            CodecError::MalformedHeader(HeaderFault::InvalidPadding) => "invalid header"@,
            CodecError::MalformedHeader(HeaderFault::TruncatedTree) => "truncated tree"@,
            CodecError::MalformedTree => "malformed tree"@,
            CodecError::UnknownSymbol(_) => "symbol not in alphabet"@,
            CodecError::TruncatedData => "truncated data"@,
            CodecError::UncorrectableBlock(_) => "uncorrectable block"@,
            CodecError::PartialBlock => "input is not a whole number of blocks"@,
        }
    }

    /// A short description for messages.
    pub fn describe(&self) -> (text: &'static str)
        ensures
            text@ == self.description(),
    {
        match self {
            CodecError::MalformedHeader(HeaderFault::Truncated) => "truncated header",
            CodecError::MalformedHeader(HeaderFault::InvalidPadding) => "invalid header",
            CodecError::MalformedHeader(HeaderFault::TruncatedTree) => "truncated tree",
            CodecError::MalformedTree => "malformed tree",
            CodecError::UnknownSymbol(_) => "symbol not in alphabet",
            CodecError::TruncatedData => "truncated data",
            CodecError::UncorrectableBlock(_) => "uncorrectable block",
            CodecError::PartialBlock => "input is not a whole number of blocks",
        }
    }
}

} // verus!
