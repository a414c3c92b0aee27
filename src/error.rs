//! Errors of the reassembly pipeline.
use vstd::prelude::*;

verus! {

/// Failures of a single packet.
#[derive(Debug, Clone, PartialEq, Eq)]
pub enum PacketError {
    NullPointer,
    DecodeError,
    ProcessError(String),
    StreamError(String),
    IncompleteFragment,
    InvalidFragment,
    TooManyFragments,
    ReassemblyFailed,
}

/// Failures at the boundary of the pipeline.
#[derive(Debug, Clone, PartialEq, Eq)]
pub enum ReassembleError {
    DecodeError(String),
    DefragError(String),
    StreamError(String),
    InvalidData(String),
    PacketError(PacketError),
}

} // verus!
