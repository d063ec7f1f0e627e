//! The error values that the store's operations return.

use vstd::prelude::*;

verus! {

/// Why a store or consensus operation was refused.
#[derive(Clone, Copy, Debug, PartialEq, Eq, Structural)]
pub enum KvError {
    /// The store cannot take the write: the in-memory analogue of a failed
    /// file operation.
    Io,
    /// A textual command or wire message was malformed.
    InvalidInput,
    /// Stored data did not have the shape the reader expected.
    InvalidData,
    /// A mutation was sent to a node that is not the leader; carries the id
    /// of the leader this node knows of.
    NotLeader(u64),
    /// A replicated entry did not reach a majority of the peers.
    NotReplicated,
    /// A value too large for the segment format.
    ValueTooLarge,
}

} // verus!
