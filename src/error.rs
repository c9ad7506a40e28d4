//! Errors of the trie stores.
use vstd::prelude::*;

use crate::digest::Digest;

verus! {

/// Why a store operation failed.
#[derive(Clone, Copy, Debug, PartialEq, Eq)]
pub enum Error {
    /// No table of the requested name exists in the environment.
    TableNotFound,
    /// The database handle names no table of the environment.
    BadDatabase,
    /// Stored bytes are not the encoding of a node.
    Decoding,
    /// A node reachable from the root being flushed was neither buffered nor
    /// durable.
    TrieNotFoundDuringCacheValidate(Digest),
}

} // verus!
