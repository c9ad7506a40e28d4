//! Persistence of a content-addressed Merkle trie: a digest-keyed durable trie
//! store over a transactional key-value environment, and a write-buffering
//! scratch store that commits the dirty closure of a state root at once.
pub mod cache;
pub mod codec;
pub mod connection_id;
pub mod digest;
pub mod environment;
pub mod error;
pub mod flush;
pub mod reactor_state;
pub mod trie;
pub mod trie_store;
