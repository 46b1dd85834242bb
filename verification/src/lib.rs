//! Content-addressed publishing of static directory trees.
//!
//! A directory tree is split into content-defined chunks, identified by
//! BLAKE3 digests, and summarised by a Merkle tree whose root hash is a
//! deterministic function of the tree's names, permissions and file bytes.
//! The tree and its chunks can be packed into a single-file archive, or
//! pushed over a framed sync protocol into a sharded chunk/snapshot store
//! and served back over HTTP.

pub mod archive;
pub mod chunker;
pub mod client;
pub mod codec;
pub mod hashing;
pub mod merkle;
pub mod protocol;
pub mod scanner;
pub mod server;

pub use chunker::Chunk;
pub use hashing::Digest;
pub use merkle::{build_tree, Node};
pub use scanner::ScannedEntry;
