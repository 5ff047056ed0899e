//! Vote aggregation and coded-payload commitment for a Byzantine-fault-tolerant
//! mempool.
//!
//! The crate has two subsystems:
//! - a quorum-certificate aggregator that accumulates stake-weighted votes over
//!   a root digest and emits a certificate exactly when the quorum threshold is
//!   first reached (`aggregator`), and
//! - a coded-payload pipeline that frames a transaction batch, spreads it over
//!   redundant chunks, commits to the chunks with an ordered Merkle tree keyed
//!   by validator index, and verifies inclusion proofs (`codec`, `merkle`,
//!   `messages`).
//!
//! Hashing is delegated to outside primitives (SHA-512 truncated to 32 bytes
//! for content digests, SHA3-256 for Merkle nodes); everything built on top of
//! those primitives is verified.

pub mod aggregator;
pub mod codec;
pub mod committee;
pub mod error;
pub mod merkle;
pub mod messages;
pub mod primitives;
