//! Versioned state storage for an authenticated key-value mapping.
//!
//! The crate provides the persistence layer beneath an external Merkle-tree
//! algorithm: a node store, a preimage index, and a versioned value store
//! with point-in-time lookups, together with the order-preserving composite
//! key codec that makes range seeks over an ordered byte substrate agree
//! with (preimage, version) ordering. A small proof wire format and the
//! abstract chain interfaces round out the public surface.

pub mod codec;
pub mod mock_proof;
pub mod state_db;
pub mod traits;
