//! The attestation store of a price-oracle gateway.
//!
//! Two streams arrive from the upstream chain: signed attestations, each of
//! which commits to the Merkle root of the messages of one slot, and the
//! messages themselves. The store verifies the attestations, brings the two
//! halves of each slot together, proves every message against the attested
//! root, keeps the messages of the most recent slots, and answers queries for
//! prices with the data that lets a remote party verify them again.
//!
//! The store is a state machine that takes one update at a time. Clocks,
//! locks and channels are left to the caller: time comes in as an argument, and
//! the status of an update says whether a notification is due.

pub mod message;
pub mod order;
pub mod storage;
pub mod store;
pub mod types;
pub mod wormhole;
pub mod wormhole_merkle;
