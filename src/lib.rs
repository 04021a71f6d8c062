//! Byzantine reliable broadcast: the per-instance protocol state machines
//! (Bracha's broadcast and its erasure-coded, Merkle-authenticated variant),
//! the replica that routes messages between instances, and the Merkle tree,
//! shard coding and wire format they rest on.

pub mod quorum;
pub mod votes;
pub mod bracha;
pub mod table;
pub mod addrbc;
pub mod merkle;
pub mod erasure;
pub mod ctrbc;
pub mod codec;
