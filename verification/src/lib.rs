//! Verified core of a c0mpute node: content hashes, Reed-Solomon storage
//! framing, bootstrap-list handling, topic naming and the chunk-fetch
//! bookkeeping of the swarm task, the node identity decision and the
//! supervisor's update interval.

pub mod hex;
pub mod hash;
pub mod codec;
pub mod text;
pub mod erasure;
pub mod storage;
pub mod topics;
pub mod bootstrap;
pub mod swarm;
pub mod identity;
pub mod supervisor;
