//! A verified core for a Bitcoin peer-to-peer network crawler: the wire
//! codec for P2P frames, the AddrV2 ingest pipeline, the conversation
//! state machine, and the peer store with its scheduling and reliability
//! accounting.
pub mod addr;
pub mod codec;
pub mod crypto;
pub mod engine;
pub mod ingest;
pub mod rng;
pub mod sched;
pub mod store;
pub mod text;
