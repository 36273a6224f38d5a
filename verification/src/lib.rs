//! Per-miner block-reward attribution for a proof-of-work chain.
//!
//! The library holds the verified core of the pipeline: the block data
//! model, a persistent block cache with an all-or-nothing merge contract,
//! a text codec for the cache file, the JSON-RPC envelope interpretation,
//! and the statistics engine that matches derived payout addresses against
//! cached coinbase outputs and aggregates per-miner and global totals.
//!
//! Configuration loading, the HTTP transport, the parallel fetch workers
//! and the cryptographic address derivation are external collaborators:
//! they hand the library plain values and take plain values back.

pub mod block;
pub mod cache;
pub mod codec;
pub mod error;
pub mod rpc;
pub mod stats;
