//! Key-value trees with pending-write overlays, Merkle tree index arithmetic,
//! executor pipelines, layered configuration lookup and log-level helpers.
pub mod tree;
pub mod zktree;
pub mod pipelines;
pub mod configuration;
pub mod logsdk;
