//! A replicated read/write register kept consistent by quorum reads and
//! writes with version numbers, run as a deterministic simulation of the
//! replicas, their transport and their clients.

pub mod atomic_register_client;
pub mod cluster;
pub mod consistency;
pub mod network;
pub mod node;
pub mod quorum;
