//! Core of a client for a sharded key-value store: the wire codec, the
//! nested-container decoder, replica selection, cluster membership and the
//! batch executor, each stated and proved with Verus.

pub mod batch;
pub mod cdt;
pub mod cluster;
pub mod command;
pub mod errors;
pub mod info;
pub mod key;
pub mod node;
pub mod particle;
pub mod partition;
pub mod value;
pub mod wire;
