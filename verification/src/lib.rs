//! Kollaps: the decision logic of a distributed network emulator.
//!
//! The library holds the data structures and algorithms of the emulator:
//! symmetric matrices, the cluster speed graph, the emulated network graph
//! with its path strategies, the bandwidth sharing between flows, the
//! placement of emulations on cluster hosts, and the message formats.

pub mod matrix;
pub mod cgraph;
pub mod netgraph;
pub mod paths;
pub mod text;
pub mod common;
pub mod messages;
pub mod apps;
pub mod docker;
pub mod orchestrator;
pub mod topology;
pub mod bwsync;
pub mod random_net;
pub mod cluster;
pub mod emulcore;
pub mod omanager;
