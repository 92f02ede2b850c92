//! In-process network simulation for peer-to-peer ledger nodes: request
//! targets and their destinations, the routing fabric that forwards requests
//! between nodes, request framing for the peer handle, and the proof-of-work
//! puzzle solver.
pub mod address;
pub mod error;
pub mod fabric;
pub mod hexcode;
pub mod solver;
pub mod request;
pub mod cluster;
