//! Verified logic of a networked elevator controller.

pub mod types;
pub mod orders;
pub mod fsm;
pub mod gossip;
pub mod network;
pub mod ip;
pub mod assigner;
pub mod election;
pub mod duties;
pub mod master;
pub mod testfunctions;
pub mod exercises;
pub mod laws;
