//! A discrete-event simulator of a sharded blockchain protocol: a generic
//! message-passing core (`sim_core`), the protocol's roles (`spice`), the
//! shared chain data (`types`, `core_state`) and a small stand-alone
//! message layer (`node`, `message`, `pingpong`, ...).
pub mod naming;
pub mod sim_core;
pub mod types;
pub mod sorted_map;
pub mod config;
pub mod core_state;
pub mod spice;
pub mod node;
pub mod message;
pub mod pingpong;
pub mod block_producer;
pub mod data_owner;
pub mod text;
