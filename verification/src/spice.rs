//! The protocol's roles, built on `sim_core`: block producers, chunk
//! producers, data owners, replicas and validators, with the trackers that
//! turn attestations into certificates.
pub mod availability_tracker;
pub mod endorsement_tracker;
pub mod payload;
pub mod block_producer;
pub mod validator;
pub mod data_owner;
pub mod chunk_producer;
pub mod replica;
