//! The generic discrete-event core: node identities and framework state,
//! messages, the time-ordered message queue and the dispatch loop.
pub mod message;
pub mod node;
pub mod queue;
pub mod runner;
pub mod simulator;
