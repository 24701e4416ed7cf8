//! Node identities and framework state of the stand-alone message layer,
//! which shares the generic core's node with its own payload type.
use vstd::prelude::*;
pub use crate::sim_core::node::NodeID;
use crate::message::MessagePayload;

verus! {

/// The framework state of a node of the stand-alone layer.
pub type Node = crate::sim_core::node::Node<MessagePayload>;

} // verus!
