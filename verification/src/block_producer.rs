//! The block producer of the stand-alone layer: it accepts start-up signals
//! and blocks, and does nothing with them yet.
use vstd::prelude::*;
use crate::message::{Message, MessageHandler, MessagePayload};
use crate::node::{Node, NodeID};
use crate::sim_core::message::HandlerError;
use crate::types::block::Block;

verus! {

/// A block producer of the stand-alone layer.
pub struct BlockProducer {
    node: Node,
}

impl BlockProducer {
    /// The node's framework state.
    pub closed spec fn state(&self) -> Node {
        self.node
    }

    /// A fresh block producer `own_id`.
    pub fn new(own_id: NodeID) -> (r: Self)
        ensures
            r.state().node_id() == own_id,
            r.state().clock() == 0,
            r.state().outbox().len() == 0,
    {
        Self { node: Node::new(own_id) }
    }

    /// Start-up: nothing to do.
    pub fn init(&mut self)
        ensures
            *final(self) == *old(self),
    {
    }

    /// Takes note of `block`; it changes nothing.
    pub fn process_block(&mut self, block: Block)
        ensures
            *final(self) == *old(self),
    {
    }
}

impl MessageHandler for BlockProducer {
    open spec fn node_view(&self) -> Node {
        self.state()
    }

    open spec fn handle_spec(&self, before: Node, msg: Message, after: Node, r: Result<(), HandlerError>) -> bool {
        &&& after == before
        &&& r is Ok <==> (msg.payload is Init || msg.payload is Block)
        &&& r is Err ==> r == Err::<(), HandlerError>(HandlerError::UnexpectedPayload)
    }

    fn handle_message(&mut self, msg: Message) -> (r: Result<(), HandlerError>)
        ensures
            *final(self) == *old(self),
            r is Ok <==> (msg.payload is Init || msg.payload is Block),
            r is Err ==> r == Err::<(), HandlerError>(HandlerError::UnexpectedPayload),
    {
        proof {
            crate::sim_core::node::lemma_follows_reflexive(self.node);
        }
        match msg.payload {
            MessagePayload::Init => {
                self.init();
                Ok(())
            },
            MessagePayload::Block(block) => {
                self.process_block(block);
                Ok(())
            },
            _ => Err(HandlerError::UnexpectedPayload),
        }
    }

    closed spec fn with_node(&self, n: Node) -> Self {
        BlockProducer { node: n, ..*self }
    }

    fn node(&mut self) -> (r: &mut Node) {
        &mut self.node
    }
}

} // verus!
