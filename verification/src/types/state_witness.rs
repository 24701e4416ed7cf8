//! State witnesses, produced by executing a chunk.
use vstd::prelude::*;
use crate::types::chunk::ChunkID;

verus! {

/// The witness a replica produces by executing chunk `chunk_id`.
#[derive(Clone, Copy, Debug, Hash, PartialEq, Eq)]
pub struct StateWitness {
    pub chunk_id: ChunkID,
}

} // verus!
