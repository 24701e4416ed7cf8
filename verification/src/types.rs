//! Chain data: hashes, heights, shards, blocks, chunks and certificates.
pub mod block;
pub mod cert;
pub mod chunk;
pub mod encoding;
pub mod hash;
pub mod height;
pub mod shard;
pub mod state_witness;

pub use block::{Block, BlockID};
pub use cert::{AvailCert, StateCert};
pub use chunk::{ChunkID, ChunkPart, ChunkPartID};
pub use height::Height;
pub use shard::ShardID;
pub use state_witness::StateWitness;
