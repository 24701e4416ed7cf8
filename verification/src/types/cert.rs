//! Availability and state certificates.
use vstd::prelude::*;
use crate::sim_core::node::NodeID;
use crate::types::chunk::ChunkID;

verus! {

/// What a certificate says: a chunk and the nodes that signed for it.
pub struct CertView {
    pub chunk_id: ChunkID,
    pub signers: Seq<NodeID>,
}

/// A copy of `ids`.
pub fn copy_ids(ids: &Vec<NodeID>) -> (r: Vec<NodeID>)
    ensures
        r@ == ids@,
{
    let mut r: Vec<NodeID> = Vec::new();
    let mut i: usize = 0;
    while i < ids.len()
        invariant
            i <= ids@.len(),
            r@ == ids@.subrange(0, i as int),
        decreases ids@.len() - i,
    {
        r.push(ids[i]);
        i = i + 1;
        proof {
            assert(r@ =~= ids@.subrange(0, i as int));
        }
    }
    proof {
        assert(r@ =~= ids@);
    }
    r
}

/// Data owners attesting that the parts of a chunk are stored.
#[derive(Clone, Debug, Hash, PartialEq, Eq)]
pub struct AvailCert {
    pub chunk_id: ChunkID,
    pub signers: Vec<NodeID>,
}

impl View for AvailCert {
    type V = CertView;

    open spec fn view(&self) -> CertView {
        CertView { chunk_id: self.chunk_id, signers: self.signers@ }
    }
}

impl AvailCert {
    /// An independent copy of the certificate.
    pub fn duplicate(&self) -> (r: AvailCert)
        ensures
            r@ == self@,
    {
        AvailCert { chunk_id: self.chunk_id, signers: copy_ids(&self.signers) }
    }
}

/// Validators endorsing the state obtained by executing a chunk.
#[derive(Clone, Debug, Hash, PartialEq, Eq)]
pub struct StateCert {
    pub chunk_id: ChunkID,
    pub signers: Vec<NodeID>,
}

impl View for StateCert {
    type V = CertView;

    open spec fn view(&self) -> CertView {
        CertView { chunk_id: self.chunk_id, signers: self.signers@ }
    }
}

impl StateCert {
    /// An independent copy of the certificate.
    pub fn duplicate(&self) -> (r: StateCert)
        ensures
            r@ == self@,
    {
        StateCert { chunk_id: self.chunk_id, signers: copy_ids(&self.signers) }
    }
}

} // verus!
