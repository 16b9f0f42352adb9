//! Encoder that places each superblock into a droplet of its own, unchanged.
use vstd::prelude::*;

use crate::droplet::{Droplet, Neighbor};
use crate::encoder::fountain_encoder::EncoderError;
use crate::super_block::SuperBlock;

verus! {

/// Dummy encoder does not encode anything, it just places superblock into a droplet.
/// It is useful only for testing of the surrounding blockchain infrastructure and logic.
pub struct DummyEncoder {
    /// Number of epoch being encoded
    epoch: usize,
    /// Number of source symbols (ie. blocks per epoch)
    k: usize,
    /// Source data storage
    super_blocks: Option<Vec<SuperBlock>>,
    /// What superblock is currently being processed
    position: usize,
}

impl DummyEncoder {
    /// The superblocks of the current epoch, when initialized.
    pub closed spec fn storage(&self) -> Option<Seq<SuperBlock>> {
        match self.super_blocks {
            Some(v) => Some(v@),
            None => None,
        }
    }

    /// The superblock that the next droplet carries.
    pub closed spec fn position_spec(&self) -> usize {
        self.position
    }

    pub fn new() -> (r: Self)
        ensures
            r.storage() is None,
            r.position_spec() == 0,
    {
        Self { epoch: 0, k: 0, super_blocks: None, position: 0 }
    }

    /// Initialize the encoder for a new epoch with the given source superblocks
    /// from that epoch
    pub fn init_epoch(
        &mut self,
        epoch: usize,
        superblock_storage: Vec<SuperBlock>,
        _current_droplet_count: usize,
    )
        ensures
            final(self).storage() == Some(superblock_storage@),
            final(self).position_spec() == 0,
    {
        self.epoch = epoch;
        self.k = superblock_storage.len();
        self.super_blocks = Some(superblock_storage);
        self.position = 0;
    }

    /// Generate a droplet that carries the next superblock, numbered by its
    /// position, with that position as its one neighbour.
    pub fn generate_droplet(&mut self) -> (r: Result<Droplet, EncoderError>)
        ensures
            final(self).storage() == old(self).storage(),
            old(self).storage() is None ==> r == Err::<Droplet, EncoderError>(
                EncoderError::StorageNotInitialized,
            ) && final(self).position_spec() == old(self).position_spec(),
            old(self).storage() matches Some(s) ==> {
                let p = old(self).position_spec();
                &&& p >= s.len() ==> r == Err::<Droplet, EncoderError>(
                    EncoderError::MissingSuperBlock,
                ) && final(self).position_spec() == p
                &&& p < s.len() ==> (r matches Ok(d) && d@.num == p && d@.neighbors == seq![p]
                    && d@.xored_superblock == s[p as int]@) && final(self).position_spec() == p + 1
            },
    {
        let super_blocks = match &self.super_blocks {
            Some(s) => s,
            None => return Err(EncoderError::StorageNotInitialized),
        };
        if self.position >= super_blocks.len() {
            return Err(EncoderError::MissingSuperBlock);
        }
        let superblock = super_blocks[self.position].clone();
        let mut neighbors: Vec<Neighbor> = Vec::new();
        neighbors.push(Neighbor::new(self.position));
        let droplet = Droplet::new(self.position, neighbors, superblock);
        proof {
            assert(droplet@.neighbors =~= seq![self.position]);
        }
        self.position = self.position + 1;
        Ok(droplet)
    }

    /// Drops the superblocks of the epoch.
    pub fn truncate_storage(&mut self) -> (r: Result<(), EncoderError>)
        ensures
            r is Ok <==> old(self).storage() is Some,
            r is Err ==> r == Err::<(), EncoderError>(EncoderError::StorageNotInitialized),
            final(self).storage() is None,
    {
        match self.super_blocks.take() {
            Some(_) => Ok(()),
            None => Err(EncoderError::StorageNotInitialized),
        }
    }
}

} // verus!
