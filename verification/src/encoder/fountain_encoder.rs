//! Luby Transform (LT) encoding of superblocks into droplets.
use rand::rngs::ThreadRng;

use vstd::prelude::*;

use crate::droplet::{neighbor_numbers, Droplet, Neighbor};
use crate::peeling::xor_fold;
use crate::random::{distinct, random_distinct};
use crate::super_block::{empty_superblock, SuperBlock, SuperBlockView};

verus! {

/// The superblocks of a list, by their position.
pub open spec fn superblocks_by_index(sbs: Seq<SuperBlock>) -> Map<usize, SuperBlockView> {
    Map::new(|i: usize| i < sbs.len(), |i: usize| sbs[i as int]@)
}

/// Why an encoder could not produce a droplet.
#[derive(Debug, Clone, Copy, PartialEq, Eq, Structural)]
pub enum EncoderError {
    /// `init_epoch` has not given the encoder superblocks.
    StorageNotInitialized,
    /// The superblock asked for is not in the storage.
    MissingSuperBlock,
}

/// Fountain encoder combines more superblocks into one droplet using Luby
/// Transform (LT) Code. The degree of each droplet is drawn by the caller from
/// the degree distribution (the robust soliton distribution uses floating
/// point).
pub struct FountainEncoder {
    /// Number of epoch being encoded
    epoch: usize,
    /// Number of source symbols (ie. superblocks per epoch)
    k: usize,
    /// Source data storage
    super_blocks: Option<Vec<SuperBlock>>,
    /// Auto incremented droplet number
    droplet_counter: usize,
}

impl FountainEncoder {
    /// The superblocks of the current epoch, when initialized.
    pub closed spec fn storage(&self) -> Option<Seq<SuperBlock>> {
        match self.super_blocks {
            Some(v) => Some(v@),
            None => None,
        }
    }

    /// The number the next droplet gets.
    pub closed spec fn counter(&self) -> usize {
        self.droplet_counter
    }

    /// The epoch being encoded.
    pub closed spec fn epoch_spec(&self) -> usize {
        self.epoch
    }

    pub fn new() -> (r: Self)
        ensures
            r.storage() is None,
            r.counter() == 0,
            r.epoch_spec() == 0,
    {
        Self { epoch: 0, k: 0, super_blocks: None, droplet_counter: 0 }
    }

    /// Initialize the encoder for a new epoch with the given source superblocks
    /// from that epoch; droplets are numbered on from `current_droplet_count`.
    pub fn init_epoch(
        &mut self,
        epoch: usize,
        superblock_storage: Vec<SuperBlock>,
        current_droplet_count: usize,
    )
        ensures
            final(self).storage() == Some(superblock_storage@),
            final(self).counter() == current_droplet_count,
            final(self).epoch_spec() == epoch,
    {
        self.epoch = epoch;
        self.k = superblock_storage.len();
        self.super_blocks = Some(superblock_storage);
        self.droplet_counter = current_droplet_count;
    }

    /// Generate a droplet combining `degree` different random superblocks of
    /// the epoch: its superblock is the XOR combination of them, starting from
    /// an empty superblock numbered zero.
    pub fn generate_droplet(&mut self, degree: usize, rng: &mut ThreadRng) -> (r: Result<
        Droplet,
        EncoderError,
    >)
        requires
            old(self).storage() matches Some(s) ==> 1 <= degree <= s.len(),
            old(self).counter() < usize::MAX,
        ensures
            final(self).storage() == old(self).storage(),
            final(self).epoch_spec() == old(self).epoch_spec(),
            old(self).storage() is None ==> r == Err::<Droplet, EncoderError>(
                EncoderError::StorageNotInitialized,
            ) && final(self).counter() == old(self).counter(),
            old(self).storage() matches Some(s) ==> {
                &&& r matches Ok(d) && {
                    &&& d@.num == old(self).counter()
                    &&& d@.neighbors.len() == degree
                    &&& distinct(d@.neighbors)
                    &&& forall|i: int| 0 <= i < d@.neighbors.len() ==> d@.neighbors[i] < s.len()
                    &&& d@.xored_superblock == xor_fold(
                        empty_superblock(0),
                        superblocks_by_index(s),
                        d@.neighbors,
                    )
                }
                &&& final(self).counter() == old(self).counter() + 1
            },
    {
        let storage = match &self.super_blocks {
            Some(s) => s,
            None => return Err(EncoderError::StorageNotInitialized),
        };
        let ghost src = superblocks_by_index(storage@);
        let picks = random_distinct(rng, storage.len(), degree);
        let mut neighbors: Vec<Neighbor> = Vec::with_capacity(degree);
        // empty superblock
        let mut encoded_superblock = SuperBlock::new(0);
        let mut t: usize = 0;
        while t < picks.len()
            invariant
                t <= picks@.len(),
                forall|i: int| 0 <= i < picks@.len() ==> picks@[i] < storage@.len(),
                src == superblocks_by_index(storage@),
                neighbor_numbers(neighbors@) == picks@.take(t as int),
                encoded_superblock@ == xor_fold(empty_superblock(0), src, picks@.take(t as int)),
            decreases picks@.len() - t,
        {
            let n = picks[t];
            let nb = Neighbor::new(n);
            proof {
                assert(picks@.take(t + 1).drop_last() =~= picks@.take(t as int));
                assert(picks@.take(t + 1).last() == n);
                assert(neighbor_numbers(neighbors@.push(nb)) =~= picks@.take(t + 1));
            }
            neighbors.push(nb);
            // zero-padded to the biggest of the selected superblocks
            encoded_superblock.bitxor_assign_ref(&storage[n]);
            t += 1;
        }
        proof {
            assert(picks@.take(picks@.len() as int) =~= picks@);
        }
        let droplet = Droplet::new(self.droplet_counter, neighbors, encoded_superblock);
        self.droplet_counter = self.droplet_counter + 1;
        Ok(droplet)
    }

    /// Drops the superblocks of the epoch.
    pub fn truncate_storage(&mut self) -> (r: Result<(), EncoderError>)
        ensures
            r is Ok <==> old(self).storage() is Some,
            r is Err ==> r == Err::<(), EncoderError>(EncoderError::StorageNotInitialized),
            final(self).storage() is None,
            final(self).counter() == old(self).counter(),
            final(self).epoch_spec() == old(self).epoch_spec(),
    {
        match self.super_blocks.take() {
            Some(_) => Ok(()),
            None => Err(EncoderError::StorageNotInitialized),
        }
    }
}

} // verus!
