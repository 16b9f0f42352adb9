//! The decisions of restoration: which superblock to ask the decoder for
//! next, when to feed it another droplet, and when the droplets run out.
use vstd::prelude::*;

verus! {

pub struct Config {
    /// Droplets directory
    pub droplets_dir: String,
    /// Header-chain directory
    pub header_chain_dir: String,
    /// How many super blocks is one epoch encoded into
    pub super_blocks_per_epoch: usize,
    /// Directory where the restored BTC blockchain should be placed
    pub output_blockchain_dir: String,
    /// Number of worker threads for block validation
    pub worker_threads: i32,
}

/// What restoration does next within an epoch.
#[derive(Debug, Clone, Copy, PartialEq, Eq, Structural)]
pub enum RestoreAction {
    /// Ask the decoder for the superblock with this number.
    Lookup(usize),
    /// Give the decoder the droplet with this index, then ask again.
    AddDroplet(usize),
    /// Every superblock of the epoch was restored.
    EpochDone,
    /// The superblock asked for cannot be decoded from the droplets there are.
    NotEnoughDroplets,
}

/// Restoration of one epoch: superblocks are wanted in order, and droplets
/// are handed to the decoder one at a time, only while the wanted superblock
/// is not decoded.
pub struct RestoreState {
    super_blocks_per_epoch: usize,
    number_of_droplets: usize,
    superblock_num: usize,
    added_droplets: usize,
}

impl RestoreState {
    /// The superblock wanted next.
    pub closed spec fn wanted(&self) -> usize {
        self.superblock_num
    }

    /// How many droplets were handed to the decoder.
    pub closed spec fn added(&self) -> usize {
        self.added_droplets
    }

    /// Superblocks per epoch.
    pub closed spec fn epoch_size(&self) -> usize {
        self.super_blocks_per_epoch
    }

    /// Droplets available for the epoch.
    pub closed spec fn available(&self) -> usize {
        self.number_of_droplets
    }

    /// Starts an epoch; gives the first action.
    pub fn new(super_blocks_per_epoch: usize, number_of_droplets: usize) -> (r: (Self, RestoreAction))
        ensures
            r.0.wanted() == 0,
            r.0.added() == 0,
            r.0.epoch_size() == super_blocks_per_epoch,
            r.0.available() == number_of_droplets,
            r.1 == if super_blocks_per_epoch == 0 {
                RestoreAction::EpochDone
            } else {
                RestoreAction::Lookup(0)
            },
    {
        let state = RestoreState {
            super_blocks_per_epoch,
            number_of_droplets,
            superblock_num: 0,
            added_droplets: 0,
        };
        let action = if super_blocks_per_epoch == 0 {
            RestoreAction::EpochDone
        } else {
            RestoreAction::Lookup(0)
        };
        (state, action)
    }

    /// The next action, once the decoder has answered whether it could decode
    /// the wanted superblock (and, if so, its blocks were processed).
    pub fn next(&mut self, decoded: bool) -> (r: RestoreAction)
        requires
            old(self).wanted() < old(self).epoch_size(),
            old(self).added() <= old(self).available(),
        ensures
            final(self).epoch_size() == old(self).epoch_size(),
            final(self).available() == old(self).available(),
            final(self).added() <= final(self).available(),
            decoded ==> final(self).added() == old(self).added() && final(self).wanted() == old(
                self,
            ).wanted() + 1 && r == if old(self).wanted() + 1 == old(self).epoch_size() {
                RestoreAction::EpochDone
            } else {
                RestoreAction::Lookup((old(self).wanted() + 1) as usize)
            },
            !decoded && old(self).added() < old(self).available() ==> final(self).wanted() == old(
                self,
            ).wanted() && final(self).added() == old(self).added() + 1 && r
                == RestoreAction::AddDroplet(old(self).added()),
            !decoded && old(self).added() == old(self).available() ==> final(self).wanted() == old(
                self,
            ).wanted() && final(self).added() == old(self).added() && r
                == RestoreAction::NotEnoughDroplets,
    {
        if decoded {
            self.superblock_num = self.superblock_num + 1;
            if self.superblock_num == self.super_blocks_per_epoch {
                RestoreAction::EpochDone
            } else {
                RestoreAction::Lookup(self.superblock_num)
            }
        } else if self.added_droplets < self.number_of_droplets {
            let index = self.added_droplets;
            self.added_droplets = self.added_droplets + 1;
            RestoreAction::AddDroplet(index)
        } else {
            RestoreAction::NotEnoughDroplets
        }
    }
}

} // verus!
