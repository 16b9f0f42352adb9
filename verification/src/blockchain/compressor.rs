//! The decisions of compression: packing the chain's blocks into superblocks
//! and cutting the superblocks into epochs, and how many droplets an epoch
//! gets.
use vstd::prelude::*;

use crate::super_block::{
    empty_superblock, superblock_consistent, with_block, RawBlock, SuperBlock, SuperBlockError,
    SuperBlockView, SUPERBLOCK_MAX_SIZE,
};

verus! {

pub struct Config {
    /// Droplets directory
    pub droplets_dir: String,
    /// Directory containing BTC blockchain data to be compressed
    pub source_data_dir: String,
    /// How many super blocks are produced in an epoch.
    /// An epoch is defined as the time required for the blockchain to grow by `k` blocks (e.g., `k` = 10000).
    /// Here we use super blocks (that contain more concatenated blocks) instead of blocks
    pub super_blocks_per_epoch: usize,
    /// Number of epochs to encode, 0 means encode the whole blockchain
    pub epochs_to_encode: usize,
    /// Compression ratio. For example 10 means 1:10 blockchain disk space savings.
    pub compression_ratio: usize,
}

/// `a / b` rounded up.
pub open spec fn ceil_div(a: int, b: int) -> int {
    (a + b - 1) / b
}

/// Number of droplets made for an epoch of `super_blocks` superblocks at the
/// given compression ratio: the superblock count divided by the ratio, rounded up.
pub fn droplets_per_epoch(super_blocks: usize, compression_ratio: usize) -> (r: usize)
    requires
        compression_ratio > 0,
    ensures
        r == ceil_div(super_blocks as int, compression_ratio as int),
        r as int * compression_ratio >= super_blocks,
        (r as int - 1) * compression_ratio < super_blocks,
{
    let q = super_blocks / compression_ratio;
    proof {
        let a = super_blocks as int;
        let b = compression_ratio as int;
        assert(a == b * (a / b) + a % b && (a % b > 0 ==> a / b < a)) by (nonlinear_arith)
            requires
                b > 0,
                a >= 0,
        ;
    }
    let r = if super_blocks % compression_ratio == 0 {
        q
    } else {
        q + 1
    };
    proof {
        let a = super_blocks as int;
        let b = compression_ratio as int;
        assert(a == b * (a / b) + a % b) by (nonlinear_arith)
            requires
                b > 0,
        ;
        assert(0 <= a % b < b);
        if a % b == 0 {
            assert((a + b - 1) / b == a / b) by (nonlinear_arith)
                requires
                    b > 0,
                    a == b * (a / b),
            ;
        } else {
            assert((a + b - 1) / b == a / b + 1) by (nonlinear_arith)
                requires
                    b > 0,
                    a == b * (a / b) + a % b,
                    0 < a % b < b,
            ;
        }
        assert(r as int * b >= a && (r as int - 1) * b < a) by (nonlinear_arith)
            requires
                b > 0,
                a == b * (a / b) + a % b,
                0 <= a % b < b,
                r == (if a % b == 0 {
                    a / b
                } else {
                    a / b + 1
                }),
        ;
    }
    r
}

/// Number of generation rounds needed so that `droplets_per_round` droplets a
/// round reach `required` droplets: `required` divided by the droplets per
/// round, rounded up.
pub fn rounds_needed(required: usize, droplets_per_round: usize) -> (r: usize)
    requires
        droplets_per_round > 0,
    ensures
        r == ceil_div(required as int, droplets_per_round as int),
{
    droplets_per_epoch(required, droplets_per_round)
}

/// Whether compression stops after `epoch`: the last of `epochs_to_encode`
/// epochs, where zero asks for the whole chain (every epoch below the
/// largest number).
pub fn is_last_requested_epoch(epoch: usize, epochs_to_encode: usize) -> (r: bool)
    ensures
        r == if epochs_to_encode == 0 {
            epoch == usize::MAX - 1
        } else {
            epoch == epochs_to_encode - 1
        },
{
    let limit = if epochs_to_encode == 0 {
        usize::MAX
    } else {
        epochs_to_encode
    };
    epoch == limit - 1
}

/// What the packer tells the compressor after a block.
pub enum PackAction {
    /// The block was packed; the epoch goes on.
    Continue,
    /// The block finished the epoch: these are its superblocks, in order.
    EpochReady(Vec<SuperBlock>),
}

/// Packs blocks into superblocks and cuts them into epochs of
/// `super_blocks_per_epoch` superblocks.
///
/// A block goes into the current superblock while it fits; otherwise the
/// current superblock is closed and the block starts the next one. The epoch
/// ends as soon as its last superblock has received a block.
pub struct EpochPacker {
    super_blocks_per_epoch: usize,
    closed: Vec<SuperBlock>,
    current: SuperBlock,
}

impl EpochPacker {
    /// The superblocks of the epoch closed so far.
    pub closed spec fn closed_view(&self) -> Seq<SuperBlockView> {
        self.closed@.map_values(|sb: SuperBlock| sb@)
    }

    /// The superblock being filled.
    pub closed spec fn current_view(&self) -> SuperBlockView {
        self.current@
    }

    /// Superblocks per epoch.
    pub closed spec fn epoch_size(&self) -> usize {
        self.super_blocks_per_epoch
    }

    /// The packer's invariant: the superblock being filled is number `n` when
    /// `n` superblocks are closed, every superblock is consistent and within
    /// the size limit, and the epoch is not complete.
    pub closed spec fn wf(&self) -> bool {
        &&& self.super_blocks_per_epoch >= 1
        &&& self.closed@.len() + 1 < self.super_blocks_per_epoch || (self.closed@.len() == 0
            && self.super_blocks_per_epoch == 1 && self.current@.raw_bytes.len() == 0)
        &&& self.current@.num == self.closed@.len()
        &&& superblock_consistent(self.current@)
        &&& self.current@.raw_bytes.len() <= SUPERBLOCK_MAX_SIZE
        &&& forall|i: int|
            0 <= i < self.closed@.len() ==> superblock_consistent(#[trigger] self.closed@[i]@)
                && self.closed@[i]@.num == i
    }

    pub fn new(super_blocks_per_epoch: usize) -> (r: Self)
        requires
            super_blocks_per_epoch >= 1,
        ensures
            r.wf(),
            r.epoch_size() == super_blocks_per_epoch,
            r.closed_view() == Seq::<SuperBlockView>::empty(),
            r.current_view() == empty_superblock(0),
    {
        let r = EpochPacker {
            super_blocks_per_epoch,
            closed: Vec::new(),
            current: SuperBlock::new(0),
        };
        proof {
            assert(r.closed_view() =~= Seq::<SuperBlockView>::empty());
        }
        r
    }

    /// Packs the next block of the chain.
    pub fn push_block(&mut self, block: RawBlock) -> (r: Result<PackAction, SuperBlockError>)
        requires
            old(self).wf(),
            old(self).current_view().block_count < usize::MAX,
        ensures
            final(self).epoch_size() == old(self).epoch_size(),
            block.raw_bytes@.len() > SUPERBLOCK_MAX_SIZE ==> r == Err::<PackAction, SuperBlockError>(
                SuperBlockError::NotEnoughSpace {
                    needed: block.raw_bytes@.len() as usize,
                    available: SUPERBLOCK_MAX_SIZE,
                },
            ),
            block.raw_bytes@.len() <= SUPERBLOCK_MAX_SIZE ==> final(self).wf(),
            block.raw_bytes@.len() <= SUPERBLOCK_MAX_SIZE ==> ({
                let fits = block.raw_bytes@.len() <= SUPERBLOCK_MAX_SIZE
                    - old(self).current_view().raw_bytes.len();
                let closed = if fits {
                    old(self).closed_view()
                } else {
                    old(self).closed_view().push(old(self).current_view())
                };
                let base = if fits {
                    old(self).current_view()
                } else {
                    empty_superblock((old(self).closed_view().len() + 1) as usize)
                };
                let filled = with_block(base, block.raw_bytes@);
                if closed.len() + 1 == old(self).epoch_size() {
                    &&& r matches Ok(PackAction::EpochReady(sbs)) && sbs@.map_values(
                        |sb: SuperBlock| sb@,
                    ) == closed.push(filled)
                    &&& final(self).closed_view() == Seq::<SuperBlockView>::empty()
                    &&& final(self).current_view() == empty_superblock(0)
                } else {
                    &&& r matches Ok(PackAction::Continue)
                    &&& final(self).closed_view() == closed
                    &&& final(self).current_view() == filled
                }
            }),
    {
        let ghost block_bytes = block.raw_bytes@;
        if self.current.available_space() < block.size() {
            // block does not fit in => close the superblock and start a new one
            let mut full = SuperBlock::new(self.closed.len() + 1);
            std::mem::swap(&mut full, &mut self.current);
            let ghost fv = full@;
            self.closed.push(full);
            proof {
                assert forall|i: int| 0 <= i < self.closed@.len() implies superblock_consistent(
                    #[trigger] self.closed@[i]@,
                ) && self.closed@[i]@.num == i by {
                    if i < self.closed@.len() - 1 {
                        assert(self.closed@[i] == old(self).closed@[i]);
                    }
                }
                assert(self.closed@.map_values(|sb: SuperBlock| sb@) =~= old(self).closed_view().push(fv));
            }
        }
        let ghost before = self.current@;
        match self.current.add(block) {
            Ok(()) => {},
            Err(e) => return Err(e),
        }
        if self.closed.len() + 1 == self.super_blocks_per_epoch {
            // last superblock in epoch: the epoch is finished
            let mut last = SuperBlock::new(0);
            std::mem::swap(&mut last, &mut self.current);
            let mut epoch: Vec<SuperBlock> = Vec::new();
            std::mem::swap(&mut epoch, &mut self.closed);
            let ghost lv = last@;
            let ghost ev = epoch@;
            epoch.push(last);
            proof {
                assert(epoch@.map_values(|sb: SuperBlock| sb@) =~= ev.map_values(|sb: SuperBlock| sb@).push(lv));
                assert(self.closed_view() =~= Seq::<SuperBlockView>::empty());
            }
            return Ok(PackAction::EpochReady(epoch));
        }
        Ok(PackAction::Continue)
    }
}

} // verus!
