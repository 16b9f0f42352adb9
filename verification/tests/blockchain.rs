use fountainhead::blockchain::compressor::{
    droplets_per_epoch, is_last_requested_epoch, rounds_needed, EpochPacker, PackAction,
};
use fountainhead::blockchain::decompressor::{RestoreAction, RestoreState};
use fountainhead::blockchain::headerchain::{
    blocks_verdict, same_hash, validate_blocks, validate_superblock, HeaderChainValidator,
};
use fountainhead::cli::{Args, Command, ConfigError};
use fountainhead::padded_block::PaddedBlock;
use fountainhead::super_block::{
    BlockHashesPair, RawBlock, Size, SuperBlock, SuperBlockError, SUPERBLOCK_MAX_SIZE,
};

/// Knows the hashes 1..=9 (first byte), and reads a block's hashes from its
/// first two bytes: current, then previous.
struct SmallChain;

fn hash(b: u8) -> [u8; 32] {
    let mut h = [0u8; 32];
    h[0] = b;
    h
}

impl HeaderChainValidator for SmallChain {
    fn validate_presence(&self, block_hash: &[u8; 32]) -> bool {
        (1..=9).contains(&block_hash[0]) && block_hash[1..].iter().all(|b| *b == 0)
    }

    fn block_hashes(&self, block: &RawBlock) -> Option<BlockHashesPair> {
        if block.raw_bytes.len() < 2 {
            return None;
        }
        Some(BlockHashesPair::new(
            hash(block.raw_bytes[0]),
            hash(block.raw_bytes[1]),
        ))
    }
}

#[test]
fn droplets_per_epoch_rounds_up() {
    assert_eq!(droplets_per_epoch(10, 10), 1);
    assert_eq!(droplets_per_epoch(11, 10), 2);
    assert_eq!(droplets_per_epoch(0, 3), 0);
    assert_eq!(droplets_per_epoch(10000, 7), 1429);
    assert_eq!(droplets_per_epoch(5, 1), 5);
    assert_eq!(rounds_needed(25, 10), 3);
    assert_eq!(rounds_needed(20, 10), 2);
}

#[test]
fn packer_fills_superblocks_and_cuts_epochs() {
    let mut packer = EpochPacker::new(2);
    let half = vec![7u8; SUPERBLOCK_MAX_SIZE / 2];
    // two halves fill superblock 0
    assert!(matches!(
        packer.push_block(RawBlock::new(&half)).unwrap(),
        PackAction::Continue
    ));
    assert!(matches!(
        packer.push_block(RawBlock::new(&half)).unwrap(),
        PackAction::Continue
    ));
    // the next block does not fit: superblock 1 starts, which is the last of the epoch
    match packer.push_block(RawBlock::new(b"xyz")).unwrap() {
        PackAction::EpochReady(sbs) => {
            assert_eq!(sbs.len(), 2);
            assert_eq!(sbs[0].num, 0);
            assert_eq!(sbs[0].block_count, 2);
            assert_eq!(sbs[0].size(), SUPERBLOCK_MAX_SIZE);
            assert_eq!(sbs[1].num, 1);
            assert_eq!(sbs[1].block_sizes, vec![Size(3)]);
            assert_eq!(sbs[1].raw_bytes, b"xyz".to_vec());
        }
        PackAction::Continue => panic!("epoch should be ready"),
    }
    // a new epoch starts from superblock 0
    assert!(matches!(
        packer.push_block(RawBlock::new(b"a")).unwrap(),
        PackAction::Continue
    ));
}

#[test]
fn packer_with_one_superblock_per_epoch() {
    let mut packer = EpochPacker::new(1);
    for i in 0..3u8 {
        match packer.push_block(RawBlock::new(&[i])).unwrap() {
            PackAction::EpochReady(sbs) => {
                assert_eq!(sbs.len(), 1);
                assert_eq!(sbs[0].num, 0);
                assert_eq!(sbs[0].raw_bytes, vec![i]);
            }
            PackAction::Continue => panic!("every block ends an epoch"),
        }
    }
}

#[test]
fn packer_refuses_oversized_block() {
    let mut packer = EpochPacker::new(3);
    let big = vec![0u8; SUPERBLOCK_MAX_SIZE + 1];
    match packer.push_block(RawBlock::new(&big)) {
        Err(e) => assert_eq!(
            e,
            SuperBlockError::NotEnoughSpace {
                needed: SUPERBLOCK_MAX_SIZE + 1,
                available: SUPERBLOCK_MAX_SIZE
            }
        ),
        Ok(_) => panic!("oversized block accepted"),
    }
}

#[test]
fn restore_state_walks_an_epoch() {
    let (mut state, action) = RestoreState::new(2, 3);
    assert_eq!(action, RestoreAction::Lookup(0));
    assert_eq!(state.next(false), RestoreAction::AddDroplet(0));
    assert_eq!(state.next(false), RestoreAction::AddDroplet(1));
    assert_eq!(state.next(true), RestoreAction::Lookup(1));
    assert_eq!(state.next(false), RestoreAction::AddDroplet(2));
    assert_eq!(state.next(false), RestoreAction::NotEnoughDroplets);
    let (mut state, _) = RestoreState::new(2, 0);
    assert_eq!(state.next(true), RestoreAction::Lookup(1));
    assert_eq!(state.next(true), RestoreAction::EpochDone);
    let (_, action) = RestoreState::new(0, 5);
    assert_eq!(action, RestoreAction::EpochDone);
}

#[test]
fn validate_blocks_checks_presence_and_order() {
    let chain = SmallChain;
    let good = [
        BlockHashesPair::new(hash(1), hash(0)),
        BlockHashesPair::new(hash(2), hash(1)),
        BlockHashesPair::new(hash(3), hash(2)),
    ];
    assert!(validate_blocks(&chain, &good));
    assert!(validate_blocks(&chain, &[]));
    let unknown = [BlockHashesPair::new(hash(1), hash(0)), BlockHashesPair::new(hash(12), hash(1))];
    assert!(!validate_blocks(&chain, &unknown));
    let out_of_order = [BlockHashesPair::new(hash(1), hash(0)), BlockHashesPair::new(hash(3), hash(2))];
    assert!(!validate_blocks(&chain, &out_of_order));
}

#[test]
fn validate_superblock_reads_blocks() {
    let chain = SmallChain;
    let mut sb = SuperBlock::new(0);
    sb.add(RawBlock::new(&[1, 0, 55])).unwrap();
    sb.add(RawBlock::new(&[2, 1])).unwrap();
    assert!(validate_superblock(&chain, &sb));

    let mut bad = SuperBlock::new(0);
    bad.add(RawBlock::new(&[1, 0])).unwrap();
    bad.add(RawBlock::new(&[2, 5])).unwrap();
    assert!(!validate_superblock(&chain, &bad));

    let mut short = SuperBlock::new(0);
    short.add(RawBlock::new(&[1])).unwrap();
    assert!(!validate_superblock(&chain, &short));

    let broken = SuperBlock {
        num: 0,
        block_count: 1,
        bytes_length: 2,
        block_sizes: vec![Size(5)],
        raw_bytes: vec![1, 0],
    };
    assert!(!validate_superblock(&chain, &broken));
}

#[test]
fn same_hash_compares_all_bytes() {
    let a = hash(1);
    let mut b = hash(1);
    assert!(same_hash(&a, &b));
    b[31] = 1;
    assert!(!same_hash(&a, &b));
}

#[test]
fn args_refuse_zero_storage_reduction_ratio() {
    let r = Args::from_config(
        Command::Generate,
        "src".to_string(),
        "out".to_string(),
        "drops".to_string(),
        "headers".to_string(),
        0,
        100,
        0,
    );
    assert!(matches!(r, Err(ConfigError::ZeroStorageReductionRatio)));

    let args = Args::from_config(
        Command::Restore,
        "src".to_string(),
        "out".to_string(),
        "drops".to_string(),
        "headers".to_string(),
        2,
        100,
        10,
    )
    .ok()
    .unwrap();
    assert_eq!(args.command, Command::Restore);
    assert_eq!(args.droplets_dir, "drops");
    assert_eq!(args.super_blocks_per_epoch, 100);
    assert_eq!(args.storage_reduction_ratio, 10);
    assert_eq!(args.epochs_to_encode, 2);
}

#[test]
fn padded_block_zero_fills() {
    let p = PaddedBlock::new(vec![1, 2, 3], 6);
    assert_eq!(p.block_size, 3);
    assert_eq!(p.data, vec![1, 2, 3, 0, 0, 0]);
    let q = PaddedBlock::new(vec![4], 1);
    assert_eq!(q.data, vec![4]);
}

#[test]
fn blocks_verdict_needs_every_answer_yes_and_a_chain() {
    let good = [
        BlockHashesPair::new(hash(1), hash(0)),
        BlockHashesPair::new(hash(2), hash(1)),
    ];
    assert!(blocks_verdict(&[true, true], &good));
    assert!(!blocks_verdict(&[true, false], &good));
    assert!(!blocks_verdict(&[true], &good));
    assert!(blocks_verdict(&[], &[]));
    let broken = [
        BlockHashesPair::new(hash(1), hash(0)),
        BlockHashesPair::new(hash(2), hash(7)),
    ];
    assert!(!blocks_verdict(&[true, true], &broken));
}

#[test]
fn empty_superblock_is_valid() {
    assert!(validate_superblock(&SmallChain, &SuperBlock::new(3)));
}

#[test]
fn last_requested_epoch() {
    assert!(is_last_requested_epoch(2, 3));
    assert!(!is_last_requested_epoch(1, 3));
    assert!(!is_last_requested_epoch(5, 0));
    assert!(is_last_requested_epoch(usize::MAX - 1, 0));
}
