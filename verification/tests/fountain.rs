use fountainhead::blockchain::headerchain::HeaderChainValidator;
use fountainhead::decoder::dummy_decoder::DummyDecoder;
use fountainhead::decoder::fountain_decoder::FountainDecoder;
use fountainhead::droplet::{Droplet, Neighbor};
use fountainhead::encoder::dummy_encoder::DummyEncoder;
use fountainhead::encoder::fountain_encoder::{EncoderError, FountainEncoder};
use fountainhead::random::random_distinct;
use fountainhead::super_block::{BlockHashesPair, RawBlock, SuperBlock};

/// Accepts every block, giving every block the same hashes.
struct AcceptAll;

impl HeaderChainValidator for AcceptAll {
    fn validate_presence(&self, _block_hash: &[u8; 32]) -> bool {
        true
    }

    fn block_hashes(&self, _block: &RawBlock) -> Option<BlockHashesPair> {
        Some(BlockHashesPair::new([0u8; 32], [0u8; 32]))
    }
}

/// Knows no block.
struct RejectAll;

impl HeaderChainValidator for RejectAll {
    fn validate_presence(&self, _block_hash: &[u8; 32]) -> bool {
        false
    }

    fn block_hashes(&self, _block: &RawBlock) -> Option<BlockHashesPair> {
        Some(BlockHashesPair::new([0u8; 32], [0u8; 32]))
    }
}

fn sample_superblocks(count: usize) -> Vec<SuperBlock> {
    let mut out = Vec::new();
    for i in 0..count {
        let mut sb = SuperBlock::new(i);
        for j in 0..(i + 1) {
            let data: Vec<u8> = (0..(10 + 7 * j + i)).map(|b| (b * 31 + i * 7 + j) as u8).collect();
            sb.add(RawBlock::new(&data)).unwrap();
        }
        out.push(sb);
    }
    out
}

fn xor_of(sbs: &[SuperBlock], picks: &[usize]) -> SuperBlock {
    let mut x = SuperBlock::new(0);
    for p in picks {
        x.bitxor_assign_ref(&sbs[*p]);
    }
    x
}

fn droplet_of(num: usize, sbs: &[SuperBlock], picks: &[usize]) -> Droplet {
    Droplet::new(
        num,
        picks.iter().map(|p| Neighbor::new(*p)).collect(),
        xor_of(sbs, picks),
    )
}

#[test]
fn fountain_encoder_requires_initialization() {
    let mut encoder = FountainEncoder::new();
    let mut rng = rand::rng();
    assert_eq!(
        encoder.generate_droplet(1, &mut rng).unwrap_err(),
        EncoderError::StorageNotInitialized
    );
    assert_eq!(
        encoder.truncate_storage(),
        Err(EncoderError::StorageNotInitialized)
    );
}

#[test]
fn fountain_encoder_droplets_are_xor_of_distinct_neighbours() {
    let sbs = sample_superblocks(6);
    let mut encoder = FountainEncoder::new();
    encoder.init_epoch(3, sbs.clone(), 100);
    let mut rng = rand::rng();
    for round in 0..20 {
        let degree = 1 + round % 6;
        let droplet = encoder.generate_droplet(degree, &mut rng).unwrap();
        assert_eq!(droplet.num, 100 + round);
        let neighbors: Vec<usize> = droplet.neighbors().iter().map(|n| n.index()).collect();
        assert_eq!(neighbors.len(), degree);
        for (a, x) in neighbors.iter().enumerate() {
            assert!(*x < sbs.len());
            for y in neighbors.iter().skip(a + 1) {
                assert_ne!(x, y);
            }
        }
        assert_eq!(droplet.xored_superblock(), &xor_of(&sbs, &neighbors));
    }
    assert_eq!(encoder.truncate_storage(), Ok(()));
    assert_eq!(
        encoder.generate_droplet(1, &mut rng).unwrap_err(),
        EncoderError::StorageNotInitialized
    );
}

#[test]
fn random_distinct_gives_distinct_numbers_below_bound() {
    let mut rng = rand::rng();
    for count in 0..=10 {
        let v = random_distinct(&mut rng, 10, count);
        assert_eq!(v.len(), count);
        let mut sorted = v.clone();
        sorted.sort();
        sorted.dedup();
        assert_eq!(sorted.len(), count);
        assert!(v.iter().all(|x| *x < 10));
    }
}

#[test]
fn fountain_decoder_peels_a_chain_of_droplets() {
    let sbs = sample_superblocks(4);
    let droplets = vec![
        droplet_of(0, &sbs, &[2, 3]),
        droplet_of(1, &sbs, &[0, 1]),
        droplet_of(2, &sbs, &[0]),
        droplet_of(3, &sbs, &[1, 2]),
    ];
    let validator = AcceptAll;
    let mut decoder = FountainDecoder::new(droplets, &validator, 4);
    for i in (0..4).rev() {
        let sb = decoder.get_decoded_superblock(i).unwrap();
        assert_eq!(sb, sbs[i]);
    }
    // asking again gives the stored superblock
    assert_eq!(decoder.get_decoded_superblock(2).unwrap(), sbs[2]);
}

#[test]
fn fountain_decoder_needs_enough_droplets() {
    let sbs = sample_superblocks(3);
    let droplets = vec![droplet_of(0, &sbs, &[0, 1]), droplet_of(1, &sbs, &[1, 2])];
    let validator = AcceptAll;
    let mut decoder = FountainDecoder::new(droplets, &validator, 3);
    assert!(decoder.get_decoded_superblock(0).is_none());
    decoder.add_encoded_droplet(droplet_of(2, &sbs, &[2]));
    assert_eq!(decoder.get_decoded_superblock(0).unwrap(), sbs[0]);
    assert_eq!(decoder.get_decoded_superblock(1).unwrap(), sbs[1]);
}

#[test]
fn fountain_decoder_rejects_blocks_unknown_to_header_chain() {
    let sbs = sample_superblocks(2);
    let droplets = vec![droplet_of(0, &sbs, &[0]), droplet_of(1, &sbs, &[1])];
    let validator = RejectAll;
    let mut decoder = FountainDecoder::new(droplets, &validator, 2);
    assert!(decoder.get_decoded_superblock(0).is_none());
    assert!(decoder.get_decoded_superblock(1).is_none());
}

#[test]
fn fountain_encoder_and_decoder_round_trip() {
    let sbs = sample_superblocks(5);
    let mut encoder = FountainEncoder::new();
    encoder.init_epoch(0, sbs.clone(), 0);
    let mut rng = rand::rng();
    let mut droplets = Vec::new();
    for _ in 0..80 {
        droplets.push(encoder.generate_droplet(1, &mut rng).unwrap());
    }
    for _ in 0..20 {
        droplets.push(encoder.generate_droplet(2, &mut rng).unwrap());
    }
    let validator = AcceptAll;
    let mut decoder = FountainDecoder::new(droplets, &validator, 5);
    for i in 0..5 {
        assert_eq!(decoder.get_decoded_superblock(i).unwrap(), sbs[i]);
    }
}

#[test]
fn dummy_encoder_and_decoder_round_trip() {
    let sbs = sample_superblocks(3);
    let mut encoder = DummyEncoder::new();
    assert_eq!(
        encoder.generate_droplet().unwrap_err(),
        EncoderError::StorageNotInitialized
    );
    encoder.init_epoch(0, sbs.clone(), 0);
    let mut decoder = DummyDecoder::new();
    for i in 0..3 {
        let d = encoder.generate_droplet().unwrap();
        assert_eq!(d.num, i);
        assert_eq!(d.neighbors(), vec![Neighbor::new(i)]);
        decoder.add_encoded_droplet(d);
    }
    assert_eq!(
        encoder.generate_droplet().unwrap_err(),
        EncoderError::MissingSuperBlock
    );
    assert_eq!(encoder.truncate_storage(), Ok(()));
    assert_eq!(
        encoder.truncate_storage(),
        Err(EncoderError::StorageNotInitialized)
    );

    decoder.decode();
    // superblocks come out smallest number first
    assert!(decoder.get_decoded_superblock(1).is_none());
    assert_eq!(decoder.get_decoded_superblock(0).unwrap(), sbs[0]);
    assert_eq!(decoder.get_decoded_superblock(1).unwrap(), sbs[1]);
    assert_eq!(decoder.get_decoded_superblock(2).unwrap(), sbs[2]);
    assert!(decoder.get_decoded_superblock(2).is_none());
}

#[test]
fn dummy_decoder_keeps_first_droplet_for_a_number() {
    let sbs = sample_superblocks(2);
    let mut decoder = DummyDecoder::new();
    decoder.add_encoded_droplet(droplet_of(0, &sbs, &[0]));
    decoder.add_encoded_droplet(Droplet::new(1, vec![Neighbor::new(0)], sbs[1].clone()));
    decoder.decode();
    assert_eq!(decoder.get_decoded_superblock(0).unwrap(), xor_of(&sbs, &[0]));
}

#[test]
fn peel_candidate_and_accept_peeled_step_by_step() {
    let sbs = sample_superblocks(2);
    let droplets = vec![droplet_of(0, &sbs, &[0, 1]), droplet_of(1, &sbs, &[0])];
    let validator = AcceptAll;
    let mut decoder = FountainDecoder::new(droplets, &validator, 2);
    // two unknown neighbours: no peel yet
    assert!(decoder.peel_candidate(0).is_none());
    let (u, candidate) = decoder.peel_candidate(1).unwrap();
    assert_eq!(u, 0);
    assert_eq!(candidate, sbs[0]);
    // a refused peel changes nothing
    assert!(decoder.accept_peeled(1, u, candidate.clone(), false, 0).is_none());
    assert!(decoder.peel_candidate(0).is_none());
    // an accepted peel is recovered, and returned when it is the one asked for
    assert_eq!(decoder.accept_peeled(1, u, candidate, true, 0).unwrap(), sbs[0]);
    let (u, candidate) = decoder.peel_candidate(0).unwrap();
    assert_eq!(u, 1);
    assert_eq!(candidate, sbs[1]);
    assert!(decoder.accept_peeled(0, u, candidate, true, 7).is_none());
    assert_eq!(decoder.get_decoded_superblock(1).unwrap(), sbs[1]);
}

/// Refuses every block whose first byte is 0xEE.
struct RefuseMarked;

impl HeaderChainValidator for RefuseMarked {
    fn validate_presence(&self, _block_hash: &[u8; 32]) -> bool {
        true
    }

    fn block_hashes(&self, block: &RawBlock) -> Option<BlockHashesPair> {
        if block.raw_bytes.first() == Some(&0xEE) {
            None
        } else {
            Some(BlockHashesPair::new([0u8; 32], [0u8; 32]))
        }
    }
}

#[test]
fn refused_droplet_is_skipped_and_peeling_goes_on() {
    let sbs = sample_superblocks(2);
    let mut corrupted = SuperBlock::new(0);
    corrupted.add(RawBlock::new(&[0xEE, 1, 2])).unwrap();
    let droplets = vec![
        Droplet::new(0, vec![Neighbor::new(0)], corrupted),
        droplet_of(1, &sbs, &[0, 1]),
        droplet_of(2, &sbs, &[0]),
    ];
    let validator = RefuseMarked;
    let mut decoder = FountainDecoder::new(droplets, &validator, 2);
    // the corrupted droplet is refused; the good one for superblock 0 and then
    // the two-neighbour droplet give superblock 1 in a later pass
    assert_eq!(decoder.get_decoded_superblock(1).unwrap(), sbs[1]);
    assert_eq!(decoder.get_decoded_superblock(0).unwrap(), sbs[0]);
}
