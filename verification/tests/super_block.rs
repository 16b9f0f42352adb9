use fountainhead::super_block::{RawBlock, Size, SuperBlock, SuperBlockError, SUPERBLOCK_MAX_SIZE};

fn three_block_superblock() -> SuperBlock {
    let block1 = Vec::from(b"Some block data");
    let block2 = Vec::from(b"Another block");
    let block3 = Vec::from(b"Last and longest block");
    let b1 = RawBlock::new(&block1);
    let b2 = RawBlock::new(&block2);
    let b3 = RawBlock::new(&block3);

    let mut sb = SuperBlock::new(50);
    sb.add(b1).unwrap();
    sb.add(b2).unwrap();
    sb.add(b3).unwrap();
    sb
}

#[test]
fn test_superblock() {
    let sb = three_block_superblock();

    let encoded_bytes = sb.clone().encode_to_bytes();
    let decoded: SuperBlock = SuperBlock::decode_from_bytes(&encoded_bytes).unwrap();

    assert_eq!(&decoded, &sb);

    let expected_blocks = sb.into_blocks().unwrap();
    let decoded_blocks = decoded.into_blocks().unwrap();

    assert_eq!(decoded_blocks, expected_blocks);
}

#[test]
fn test_superblock_basic_xor() {
    let mut shorter = SuperBlock {
        num: 41,
        block_count: 24259,
        raw_bytes: Vec::from(b"Some data bytes"),
        bytes_length: 15,
        block_sizes: vec![Size(15)],
    };
    let longer = SuperBlock {
        num: 1100,
        block_count: 3,
        raw_bytes: Vec::from(b"Some much longer data bytes"),
        bytes_length: 27,
        block_sizes: vec![Size(27)],
    };
    let mut longest = SuperBlock {
        num: 1100,
        block_count: 58962,
        raw_bytes: Vec::from(b"Message with the longest data bytes"),
        bytes_length: 35,
        block_sizes: vec![Size(35)],
    };

    assert!(shorter.raw_bytes.len() < longer.raw_bytes.len());
    assert!(longer.raw_bytes.len() < longest.raw_bytes.len());

    assert_eq!(longest.size(), 35);
    assert_eq!(longest.available_space(), SUPERBLOCK_MAX_SIZE - 35);

    let mut xored = SuperBlock::new(0);

    // empty lhs becomes rhs
    xored.bitxor_assign(shorter.clone());
    assert_eq!(xored, shorter);

    // then becomes obfuscated by rhs
    xored.bitxor_assign(longer.clone());
    assert_ne!(xored, longer);

    // then becomes clear again by previous rhs
    xored.bitxor_assign(shorter.clone());
    assert_eq!(xored, longer);

    // longer lhs XORed by shorter rhs can be decoded
    let original = longest.clone();
    assert_ne!(original, shorter);
    assert_ne!(original, longer);

    // encoding
    longest.bitxor_assign(shorter.clone());
    assert_ne!(longest, original);

    longest.bitxor_assign(longer.clone());

    // encoded superblock it can be correctly encoded and decoded back
    let encoded = longest.clone().encode_to_bytes();
    let decoded: SuperBlock = SuperBlock::decode_from_bytes(&encoded).unwrap();
    assert_eq!(decoded, longest);

    // decoding
    longest.bitxor_assign(shorter.clone());
    longest.bitxor_assign(longer.clone());

    assert_eq!(longest, original);

    // shorter lhs XORed by longer rhs can be easily decoded,
    // because it will be zero-padded to the length of the rhs
    let original_shorter = shorter.clone();
    assert_ne!(original_shorter, longer);

    shorter.bitxor_assign(longer.clone());
    assert_ne!(shorter, original_shorter);

    shorter.bitxor_assign(longer.clone());
    assert_ne!(shorter, original_shorter);
    assert!(shorter.raw_bytes.len() > original_shorter.raw_bytes.len());
    assert_eq!(
        shorter.raw_bytes[0..original_shorter.raw_bytes.len()],
        original_shorter.raw_bytes
    );
    shorter.crop_padding();
    assert_eq!(shorter, original_shorter);
}

fn filled_superblock(num: usize, byte: u8, len: usize) -> SuperBlock {
    let mut sb = SuperBlock::new(num);
    let block_data = vec![byte; len];
    while sb.available_space() > block_data.len() {
        let block = RawBlock {
            raw_bytes: block_data.clone(),
        };
        sb.add(block).unwrap();
    }
    sb
}

#[test]
fn test_superblock_xor() {
    let block_data1 = vec![222_u8; 423];
    let sb1 = filled_superblock(123, 222, 423);

    let consensus_bytes = sb1.clone().encode_to_bytes();
    let back_from_bytes = SuperBlock::decode_from_bytes(&consensus_bytes).unwrap();
    assert!(
        sb1 == back_from_bytes,
        "incorrectly decoded superblock from consensus bytes"
    );
    assert_eq!(sb1.block_count(), sb1.block_sizes.len());

    let sb2 = filled_superblock(223, 123, 350);
    let consensus_bytes = sb2.clone().encode_to_bytes();
    let back_from_bytes = SuperBlock::decode_from_bytes(&consensus_bytes).unwrap();
    assert!(
        sb2 == back_from_bytes,
        "incorrectly decoded superblock from consensus bytes"
    );

    let sb3 = filled_superblock(323, 65, 136588);
    let consensus_bytes = sb3.clone().encode_to_bytes();
    let back_from_bytes = SuperBlock::decode_from_bytes(&consensus_bytes).unwrap();
    assert!(
        sb3 == back_from_bytes,
        "incorrectly decoded superblock from consensus bytes"
    );

    let mut xored = SuperBlock::new(0);
    xored.bitxor_assign_ref(&sb1);
    xored.bitxor_assign_ref(&sb2);
    xored.bitxor_assign_ref(&sb3);

    let max_size = [sb1.size(), sb2.size(), sb3.size()]
        .into_iter()
        .max()
        .unwrap();
    assert_eq!(xored.size(), max_size);

    let consensus_bytes = xored.clone().encode_to_bytes();
    let back_from_bytes = SuperBlock::decode_from_bytes(&consensus_bytes).unwrap();
    assert!(
        xored == back_from_bytes,
        "incorrectly decoded superblock from consensus bytes"
    );

    xored = back_from_bytes;

    let mut decoded = xored;
    decoded.bitxor_assign(sb3);
    decoded.bitxor_assign(sb2);

    assert!(decoded.block_sizes.len() > sb1.block_sizes.len());
    assert!(decoded.size() == sb1.size());

    // the padding has to be cropped to get the same block_sizes vector
    decoded.crop_padding();

    assert!(decoded.block_sizes == sb1.block_sizes);
    assert!(decoded.block_count() == sb1.block_count());
    assert!(decoded == sb1, "incorrectly decoded superblock");

    let block_count = decoded.block_count();
    let decoded_blocks = decoded.into_blocks().unwrap();
    assert_eq!(decoded_blocks.len(), block_count);
    assert_eq!(decoded_blocks.first().unwrap().raw_bytes, block_data1);
}

#[test]
fn test_superblock_max_size() {
    let mut sb = SuperBlock::new(44444);
    let block_data = vec![213_u8; 1_000_000];

    while sb.available_space() >= block_data.len() {
        let block = RawBlock {
            raw_bytes: block_data.clone(),
        };
        sb.add(block).unwrap();
    }

    assert_eq!(sb.block_count(), 6);
    assert_eq!(sb.size(), SUPERBLOCK_MAX_SIZE);

    // cannot add more
    let r = sb.add(RawBlock {
        raw_bytes: "whatever".bytes().collect(),
    });
    assert!(r.is_err());

    let consensus_bytes = sb.clone().encode_to_bytes();
    let decoded_from_bytes = SuperBlock::decode_from_bytes(&consensus_bytes).unwrap();
    assert!(
        sb == decoded_from_bytes,
        "incorrectly decoded superblock from consensus bytes"
    );
    assert_eq!(
        decoded_from_bytes.into_blocks().unwrap()[0].size(),
        block_data.len()
    );
}

#[test]
fn add_reports_needed_and_available_space() {
    let mut sb = SuperBlock::new(1);
    sb.add(RawBlock::new(&vec![0u8; SUPERBLOCK_MAX_SIZE - 3])).unwrap();
    let r = sb.add(RawBlock::new(b"four"));
    assert_eq!(
        r,
        Err(SuperBlockError::NotEnoughSpace {
            needed: 4,
            available: 3
        })
    );
    assert_eq!(sb.block_count(), 1);
    assert_eq!(sb.size(), SUPERBLOCK_MAX_SIZE - 3);
}

#[test]
fn add_keeps_counts_and_sizes() {
    let sb = three_block_superblock();
    assert_eq!(sb.num, 50);
    assert_eq!(sb.block_count(), 3);
    assert_eq!(sb.bytes_length, 15 + 13 + 22);
    assert_eq!(sb.block_sizes, vec![Size(15), Size(13), Size(22)]);
    assert_eq!(&sb.raw_bytes[15..28], b"Another block");
}

#[test]
fn empty_superblock_encoding_is_five_zero_counters() {
    let bytes = SuperBlock::new(0).encode_to_bytes();
    assert_eq!(bytes, vec![0u8, 0, 0, 0, 0]);
}

#[test]
fn superblock_number_uses_compact_size_prefix() {
    // 0xFD takes the three-byte form: marker then two little-endian bytes
    let bytes = SuperBlock::new(0xFD).encode_to_bytes();
    assert_eq!(&bytes[0..3], &[0xFD, 0xFD, 0x00]);
    // 0x1_0000 takes the five-byte form
    let bytes = SuperBlock::new(0x1_0000).encode_to_bytes();
    assert_eq!(&bytes[0..5], &[0xFE, 0x00, 0x00, 0x01, 0x00]);
}

#[test]
fn decode_rejects_trailing_bytes() {
    let mut bytes = three_block_superblock().encode_to_bytes();
    bytes.push(0);
    assert_eq!(
        SuperBlock::decode_from_bytes(&bytes),
        Err(SuperBlockError::Malformed)
    );
}

#[test]
fn decode_rejects_truncated_bytes() {
    let bytes = three_block_superblock().encode_to_bytes();
    assert_eq!(
        SuperBlock::decode_from_bytes(&bytes[..bytes.len() - 1]),
        Err(SuperBlockError::Malformed)
    );
    assert_eq!(
        SuperBlock::decode_from_bytes(&[]),
        Err(SuperBlockError::Malformed)
    );
}

#[test]
fn decode_rejects_non_minimal_compact_size() {
    // number 1 written in the three-byte form is not canonical
    let bytes = vec![0xFDu8, 0x01, 0x00, 0, 0, 0, 0];
    assert_eq!(
        SuperBlock::decode_from_bytes(&bytes),
        Err(SuperBlockError::Malformed)
    );
    let ok = vec![0x01u8, 0, 0, 0, 0];
    assert_eq!(SuperBlock::decode_from_bytes(&ok).unwrap().num, 1);
}

#[test]
fn into_blocks_fails_when_sizes_exceed_bytes() {
    let sb = SuperBlock {
        num: 0,
        block_count: 2,
        bytes_length: 4,
        block_sizes: vec![Size(3), Size(3)],
        raw_bytes: vec![1, 2, 3, 4],
    };
    assert_eq!(sb.into_blocks(), Err(SuperBlockError::MissingBlockBytes));
}

#[test]
fn xor_with_itself_gives_zeroes() {
    let sb = three_block_superblock();
    let mut x = sb.clone();
    x.bitxor_assign_ref(&sb);
    assert_eq!(x.num, 0);
    assert_eq!(x.block_count, 0);
    assert_eq!(x.bytes_length, 0);
    assert!(x.raw_bytes.iter().all(|b| *b == 0));
    assert_eq!(x.raw_bytes.len(), sb.raw_bytes.len());
    assert!(x.block_sizes.iter().all(|s| s.0 == 0));
}

#[test]
fn xor_is_commutative_on_values() {
    let a = three_block_superblock();
    let b = filled_superblock(7, 9, 1000);
    let mut ab = a.clone();
    ab.bitxor_assign_ref(&b);
    let mut ba = b.clone();
    ba.bitxor_assign_ref(&a);
    assert_eq!(ab, ba);
}

#[test]
fn raw_block_size_and_hashes_pair() {
    let b = RawBlock::new(b"abc");
    assert_eq!(b.size(), 3);
    let p = fountainhead::super_block::BlockHashesPair::new([1u8; 32], [2u8; 32]);
    assert_eq!(p.current(), [1u8; 32]);
    assert_eq!(p.previous(), [2u8; 32]);
}

#[test]
fn size_conversions() {
    let s: Size = Size::from(12usize);
    assert_eq!(s, Size(12));
    let n: usize = usize::from(Size(34));
    assert_eq!(n, 34);
}
