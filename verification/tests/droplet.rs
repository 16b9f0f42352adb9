use fountainhead::droplet::{Droplet, DropletError, Neighbor};
use fountainhead::super_block::{RawBlock, SuperBlock};

fn three_block_superblock() -> SuperBlock {
    let block1 = Vec::from(b"Some block data");
    let block2 = Vec::from(b"Another block");
    let block3 = Vec::from(b"Last and longest block");
    let b1 = RawBlock::new(&block1);
    let b2 = RawBlock::new(&block2);
    let b3 = RawBlock::new(&block3);

    let mut sb = SuperBlock::new(50);
    sb.add(b1).unwrap();
    sb.add(b2).unwrap();
    sb.add(b3).unwrap();
    sb
}

#[test]
fn test_droplet() {
    let sb = three_block_superblock();

    let neighbors = vec![Neighbor::new(3), Neighbor::new(19854)];
    let droplet = Droplet::new(231, neighbors, sb);

    let encoded_bytes = droplet.encode_to_bytes();
    let decoded: Droplet = Droplet::decode_from_bytes(&encoded_bytes).unwrap();

    assert_eq!(&decoded, &droplet);

    let expected_blocks = droplet.into_xored_superblock().into_blocks().unwrap();
    let decoded_blocks = decoded.into_xored_superblock().into_blocks().unwrap();

    assert_eq!(decoded_blocks, expected_blocks);
}

#[test]
fn droplet_accessors() {
    let sb = three_block_superblock();
    let size = sb.size();
    let droplet = Droplet::new(7, vec![Neighbor::new(4), Neighbor::new(9)], sb.clone());
    assert_eq!(droplet.num, 7);
    assert_eq!(droplet.neighbor_count(), 2);
    assert_eq!(droplet.neighbor(0), 4);
    assert_eq!(droplet.neighbor(1), 9);
    assert_eq!(droplet.neighbors(), vec![Neighbor::new(4), Neighbor::new(9)]);
    assert_eq!(droplet.data_size(), size);
    assert_eq!(droplet.xored_superblock(), &sb);
}

#[test]
fn droplet_encoding_starts_with_number_and_neighbours() {
    let droplet = Droplet::new(5, vec![Neighbor::new(1), Neighbor::new(300)], SuperBlock::new(0));
    let bytes = droplet.encode_to_bytes();
    // number, neighbour count, 1, 300 as 0xFD 0x2C 0x01, then an empty superblock
    assert_eq!(bytes, vec![5u8, 2, 1, 0xFD, 0x2C, 0x01, 0, 0, 0, 0, 0]);
}

#[test]
fn droplet_decode_rejects_trailing_and_short_input() {
    let droplet = Droplet::new(5, vec![Neighbor::new(1)], three_block_superblock());
    let mut bytes = droplet.encode_to_bytes();
    assert_eq!(
        Droplet::decode_from_bytes(&bytes[..bytes.len() - 1]),
        Err(DropletError::Malformed)
    );
    bytes.push(7);
    assert_eq!(
        Droplet::decode_from_bytes(&bytes),
        Err(DropletError::Malformed)
    );
}

#[test]
fn droplet_decode_rejects_number_over_limit() {
    // 0x0200_0001 is above the 32 MiB limit on a single value
    let droplet = Droplet::new(0x0200_0001, vec![], SuperBlock::new(0));
    let bytes = droplet.encode_to_bytes();
    assert_eq!(
        Droplet::decode_from_bytes(&bytes),
        Err(DropletError::Malformed)
    );
    let at_limit = Droplet::new(0x0200_0000, vec![], SuperBlock::new(0));
    let bytes = at_limit.encode_to_bytes();
    assert_eq!(Droplet::decode_from_bytes(&bytes).unwrap(), at_limit);
}

#[test]
fn neighbor_conversions() {
    let n = Neighbor::new(12);
    assert_eq!(n.index(), 12);
    assert_eq!(Neighbor::from(3usize), Neighbor::new(3));
    assert_eq!(usize::from(Neighbor::new(8)), 8);
}

#[test]
fn neighbor_from_reference_and_equality() {
    let n = Neighbor::new(41);
    assert_eq!(usize::from(&n), 41);
    assert_eq!(Neighbor::new(5) == Neighbor::new(5), true);
    assert_eq!(Neighbor::new(5) == Neighbor::new(6), false);
}
