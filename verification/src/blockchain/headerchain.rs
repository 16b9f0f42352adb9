//! Checking blocks against the header chain.
use vstd::prelude::*;

use crate::super_block::{
    block_bytes, blocks_fit, cropped, BlockHashesPair, RawBlock, SuperBlock, SuperBlockView,
};

verus! {

/// Where the header chain is kept.
pub struct Config {
    /// Header-chain directory
    pub header_chain_dir: String,
}

/// Access to the header chain that recovered blocks are checked against.
pub trait HeaderChainValidator {
    /// Returns true if the block is part of the header-chain, and false otherwise.
    fn validate_presence(&self, block_hash: &[u8; 32]) -> bool;

    /// Returns the hash of the block and the hash of its predecessor, or `None`
    /// when the bytes are not a valid block.
    fn block_hashes(&self, block: &RawBlock) -> Option<BlockHashesPair>;
}

/// Every block names the block before it as its predecessor.
pub open spec fn hashes_chained(pairs: Seq<BlockHashesPair>) -> bool {
    forall|i: int|
        1 <= i < pairs.len() ==> #[trigger] pairs[i].previous_spec() == pairs[i - 1].current_spec()
}

/// The header chain answered `answer` when it was asked whether it holds the
/// block with hash `h`.
pub open spec fn answered_present<H: HeaderChainValidator>(
    v: &H,
    h: [u8; 32],
    answer: bool,
) -> bool {
    call_ensures(H::validate_presence, (v, &h), answer)
}

/// The header chain answered `pair` when it was asked for the hashes of the
/// block `b`.
pub open spec fn answered_hashes<H: HeaderChainValidator>(
    v: &H,
    b: RawBlock,
    pair: Option<BlockHashesPair>,
) -> bool {
    call_ensures(H::block_hashes, (v, &b), pair)
}

/// `blocks` are the blocks of the cropped superblock `c`, and the header chain
/// read the hashes `pairs` from them, one pair from each.
pub open spec fn hashes_read<H: HeaderChainValidator>(
    v: &H,
    c: SuperBlockView,
    blocks: Seq<RawBlock>,
    pairs: Seq<BlockHashesPair>,
) -> bool {
    &&& blocks.len() == c.block_sizes.len()
    &&& pairs.len() == blocks.len()
    &&& forall|i: int|
        0 <= i < blocks.len() ==> (#[trigger] blocks[i]).raw_bytes@ == block_bytes(c, i)
            && answered_hashes(v, blocks[i], Some(pairs[i]))
}

/// The header chain accepted the superblock: with its padding cropped its
/// bytes split into its blocks, a pair of hashes was read from every block,
/// the blocks are chained, and the header chain said it holds every one.
pub open spec fn superblock_passes<H: HeaderChainValidator>(v: &H, sb: SuperBlockView) -> bool {
    let c = cropped(sb);
    &&& blocks_fit(c)
    &&& exists|blocks: Seq<RawBlock>, pairs: Seq<BlockHashesPair>|
        #[trigger] hashes_read(v, c, blocks, pairs) && hashes_chained(pairs) && forall|i: int|
            0 <= i < pairs.len() ==> #[trigger] answered_present(v, pairs[i].current_hash(), true)
}

/// The header chain refused the superblock: with its padding cropped its bytes
/// do not split into its blocks, or no hashes could be read from one of its
/// blocks, or the hashes read are not chained, or the header chain said it
/// does not hold one of them.
pub open spec fn superblock_refused_by<H: HeaderChainValidator>(
    v: &H,
    sb: SuperBlockView,
) -> bool {
    let c = cropped(sb);
    ||| !blocks_fit(c)
    ||| exists|i: int, b: RawBlock|
        #![trigger answered_hashes(v, b, None), block_bytes(c, i)]
        0 <= i < c.block_sizes.len() && b.raw_bytes@ == block_bytes(c, i) && answered_hashes(
            v,
            b,
            None,
        )
    ||| exists|blocks: Seq<RawBlock>, pairs: Seq<BlockHashesPair>|
        #[trigger] hashes_read(v, c, blocks, pairs) && (!hashes_chained(pairs) || exists|i: int|
            0 <= i < pairs.len() && #[trigger] answered_present(v, pairs[i].current_hash(), false))
}

/// Compares two block hashes.
pub fn same_hash(a: &[u8; 32], b: &[u8; 32]) -> (r: bool)
    ensures
        r == (a@ == b@),
{
    let mut i: usize = 0;
    while i < 32
        invariant
            i <= 32,
            a@.len() == 32,
            b@.len() == 32,
            forall|j: int| 0 <= j < i ==> a@[j] == b@[j],
        decreases 32 - i,
    {
        if a[i] != b[i] {
            return false;
        }
        i += 1;
    }
    proof {
        assert(a@ =~= b@);
    }
    true
}

/// Whether blocks pass, given the header chain's answers about their hashes:
/// `present[i]` tells whether the hash of block `i` is in the header chain.
/// There must be an answer for every block, every answer must be yes, and
/// every block must name the block before it as its predecessor.
pub open spec fn blocks_accepted(present: Seq<bool>, pairs: Seq<BlockHashesPair>) -> bool {
    &&& present.len() == pairs.len()
    &&& forall|i: int| 0 <= i < present.len() ==> #[trigger] present[i]
    &&& hashes_chained(pairs)
}

/// Decides on blocks from the header chain's answers about their hashes;
/// fewer answers than blocks mean that some block was not found present.
pub fn blocks_verdict(present: &[bool], block_hashes: &[BlockHashesPair]) -> (r: bool)
    ensures
        r == blocks_accepted(present@, block_hashes@),
{
    if present.len() != block_hashes.len() {
        return false;
    }
    let mut prev_hash = [0u8; 32];
    let mut i: usize = 0;
    while i < block_hashes.len()
        invariant
            present@.len() == block_hashes@.len(),
            i <= block_hashes@.len(),
            forall|k: int| 0 <= k < i ==> #[trigger] present@[k],
            hashes_chained(block_hashes@.take(i as int)),
            i > 0 ==> prev_hash@ == block_hashes@[i - 1].current_spec(),
        decreases block_hashes@.len() - i,
    {
        let pair = block_hashes[i];
        if !present[i] {
            // block is not part of the header-chain
            return false;
        }
        if i > 0 && !same_hash(&pair.previous(), &prev_hash) {
            // incorrect predecessor
            proof {
                assert(block_hashes@[i as int].previous_spec() != block_hashes@[i - 1].current_spec());
            }
            return false;
        }
        proof {
            let t = block_hashes@.take(i + 1);
            assert forall|k: int| 1 <= k < t.len() implies #[trigger] t[k].previous_spec()
                == t[k - 1].current_spec() by {
                if k < i {
                    assert(block_hashes@.take(i as int)[k] == t[k]);
                    assert(block_hashes@.take(i as int)[k - 1] == t[k - 1]);
                }
            }
        }
        prev_hash = pair.current();
        i += 1;
    }
    proof {
        assert(block_hashes@.take(i as int) =~= block_hashes@);
    }
    true
}

/// Returns true if the blocks are part of the header-chain in correct order,
/// and false otherwise: every hash must be known to the header chain and every
/// block must name the block before it as its predecessor. The header chain is
/// asked about the blocks in order, until a block is not found or does not
/// follow its predecessor; `blocks_verdict` then decides on the answers.
pub fn validate_blocks<H: HeaderChainValidator>(
    validator: &H,
    block_hashes: &[BlockHashesPair],
) -> (r: bool)
    ensures
        r ==> hashes_chained(block_hashes@),
        block_hashes@.len() == 0 ==> r,
        r ==> forall|i: int|
            0 <= i < block_hashes@.len() ==> #[trigger] answered_present(
                validator,
                block_hashes@[i].current_hash(),
                true,
            ),
        !r ==> !hashes_chained(block_hashes@) || exists|i: int|
            0 <= i < block_hashes@.len() && #[trigger] answered_present(
                validator,
                block_hashes@[i].current_hash(),
                false,
            ),
{
    let n = block_hashes.len();
    let mut present: Vec<bool> = Vec::with_capacity(n);
    let mut ok = true;
    let mut i: usize = 0;
    while i < n && ok
        invariant
            n == block_hashes@.len(),
            i <= n,
            present@.len() == i,
            forall|k: int|
                0 <= k < i ==> #[trigger] answered_present(
                    validator,
                    block_hashes@[k].current_hash(),
                    present@[k],
                ),
            ok ==> forall|k: int| 0 <= k < i ==> #[trigger] present@[k],
            !ok ==> !hashes_chained(block_hashes@) || exists|k: int|
                0 <= k < n && #[trigger] answered_present(
                    validator,
                    block_hashes@[k].current_hash(),
                    false,
                ),
        decreases n - i,
    {
        let pair = block_hashes[i];
        let cur = pair.current();
        let found = validator.validate_presence(&cur);
        proof {
            assert(answered_present(validator, block_hashes@[i as int].current_hash(), found));
        }
        present.push(found);
        ok = found && (i == 0 || same_hash(&pair.previous(), &block_hashes[i - 1].current()));
        proof {
            if !found {
                assert(answered_present(validator, block_hashes@[i as int].current_hash(), false));
            } else if !ok {
                assert(block_hashes@[i as int].previous_spec() != block_hashes@[i - 1].current_spec());
                assert(!hashes_chained(block_hashes@));
            }
        }
        i += 1;
    }
    let r = blocks_verdict(present.as_slice(), block_hashes);
    proof {
        if r {
            assert forall|k: int| 0 <= k < n implies #[trigger] answered_present(
                validator,
                block_hashes@[k].current_hash(),
                true,
            ) by {
                assert(present@[k]);
            }
        } else if ok {
            assert(i == n);
            assert forall|k: int| 0 <= k < n implies #[trigger] present@[k] by {}
            assert(!hashes_chained(block_hashes@));
        }
        if n == 0 {
            assert(hashes_chained(block_hashes@));
        }
    }
    r
}

/// Checks that a recovered superblock holds blocks of the header chain in
/// order: its bytes must split into its blocks, every block must be a valid
/// block, and `validate_blocks` must accept their hashes.
pub fn validate_superblock<H: HeaderChainValidator>(validator: &H, superblock: &SuperBlock) -> (r:
    bool)
    ensures
        r ==> blocks_fit(cropped(superblock@)),
        blocks_fit(cropped(superblock@)) && cropped(superblock@).block_sizes.len() == 0 ==> r,
        r ==> superblock_passes(validator, superblock@),
        !r ==> superblock_refused_by(validator, superblock@),
{
    let ghost c = cropped(superblock@);
    let blocks = match superblock.clone().into_blocks() {
        Ok(blocks) => blocks,
        Err(_) => return false,
    };
    let mut hashes: Vec<BlockHashesPair> = Vec::with_capacity(blocks.len());
    let mut i: usize = 0;
    while i < blocks.len()
        invariant
            c == cropped(superblock@),
            blocks_fit(c),
            i <= blocks@.len(),
            hashes@.len() == i,
            blocks@.len() == c.block_sizes.len(),
            forall|k: int|
                0 <= k < blocks@.len() ==> #[trigger] blocks@[k].raw_bytes@ == block_bytes(c, k),
            forall|k: int|
                0 <= k < i ==> #[trigger] answered_hashes(validator, blocks@[k], Some(hashes@[k])),
        decreases blocks@.len() - i,
    {
        match validator.block_hashes(&blocks[i]) {
            Some(pair) => {
                proof {
                    assert(answered_hashes(validator, blocks@[i as int], Some(pair)));
                }
                hashes.push(pair);
            },
            None => {
                proof {
                    assert(answered_hashes(validator, blocks@[i as int], None));
                    assert(block_bytes(c, i as int) == blocks@[i as int].raw_bytes@);
                }
                return false;
            },
        }
        i += 1;
    }
    let r = validate_blocks(validator, hashes.as_slice());
    proof {
        assert(hashes_read(validator, c, blocks@, hashes@));
    }
    r
}

/// The header chain never gives both answers about one hash.
pub open spec fn presence_consistent<H: HeaderChainValidator>(v: &H) -> bool {
    forall|h: [u8; 32]|
        !(#[trigger] answered_present(v, h, true) && answered_present(v, h, false))
}

/// The header chain reads the same hashes from blocks with the same bytes.
pub open spec fn hashes_consistent<H: HeaderChainValidator>(v: &H) -> bool {
    forall|b1: RawBlock, b2: RawBlock, p1: Option<BlockHashesPair>, p2: Option<BlockHashesPair>|
        #![trigger answered_hashes(v, b1, p1), answered_hashes(v, b2, p2)]
        b1.raw_bytes@ == b2.raw_bytes@ && answered_hashes(v, b1, p1) && answered_hashes(v, b2, p2)
            ==> p1 == p2
}

/// What `validate_blocks` answers: true only when the blocks are chained and
/// the header chain said it holds every one of them, false only when they are
/// not chained or the header chain said it does not hold one of them; and,
/// with a header chain that never gives both answers about a hash, two calls
/// on the same hashes give the same answer.
pub proof fn lemma_validate_blocks_law<H: HeaderChainValidator>(
    v: &H,
    pairs: &[BlockHashesPair],
    r1: bool,
    r2: bool,
)
    requires
        call_ensures(validate_blocks::<H>, (v, pairs), r1),
        call_ensures(validate_blocks::<H>, (v, pairs), r2),
    ensures
        r1 ==> hashes_chained(pairs@) && forall|i: int|
            0 <= i < pairs@.len() ==> #[trigger] answered_present(v, pairs@[i].current_hash(), true),
        !r1 ==> !hashes_chained(pairs@) || exists|i: int|
            0 <= i < pairs@.len() && #[trigger] answered_present(
                v,
                pairs@[i].current_hash(),
                false,
            ),
        presence_consistent(v) ==> r1 == r2,
{
    if presence_consistent(v) && r1 != r2 {
        let (t, f) = if r1 {
            (r1, r2)
        } else {
            (r2, r1)
        };
        if hashes_chained(pairs@) {
            let i = choose|i: int|
                0 <= i < pairs@.len() && #[trigger] answered_present(
                    v,
                    pairs@[i].current_hash(),
                    false,
                );
            assert(answered_present(v, pairs@[i].current_hash(), true));
        }
    }
}

/// What `validate_superblock` answers: true only when, with its padding
/// cropped, the superblock splits into its blocks, hashes were read from every
/// block, they are chained and the header chain holds every one; false only
/// when it does not split, or no hashes could be read from one of its blocks,
/// or the hashes are not chained, or the header chain does not hold one of
/// them; and, with a header chain that answers consistently, two calls on the
/// same superblock give the same answer.
pub proof fn lemma_validate_superblock_law<H: HeaderChainValidator>(
    v: &H,
    sb: &SuperBlock,
    r1: bool,
    r2: bool,
)
    requires
        call_ensures(validate_superblock::<H>, (v, sb), r1),
        call_ensures(validate_superblock::<H>, (v, sb), r2),
    ensures
        r1 ==> superblock_passes(v, sb@),
        !r1 ==> superblock_refused_by(v, sb@),
        presence_consistent(v) && hashes_consistent(v) ==> r1 == r2,
{
    if presence_consistent(v) && hashes_consistent(v) && r1 != r2 {
        lemma_passes_excludes_refused(v, sb@);
    }
}

/// With a header chain that answers consistently, no superblock both passes
/// and is refused.
pub proof fn lemma_passes_excludes_refused<H: HeaderChainValidator>(v: &H, sb: SuperBlockView)
    requires
        presence_consistent(v),
        hashes_consistent(v),
    ensures
        !(superblock_passes(v, sb) && superblock_refused_by(v, sb)),
{
    let c = cropped(sb);
    if superblock_passes(v, sb) && superblock_refused_by(v, sb) {
        let (blocks, pairs) = choose|blocks: Seq<RawBlock>, pairs: Seq<BlockHashesPair>|
            #[trigger] hashes_read(v, c, blocks, pairs) && hashes_chained(pairs) && forall|i: int|
                0 <= i < pairs.len() ==> #[trigger] answered_present(v, pairs[i].current_hash(), true);
        if exists|i: int, b: RawBlock|
            #![trigger answered_hashes(v, b, None), block_bytes(c, i)]
            0 <= i < c.block_sizes.len() && b.raw_bytes@ == block_bytes(c, i) && answered_hashes(
                v,
                b,
                None,
            ) {
            let (i, b) = choose|i: int, b: RawBlock|
                #![trigger answered_hashes(v, b, None), block_bytes(c, i)]
                0 <= i < c.block_sizes.len() && b.raw_bytes@ == block_bytes(c, i) && answered_hashes(
                    v,
                    b,
                    None,
                );
            assert(blocks[i].raw_bytes@ == block_bytes(c, i));
            assert(answered_hashes(v, blocks[i], Some(pairs[i])));
        } else if blocks_fit(c) {
            let (blocks2, pairs2) = choose|blocks2: Seq<RawBlock>, pairs2: Seq<BlockHashesPair>|
                #[trigger] hashes_read(v, c, blocks2, pairs2) && (!hashes_chained(pairs2) || exists|
                    i: int,
                |
                    0 <= i < pairs2.len() && #[trigger] answered_present(
                        v,
                        pairs2[i].current_hash(),
                        false,
                    ));
            assert forall|i: int| 0 <= i < pairs.len() implies pairs2[i] == pairs[i] by {
                assert(blocks[i].raw_bytes@ == block_bytes(c, i));
                assert(blocks2[i].raw_bytes@ == block_bytes(c, i));
                assert(answered_hashes(v, blocks[i], Some(pairs[i])));
                assert(answered_hashes(v, blocks2[i], Some(pairs2[i])));
            }
            assert(pairs2 =~= pairs);
            if hashes_chained(pairs2) {
                let i = choose|i: int|
                    0 <= i < pairs2.len() && #[trigger] answered_present(
                        v,
                        pairs2[i].current_hash(),
                        false,
                    );
                assert(answered_present(v, pairs[i].current_hash(), true));
            }
        }
    }
}

} // verus!
