//! Superblocks: blocks concatenated up to a size limit, combinable by XOR, and
//! their byte encoding.
use vstd::prelude::*;

use crate::compact_size::{
    compact_size_at, compact_size_bytes, compact_size_list_at, compact_size_list_bytes, concat_all,
    lemma_compact_size_at_canonical, lemma_compact_size_at_in, lemma_compact_size_list_at_canonical,
    lemma_compact_size_list_at_in, lemma_concat_all_ends, lemma_piece_in, piece_offset,
    push_compact_size, read_compact_size, DEFAULT_VEC_LIMIT,
};

verus! {

/// Largest number of raw block bytes a superblock holds (1.5 times the largest block).
pub const SUPERBLOCK_MAX_SIZE: usize = 6_000_000;

/// Size of an individual block.
#[derive(Debug, Clone, Copy, PartialEq, Eq, Structural)]
pub struct Size(pub usize);

impl From<usize> for Size {
    fn from(value: usize) -> (r: Self)
        ensures
            r.0 == value,
    {
        Size(value)
    }
}

impl vstd::std_specs::convert::FromSpecImpl<usize> for Size {
    open spec fn obeys_from_spec() -> bool {
        true
    }

    open spec fn from_spec(v: usize) -> Self {
        Size(v)
    }
}

impl From<Size> for usize {
    fn from(value: Size) -> (r: Self)
        ensures
            r == value.0,
    {
        value.0
    }
}

impl vstd::std_specs::convert::FromSpecImpl<Size> for usize {
    open spec fn obeys_from_spec() -> bool {
        true
    }

    open spec fn from_spec(v: Size) -> Self {
        v.0
    }
}

/// The mathematical content of a superblock.
pub struct SuperBlockView {
    pub num: usize,
    pub block_count: usize,
    pub bytes_length: usize,
    pub block_sizes: Seq<usize>,
    pub raw_bytes: Seq<u8>,
}

/// Concatenated blocks. After XOR combination the fields hold the XOR of the
/// combined superblocks' fields, and the vectors are zero-padded to the
/// longest of them.
#[derive(Debug, PartialEq)]
pub struct SuperBlock {
    /// Superblock number
    pub num: usize,
    /// Number of blocks included in this superblock
    pub block_count: usize,
    /// Length of the concatenated block bytes
    pub bytes_length: usize,
    /// Sizes of individual blocks
    pub block_sizes: Vec<Size>,
    /// Concatenated consensus-encoded blocks
    pub raw_bytes: Vec<u8>,
}

pub open spec fn sizes_view(sizes: Seq<Size>) -> Seq<usize> {
    sizes.map_values(|s: Size| s.0)
}

impl View for SuperBlock {
    type V = SuperBlockView;

    open spec fn view(&self) -> SuperBlockView {
        SuperBlockView {
            num: self.num,
            block_count: self.block_count,
            bytes_length: self.bytes_length,
            block_sizes: sizes_view(self.block_sizes@),
            raw_bytes: self.raw_bytes@,
        }
    }
}

impl Clone for SuperBlock {
    fn clone(&self) -> (r: Self)
        ensures
            r@ == self@,
    {
        let block_sizes = self.block_sizes.clone();
        let raw_bytes = self.raw_bytes.clone();
        proof {
            assert(block_sizes@ =~= self.block_sizes@);
            assert(raw_bytes@ =~= self.raw_bytes@);
        }
        SuperBlock {
            num: self.num,
            block_count: self.block_count,
            bytes_length: self.bytes_length,
            block_sizes,
            raw_bytes,
        }
    }
}

/// A superblock whose recorded lengths match its vectors and whose block sizes
/// add up to its bytes; `add` keeps this, XOR combination does not.
pub open spec fn superblock_consistent(v: SuperBlockView) -> bool {
    &&& v.raw_bytes.len() == v.bytes_length
    &&& v.block_sizes.len() == v.block_count
}

/// The superblock with number `num` and no blocks.
pub open spec fn empty_superblock(num: usize) -> SuperBlockView {
    SuperBlockView {
        num,
        block_count: 0,
        bytes_length: 0,
        block_sizes: Seq::empty(),
        raw_bytes: Seq::empty(),
    }
}

/// Element `i` of `s`, or zero past its end.
pub open spec fn byte_or_zero(s: Seq<u8>, i: int) -> u8 {
    if 0 <= i < s.len() {
        s[i]
    } else {
        0
    }
}

/// Element `i` of `s`, or zero past its end.
pub open spec fn size_or_zero(s: Seq<usize>, i: int) -> usize {
    if 0 <= i < s.len() {
        s[i]
    } else {
        0
    }
}

pub open spec fn max_len(a: nat, b: nat) -> nat {
    if a >= b {
        a
    } else {
        b
    }
}

/// Bytewise XOR of two sequences, the shorter one taken as zero-padded.
pub open spec fn xor_bytes(a: Seq<u8>, b: Seq<u8>) -> Seq<u8> {
    Seq::new(max_len(a.len(), b.len()), |i: int| byte_or_zero(a, i) ^ byte_or_zero(b, i))
}

/// Elementwise XOR of two sequences of sizes, the shorter one taken as zero-padded.
pub open spec fn xor_sizes(a: Seq<usize>, b: Seq<usize>) -> Seq<usize> {
    Seq::new(max_len(a.len(), b.len()), |i: int| size_or_zero(a, i) ^ size_or_zero(b, i))
}

/// The XOR combination of two superblocks.
pub open spec fn xor_superblocks(a: SuperBlockView, b: SuperBlockView) -> SuperBlockView {
    SuperBlockView {
        num: a.num ^ b.num,
        block_count: a.block_count ^ b.block_count,
        bytes_length: a.bytes_length ^ b.bytes_length,
        block_sizes: xor_sizes(a.block_sizes, b.block_sizes),
        raw_bytes: xor_bytes(a.raw_bytes, b.raw_bytes),
    }
}

/// `s` cut to its first `n` elements, or unchanged when it is not longer.
pub open spec fn truncated<T>(s: Seq<T>, n: usize) -> Seq<T> {
    if n <= s.len() {
        s.subrange(0, n as int)
    } else {
        s
    }
}

/// A superblock with its padding removed: the bytes cut to `bytes_length` and
/// the sizes cut to `block_count`.
pub open spec fn cropped(v: SuperBlockView) -> SuperBlockView {
    SuperBlockView {
        block_sizes: truncated(v.block_sizes, v.block_count),
        raw_bytes: truncated(v.raw_bytes, v.bytes_length),
        ..v
    }
}

/// Sum of the first `n` sizes: where block `n` starts.
pub open spec fn block_offset(sizes: Seq<usize>, n: int) -> nat
    decreases n,
{
    if n <= 0 {
        0
    } else {
        block_offset(sizes, n - 1) + sizes[n - 1] as nat
    }
}

/// The blocks' sizes add up to no more than the bytes held.
pub open spec fn blocks_fit(v: SuperBlockView) -> bool {
    block_offset(v.block_sizes, v.block_sizes.len() as int) <= v.raw_bytes.len()
}

/// The bytes of block `i`.
pub open spec fn block_bytes(v: SuperBlockView, i: int) -> Seq<u8> {
    v.raw_bytes.subrange(block_offset(v.block_sizes, i) as int, block_offset(v.block_sizes, i + 1) as int)
}

/// The superblock `v` with `block` appended, as `add` leaves it.
pub open spec fn with_block(v: SuperBlockView, block: Seq<u8>) -> SuperBlockView {
    SuperBlockView {
        num: v.num,
        block_count: (v.block_count + 1) as usize,
        bytes_length: (v.raw_bytes.len() + block.len()) as usize,
        block_sizes: v.block_sizes.push(block.len() as usize),
        raw_bytes: v.raw_bytes + block,
    }
}

/// The superblock numbered `num` that `blocks` were added to, one after
/// another.
pub open spec fn superblock_with_blocks(num: usize, blocks: Seq<Seq<u8>>) -> SuperBlockView
    decreases blocks.len(),
{
    if blocks.len() == 0 {
        empty_superblock(num)
    } else {
        with_block(superblock_with_blocks(num, blocks.drop_last()), blocks.last())
    }
}

/// Total number of bytes of `blocks`.
pub open spec fn total_len(blocks: Seq<Seq<u8>>) -> nat
    decreases blocks.len(),
{
    if blocks.len() == 0 {
        0
    } else {
        total_len(blocks.drop_last()) + blocks.last().len()
    }
}

/// Appending a size does not move the blocks before it.
proof fn lemma_block_offset_push(s: Seq<usize>, x: usize, i: int)
    requires
        0 <= i <= s.len(),
    ensures
        block_offset(s.push(x), i) == block_offset(s, i),
    decreases i,
{
    if i > 0 {
        lemma_block_offset_push(s, x, i - 1);
        assert(s.push(x)[i - 1] == s[i - 1]);
    }
}

/// What a superblock gives back of the blocks added to it: it is consistent,
/// has no padding to crop, and splitting it by its sizes (as `into_blocks`
/// does) gives exactly the added blocks, in order.
pub proof fn lemma_added_blocks_come_back(num: usize, blocks: Seq<Seq<u8>>)
    requires
        total_len(blocks) <= SUPERBLOCK_MAX_SIZE,
        blocks.len() < usize::MAX,
    ensures
        ({
            let v = superblock_with_blocks(num, blocks);
            &&& superblock_consistent(v)
            &&& cropped(v) == v
            &&& blocks_fit(v)
            &&& v.block_sizes.len() == blocks.len()
            &&& v.raw_bytes.len() == total_len(blocks)
            &&& forall|i: int| 0 <= i < blocks.len() ==> #[trigger] block_bytes(v, i) == blocks[i]
        }),
    decreases blocks.len(),
{
    let v = superblock_with_blocks(num, blocks);
    if blocks.len() == 0 {
        assert(cropped(v).block_sizes =~= v.block_sizes);
        assert(cropped(v).raw_bytes =~= v.raw_bytes);
    } else {
        let p = blocks.drop_last();
        let last = blocks.last();
        let w = superblock_with_blocks(num, p);
        lemma_added_blocks_come_back(num, p);
        lemma_exact_offsets(num, p);
        let n = p.len() as int;
        assert(v == with_block(w, last));
        lemma_block_offset_push(w.block_sizes, last.len() as usize, n);
        assert(v.block_sizes[n] == last.len());
        assert(block_offset(v.block_sizes, n + 1) == w.raw_bytes.len() + last.len());
        assert(cropped(v).block_sizes =~= v.block_sizes);
        assert(cropped(v).raw_bytes =~= v.raw_bytes);
        assert forall|i: int| 0 <= i < blocks.len() implies #[trigger] block_bytes(v, i)
            == blocks[i] by {
            if i < n {
                lemma_block_offset_push(w.block_sizes, last.len() as usize, i);
                lemma_block_offset_push(w.block_sizes, last.len() as usize, i + 1);
                lemma_block_offset_monotone(w.block_sizes, i + 1, n);
                assert(block_bytes(w, i) == p[i]);
                assert(block_bytes(v, i) =~= block_bytes(w, i));
            } else {
                assert(block_bytes(v, i) =~= last);
            }
        }
    }
}

/// The sizes of the added blocks add up to the superblock's bytes.
proof fn lemma_exact_offsets(num: usize, blocks: Seq<Seq<u8>>)
    requires
        total_len(blocks) <= SUPERBLOCK_MAX_SIZE,
        blocks.len() < usize::MAX,
    ensures
        block_offset(
            superblock_with_blocks(num, blocks).block_sizes,
            blocks.len() as int,
        ) == superblock_with_blocks(num, blocks).raw_bytes.len(),
        superblock_with_blocks(num, blocks).block_sizes.len() == blocks.len(),
        superblock_with_blocks(num, blocks).raw_bytes.len() == total_len(blocks),
    decreases blocks.len(),
{
    if blocks.len() > 0 {
        let p = blocks.drop_last();
        let last = blocks.last();
        let w = superblock_with_blocks(num, p);
        lemma_exact_offsets(num, p);
        lemma_block_offset_push(w.block_sizes, last.len() as usize, p.len() as int);
    }
}

/// Block offsets grow with the block index.
pub proof fn lemma_block_offset_monotone(sizes: Seq<usize>, i: int, j: int)
    requires
        i <= j,
    ensures
        block_offset(sizes, i) <= block_offset(sizes, j),
    decreases j - i,
{
    if i < j {
        lemma_block_offset_monotone(sizes, i, j - 1);
    }
}

/// Number of bytes of a compact-size encoding of a count.
pub open spec fn count_bytes(n: nat) -> Seq<u8> {
    compact_size_bytes(n as u64)
}

/// The pieces of a superblock's encoding: its number, block count and byte
/// length, its block sizes with their count in front, and its bytes with their
/// count in front, every number in compact-size form.
pub open spec fn superblock_pieces(v: SuperBlockView) -> Seq<Seq<u8>> {
    seq![
        compact_size_bytes(v.num as u64),
        compact_size_bytes(v.block_count as u64),
        compact_size_bytes(v.bytes_length as u64),
        count_bytes(v.block_sizes.len()),
        compact_size_list_bytes(v.block_sizes),
        count_bytes(v.raw_bytes.len()),
        v.raw_bytes,
    ]
}

/// The byte encoding of a superblock: its pieces one after another.
pub open spec fn superblock_bytes(v: SuperBlockView) -> Seq<u8> {
    concat_all(superblock_pieces(v))
}

/// The encoding written out piece by piece.
pub proof fn lemma_superblock_bytes_unfold(v: SuperBlockView)
    ensures
        superblock_bytes(v) == compact_size_bytes(v.num as u64) + compact_size_bytes(
            v.block_count as u64,
        ) + compact_size_bytes(v.bytes_length as u64) + count_bytes(v.block_sizes.len())
            + compact_size_list_bytes(v.block_sizes) + count_bytes(v.raw_bytes.len()) + v.raw_bytes,
{
    let ps = superblock_pieces(v);
    reveal_with_fuel(concat_all, 8);
    assert(ps.drop_last().drop_last().drop_last().drop_last().drop_last().drop_last().drop_last()
        =~= Seq::<Seq<u8>>::empty());
    assert(ps.drop_last().drop_last().drop_last().drop_last().drop_last().drop_last() =~= seq![
        ps[0],
    ]);
    assert(concat_all(ps) =~= compact_size_bytes(v.num as u64) + compact_size_bytes(
        v.block_count as u64,
    ) + compact_size_bytes(v.bytes_length as u64) + count_bytes(v.block_sizes.len())
        + compact_size_list_bytes(v.block_sizes) + count_bytes(v.raw_bytes.len()) + v.raw_bytes);
}

/// The bounds within which a superblock's encoding is read back: at most
/// 4,000,000 block sizes and at most `SUPERBLOCK_MAX_SIZE` bytes.
pub open spec fn superblock_within_limits(v: SuperBlockView) -> bool {
    &&& v.block_sizes.len() <= DEFAULT_VEC_LIMIT
    &&& v.raw_bytes.len() <= SUPERBLOCK_MAX_SIZE
}

/// Reads a superblock encoding starting at `pos`, giving the superblock and
/// the position after it.
pub open spec fn superblock_at(s: Seq<u8>, pos: nat) -> Option<(SuperBlockView, nat)> {
    match compact_size_at(s, pos, usize::MAX) {
        None => None,
        Some((num, p1)) => match compact_size_at(s, p1, usize::MAX) {
            None => None,
            Some((block_count, p2)) => match compact_size_at(s, p2, usize::MAX) {
                None => None,
                Some((bytes_length, p3)) => match compact_size_at(s, p3, DEFAULT_VEC_LIMIT) {
                    None => None,
                    Some((n_sizes, p4)) => match compact_size_list_at(
                        s,
                        p4,
                        n_sizes as nat,
                        usize::MAX,
                    ) {
                        None => None,
                        Some((block_sizes, p5)) => match compact_size_at(
                            s,
                            p5,
                            SUPERBLOCK_MAX_SIZE,
                        ) {
                            None => None,
                            Some((n_raw, p6)) => if p6 + n_raw <= s.len() {
                                Some(
                                    (
                                        SuperBlockView {
                                            num,
                                            block_count,
                                            bytes_length,
                                            block_sizes,
                                            raw_bytes: s.subrange(p6 as int, p6 + n_raw),
                                        },
                                        (p6 + n_raw) as nat,
                                    ),
                                )
                            } else {
                                None
                            },
                        },
                    },
                },
            },
        },
    }
}

/// Reading the encoding of a superblock within the limits, placed after `pre`,
/// gives the superblock back and the position after its encoding.
pub proof fn lemma_superblock_at(pre: Seq<u8>, v: SuperBlockView, rest: Seq<u8>)
    requires
        superblock_within_limits(v),
    ensures
        superblock_at(pre + superblock_bytes(v) + rest, pre.len()) == Some(
            (v, pre.len() + superblock_bytes(v).len()),
        ),
{
    let ps = superblock_pieces(v);
    let s = pre + superblock_bytes(v) + rest;
    let o = pre.len();
    lemma_concat_all_ends(ps);
    lemma_piece_in(pre, ps, rest, 0);
    lemma_piece_in(pre, ps, rest, 1);
    lemma_piece_in(pre, ps, rest, 2);
    lemma_piece_in(pre, ps, rest, 3);
    lemma_piece_in(pre, ps, rest, 4);
    lemma_piece_in(pre, ps, rest, 5);
    lemma_piece_in(pre, ps, rest, 6);
    lemma_compact_size_at_in(s, o + piece_offset(ps, 0), v.num, usize::MAX);
    lemma_compact_size_at_in(s, o + piece_offset(ps, 1), v.block_count, usize::MAX);
    lemma_compact_size_at_in(s, o + piece_offset(ps, 2), v.bytes_length, usize::MAX);
    lemma_compact_size_at_in(
        s,
        o + piece_offset(ps, 3),
        v.block_sizes.len() as usize,
        DEFAULT_VEC_LIMIT,
    );
    lemma_compact_size_list_at_in(s, o + piece_offset(ps, 4), v.block_sizes, usize::MAX);
    lemma_compact_size_at_in(
        s,
        o + piece_offset(ps, 5),
        v.raw_bytes.len() as usize,
        SUPERBLOCK_MAX_SIZE,
    );
}

/// Reading at `p` where the encoding of a superblock within the limits stands
/// gives that superblock.
pub proof fn lemma_superblock_at_in(s: Seq<u8>, p: nat, v: SuperBlockView)
    requires
        superblock_within_limits(v),
        p + superblock_bytes(v).len() <= s.len(),
        s.subrange(p as int, (p + superblock_bytes(v).len()) as int) == superblock_bytes(v),
    ensures
        superblock_at(s, p) == Some((v, p + superblock_bytes(v).len())),
{
    let pre = s.subrange(0, p as int);
    let rest = s.subrange((p + superblock_bytes(v).len()) as int, s.len() as int);
    assert(s =~= pre + superblock_bytes(v) + rest);
    lemma_superblock_at(pre, v, rest);
}

/// A successful read covers exactly the encoding of the superblock read, and
/// that superblock is within the limits.
pub proof fn lemma_superblock_at_canonical(s: Seq<u8>, pos: nat)
    requires
        superblock_at(s, pos) is Some,
    ensures
        ({
            let (v, p) = superblock_at(s, pos).unwrap();
            &&& pos <= p <= s.len()
            &&& superblock_within_limits(v)
            &&& s.subrange(pos as int, p as int) == superblock_bytes(v)
        }),
{
    let (num, p1) = compact_size_at(s, pos, usize::MAX).unwrap();
    lemma_compact_size_at_canonical(s, pos, usize::MAX);
    let (block_count, p2) = compact_size_at(s, p1, usize::MAX).unwrap();
    lemma_compact_size_at_canonical(s, p1, usize::MAX);
    let (bytes_length, p3) = compact_size_at(s, p2, usize::MAX).unwrap();
    lemma_compact_size_at_canonical(s, p2, usize::MAX);
    let (n_sizes, p4) = compact_size_at(s, p3, DEFAULT_VEC_LIMIT).unwrap();
    lemma_compact_size_at_canonical(s, p3, DEFAULT_VEC_LIMIT);
    let (block_sizes, p5) = compact_size_list_at(s, p4, n_sizes as nat, usize::MAX).unwrap();
    lemma_compact_size_list_at_canonical(s, p4, n_sizes as nat, usize::MAX);
    let (n_raw, p6) = compact_size_at(s, p5, SUPERBLOCK_MAX_SIZE).unwrap();
    lemma_compact_size_at_canonical(s, p5, SUPERBLOCK_MAX_SIZE);
    let (v, p) = superblock_at(s, pos).unwrap();
    let ps = superblock_pieces(v);
    assert(ps[3] == compact_size_bytes(n_sizes as u64));
    assert(ps[5] == compact_size_bytes(n_raw as u64));
    let c1 = s.subrange(pos as int, p1 as int);
    let c2 = c1 + s.subrange(p1 as int, p2 as int);
    let c3 = c2 + s.subrange(p2 as int, p3 as int);
    let c4 = c3 + s.subrange(p3 as int, p4 as int);
    let c5 = c4 + s.subrange(p4 as int, p5 as int);
    let c6 = c5 + s.subrange(p5 as int, p6 as int);
    let c7 = c6 + s.subrange(p6 as int, p as int);
    assert(c2 =~= s.subrange(pos as int, p2 as int));
    assert(c3 =~= s.subrange(pos as int, p3 as int));
    assert(c4 =~= s.subrange(pos as int, p4 as int));
    assert(c5 =~= s.subrange(pos as int, p5 as int));
    assert(c6 =~= s.subrange(pos as int, p6 as int));
    assert(c7 =~= s.subrange(pos as int, p as int));
    lemma_superblock_bytes_unfold(v);
    assert(superblock_bytes(v) =~= c7);
}

proof fn lemma_xor_bits_usize(a: usize, b: usize, c: usize)
    ensures
        a ^ b == b ^ a,
        (a ^ b) ^ c == a ^ (b ^ c),
        0usize ^ a == a,
        (a ^ b) ^ b == a,
{
    assert(a ^ b == b ^ a) by (bit_vector);
    assert((a ^ b) ^ c == a ^ (b ^ c)) by (bit_vector);
    assert(0usize ^ a == a) by (bit_vector);
    assert((a ^ b) ^ b == a) by (bit_vector);
}

proof fn lemma_xor_bits_u8(a: u8, b: u8, c: u8)
    ensures
        a ^ b == b ^ a,
        (a ^ b) ^ c == a ^ (b ^ c),
        0u8 ^ a == a,
        (a ^ b) ^ b == a,
{
    assert(a ^ b == b ^ a) by (bit_vector);
    assert((a ^ b) ^ c == a ^ (b ^ c)) by (bit_vector);
    assert(0u8 ^ a == a) by (bit_vector);
    assert((a ^ b) ^ b == a) by (bit_vector);
}

/// XOR combination of superblocks does not depend on the order of the two.
pub proof fn lemma_xor_superblocks_commutative(a: SuperBlockView, b: SuperBlockView)
    ensures
        xor_superblocks(a, b) == xor_superblocks(b, a),
{
    lemma_xor_bits_usize(a.num, b.num, 0);
    lemma_xor_bits_usize(a.block_count, b.block_count, 0);
    lemma_xor_bits_usize(a.bytes_length, b.bytes_length, 0);
    assert forall|i: int| 0 <= i < xor_sizes(a.block_sizes, b.block_sizes).len() implies #[trigger]
        xor_sizes(a.block_sizes, b.block_sizes)[i] == xor_sizes(b.block_sizes, a.block_sizes)[i] by {
        lemma_xor_bits_usize(size_or_zero(a.block_sizes, i), size_or_zero(b.block_sizes, i), 0);
    }
    assert forall|i: int| 0 <= i < xor_bytes(a.raw_bytes, b.raw_bytes).len() implies #[trigger]
        xor_bytes(a.raw_bytes, b.raw_bytes)[i] == xor_bytes(b.raw_bytes, a.raw_bytes)[i] by {
        lemma_xor_bits_u8(byte_or_zero(a.raw_bytes, i), byte_or_zero(b.raw_bytes, i), 0);
    }
    assert(xor_sizes(a.block_sizes, b.block_sizes) =~= xor_sizes(b.block_sizes, a.block_sizes));
    assert(xor_bytes(a.raw_bytes, b.raw_bytes) =~= xor_bytes(b.raw_bytes, a.raw_bytes));
}

/// XOR combination of superblocks can be grouped either way.
pub proof fn lemma_xor_superblocks_associative(
    a: SuperBlockView,
    b: SuperBlockView,
    c: SuperBlockView,
)
    ensures
        xor_superblocks(xor_superblocks(a, b), c) == xor_superblocks(a, xor_superblocks(b, c)),
{
    lemma_xor_bits_usize(a.num, b.num, c.num);
    lemma_xor_bits_usize(a.block_count, b.block_count, c.block_count);
    lemma_xor_bits_usize(a.bytes_length, b.bytes_length, c.bytes_length);
    let l = xor_superblocks(xor_superblocks(a, b), c);
    let r = xor_superblocks(a, xor_superblocks(b, c));
    assert forall|i: int| 0 <= i < l.block_sizes.len() implies #[trigger] l.block_sizes[i]
        == r.block_sizes[i] by {
        lemma_xor_bits_usize(
            size_or_zero(a.block_sizes, i),
            size_or_zero(b.block_sizes, i),
            size_or_zero(c.block_sizes, i),
        );
    }
    assert forall|i: int| 0 <= i < l.raw_bytes.len() implies #[trigger] l.raw_bytes[i]
        == r.raw_bytes[i] by {
        lemma_xor_bits_u8(
            byte_or_zero(a.raw_bytes, i),
            byte_or_zero(b.raw_bytes, i),
            byte_or_zero(c.raw_bytes, i),
        );
    }
    assert(l.block_sizes =~= r.block_sizes);
    assert(l.raw_bytes =~= r.raw_bytes);
}

/// XOR-ing a superblock into an empty superblock numbered zero gives that
/// superblock.
pub proof fn lemma_xor_superblocks_empty(a: SuperBlockView)
    ensures
        xor_superblocks(empty_superblock(0), a) == a,
{
    lemma_xor_bits_usize(a.num, 0, 0);
    lemma_xor_bits_usize(a.block_count, 0, 0);
    lemma_xor_bits_usize(a.bytes_length, 0, 0);
    let r = xor_superblocks(empty_superblock(0), a);
    assert forall|i: int| 0 <= i < r.block_sizes.len() implies #[trigger] r.block_sizes[i]
        == a.block_sizes[i] by {
        lemma_xor_bits_usize(a.block_sizes[i], 0, 0);
    }
    assert forall|i: int| 0 <= i < r.raw_bytes.len() implies #[trigger] r.raw_bytes[i]
        == a.raw_bytes[i] by {
        lemma_xor_bits_u8(a.raw_bytes[i], 0, 0);
    }
    assert(r.block_sizes =~= a.block_sizes);
    assert(r.raw_bytes =~= a.raw_bytes);
}

/// XOR-ing the same superblock in twice gives back the first superblock,
/// zero-padded to the longer vectors; when the second one is not longer, it
/// gives it back exactly, and cropping the padding gives back any consistent
/// superblock.
pub proof fn lemma_xor_superblocks_undo(a: SuperBlockView, b: SuperBlockView)
    ensures
        b.block_sizes.len() <= a.block_sizes.len() && b.raw_bytes.len() <= a.raw_bytes.len()
            ==> xor_superblocks(xor_superblocks(a, b), b) == a,
        superblock_consistent(a) ==> cropped(xor_superblocks(xor_superblocks(a, b), b)) == a,
{
    let x = xor_superblocks(xor_superblocks(a, b), b);
    assert forall|i: int| 0 <= i < x.block_sizes.len() implies #[trigger] x.block_sizes[i]
        == size_or_zero(a.block_sizes, i) by {
        lemma_xor_bits_usize(size_or_zero(a.block_sizes, i), size_or_zero(b.block_sizes, i), 0);
    }
    assert forall|i: int| 0 <= i < x.raw_bytes.len() implies #[trigger] x.raw_bytes[i]
        == byte_or_zero(a.raw_bytes, i) by {
        lemma_xor_bits_u8(byte_or_zero(a.raw_bytes, i), byte_or_zero(b.raw_bytes, i), 0);
    }
    if b.block_sizes.len() <= a.block_sizes.len() && b.raw_bytes.len() <= a.raw_bytes.len() {
        lemma_xor_bits_usize(a.num, b.num, 0);
        lemma_xor_bits_usize(a.block_count, b.block_count, 0);
        lemma_xor_bits_usize(a.bytes_length, b.bytes_length, 0);
        assert(x.block_sizes =~= a.block_sizes);
        assert(x.raw_bytes =~= a.raw_bytes);
    }
    if superblock_consistent(a) {
        lemma_xor_superblocks_undo_cropped(a, b);
    }
}

proof fn lemma_xor_superblocks_undo_cropped(a: SuperBlockView, b: SuperBlockView)
    requires
        superblock_consistent(a),
    ensures
        cropped(xor_superblocks(xor_superblocks(a, b), b)) == a,
{
    lemma_xor_bits_usize(a.num, b.num, 0);
    lemma_xor_bits_usize(a.block_count, b.block_count, 0);
    lemma_xor_bits_usize(a.bytes_length, b.bytes_length, 0);
    let r = cropped(xor_superblocks(xor_superblocks(a, b), b));
    assert forall|i: int| 0 <= i < a.block_sizes.len() implies #[trigger] r.block_sizes[i]
        == a.block_sizes[i] by {
        lemma_xor_bits_usize(a.block_sizes[i], size_or_zero(b.block_sizes, i), 0);
    }
    assert forall|i: int| 0 <= i < a.raw_bytes.len() implies #[trigger] r.raw_bytes[i]
        == a.raw_bytes[i] by {
        lemma_xor_bits_u8(a.raw_bytes[i], byte_or_zero(b.raw_bytes, i), 0);
    }
    assert(r.block_sizes =~= a.block_sizes);
    assert(r.raw_bytes =~= a.raw_bytes);
}

/// The superblock `a` with the superblocks of `bs` XOR-ed in, one after another.
pub open spec fn xor_all(a: SuperBlockView, bs: Seq<SuperBlockView>) -> SuperBlockView
    decreases bs.len(),
{
    if bs.len() == 0 {
        a
    } else {
        xor_superblocks(xor_all(a, bs.drop_last()), bs.last())
    }
}

/// A superblock XOR-ed in last can be XOR-ed in first instead.
proof fn lemma_xor_all_move(y: SuperBlockView, q: Seq<SuperBlockView>, c: SuperBlockView)
    ensures
        xor_superblocks(xor_all(y, q), c) == xor_all(xor_superblocks(y, c), q),
    decreases q.len(),
{
    if q.len() > 0 {
        let p = q.drop_last();
        let e = q.last();
        lemma_xor_all_move(y, p, c);
        let x = xor_all(y, p);
        lemma_xor_superblocks_associative(x, e, c);
        lemma_xor_superblocks_commutative(e, c);
        lemma_xor_superblocks_associative(x, c, e);
    }
}

/// XOR-ing in two lists one after the other is XOR-ing in their concatenation.
proof fn lemma_xor_all_append(y: SuperBlockView, p: Seq<SuperBlockView>, q: Seq<SuperBlockView>)
    ensures
        xor_all(y, p + q) == xor_all(xor_all(y, p), q),
    decreases q.len(),
{
    if q.len() == 0 {
        assert(p + q =~= p);
    } else {
        lemma_xor_all_append(y, p, q.drop_last());
        assert((p + q).drop_last() =~= p + q.drop_last());
        assert((p + q).last() == q.last());
    }
}

/// Any entry of a list can be XOR-ed in last.
proof fn lemma_xor_all_remove(y: SuperBlockView, s: Seq<SuperBlockView>, j: int)
    requires
        0 <= j < s.len(),
    ensures
        xor_all(y, s) == xor_superblocks(xor_all(y, s.remove(j)), s[j]),
{
    let front = s.take(j);
    let back = s.skip(j + 1);
    assert(s =~= front.push(s[j]) + back);
    assert(s.remove(j) =~= front + back);
    lemma_xor_all_append(y, front.push(s[j]), back);
    assert(front.push(s[j]).drop_last() =~= front);
    lemma_xor_all_move(xor_all(y, front), back, s[j]);
    lemma_xor_all_append(y, front, back);
}

/// XOR combination does not depend on the order in which superblocks are
/// XOR-ed in: lists with the same entries, each as often, give the same.
pub proof fn lemma_xor_all_any_order(
    y: SuperBlockView,
    bs: Seq<SuperBlockView>,
    cs: Seq<SuperBlockView>,
)
    requires
        bs.to_multiset() == cs.to_multiset(),
    ensures
        xor_all(y, bs) == xor_all(y, cs),
    decreases bs.len(),
{
    broadcast use vstd::seq_lib::group_to_multiset_ensures;
    broadcast use vstd::multiset::group_multiset_axioms;

    if bs.len() == 0 {
        assert(bs.to_multiset().len() == 0);
        assert(cs.to_multiset().len() == 0);
        assert(cs.len() == 0);
    } else {
        let b = bs.last();
        let init = bs.drop_last();
        assert(bs =~= init.push(b));
        assert(cs.to_multiset().count(b) > 0);
        assert(cs.contains(b));
        let j = choose|j: int| 0 <= j < cs.len() && cs[j] == b;
        assert(cs.remove(j).to_multiset() =~= init.to_multiset());
        lemma_xor_all_any_order(y, init, cs.remove(j));
        lemma_xor_all_remove(y, cs, j);
    }
}

/// `w` is `a` zero-padded: the same numbers, vectors at least as long, and
/// the same entries where `a` has them, zero past its end.
pub open spec fn padded_of(w: SuperBlockView, a: SuperBlockView) -> bool {
    &&& w.num == a.num
    &&& w.block_count == a.block_count
    &&& w.bytes_length == a.bytes_length
    &&& w.raw_bytes.len() >= a.raw_bytes.len()
    &&& w.block_sizes.len() >= a.block_sizes.len()
    &&& forall|j: int| 0 <= j < w.raw_bytes.len() ==> #[trigger] w.raw_bytes[j] == byte_or_zero(a.raw_bytes, j)
    &&& forall|j: int| 0 <= j < w.block_sizes.len() ==> #[trigger] w.block_sizes[j] == size_or_zero(a.block_sizes, j)
}

/// XOR-ing the same superblock in twice keeps a padded superblock padded.
proof fn lemma_padded_twice(w: SuperBlockView, a: SuperBlockView, e: SuperBlockView)
    requires
        padded_of(w, a),
    ensures
        padded_of(xor_superblocks(xor_superblocks(w, e), e), a),
{
    let x = xor_superblocks(w, e);
    let y = xor_superblocks(x, e);
    lemma_xor_bits_usize(w.num, e.num, 0);
    lemma_xor_bits_usize(w.block_count, e.block_count, 0);
    lemma_xor_bits_usize(w.bytes_length, e.bytes_length, 0);
    assert forall|j: int| 0 <= j < y.raw_bytes.len() implies #[trigger] y.raw_bytes[j]
        == byte_or_zero(a.raw_bytes, j) by {
        lemma_xor_bits_u8(byte_or_zero(w.raw_bytes, j), byte_or_zero(e.raw_bytes, j), 0);
        assert(byte_or_zero(x.raw_bytes, j) == x.raw_bytes[j]);
    }
    assert forall|j: int| 0 <= j < y.block_sizes.len() implies #[trigger] y.block_sizes[j]
        == size_or_zero(a.block_sizes, j) by {
        lemma_xor_bits_usize(size_or_zero(w.block_sizes, j), size_or_zero(e.block_sizes, j), 0);
        assert(size_or_zero(x.block_sizes, j) == x.block_sizes[j]);
    }
}

/// Cropping a zero-padded consistent superblock gives it back.
proof fn lemma_padded_cropped(w: SuperBlockView, a: SuperBlockView)
    requires
        padded_of(w, a),
        superblock_consistent(a),
    ensures
        cropped(w) == a,
{
    assert(cropped(w).raw_bytes =~= a.raw_bytes);
    assert(cropped(w).block_sizes =~= a.block_sizes);
}

/// XOR-ing a list of superblocks in twice leaves the first superblock,
/// zero-padded.
proof fn lemma_xor_all_twice_padded(a: SuperBlockView, bs: Seq<SuperBlockView>)
    ensures
        padded_of(xor_all(xor_all(a, bs), bs), a),
    decreases bs.len(),
{
    if bs.len() == 0 {
        assert(padded_of(a, a));
    } else {
        let p = bs.drop_last();
        let e = bs.last();
        lemma_xor_all_twice_padded(a, p);
        lemma_xor_all_move(xor_all(a, p), p, e);
        lemma_padded_twice(xor_all(xor_all(a, p), p), a, e);
    }
}

/// XOR-ing a list of superblocks into a consistent superblock and then the
/// same superblocks again, in any order, gives the superblock back once the
/// padding is cropped.
pub proof fn lemma_xor_all_twice_restores(
    a: SuperBlockView,
    bs: Seq<SuperBlockView>,
    cs: Seq<SuperBlockView>,
)
    requires
        superblock_consistent(a),
        bs.to_multiset() == cs.to_multiset(),
    ensures
        cropped(xor_all(xor_all(a, bs), cs)) == a,
{
    lemma_xor_all_any_order(xor_all(a, bs), bs, cs);
    lemma_xor_all_twice_padded(a, bs);
    lemma_padded_cropped(xor_all(xor_all(a, bs), bs), a);
}

/// Cropping twice crops no more than once, and a consistent superblock has
/// nothing to crop.
pub proof fn lemma_cropped_idempotent(v: SuperBlockView)
    ensures
        cropped(cropped(v)) == cropped(v),
        superblock_consistent(v) ==> cropped(v) == v,
{
    assert(cropped(cropped(v)).raw_bytes =~= cropped(v).raw_bytes);
    assert(cropped(cropped(v)).block_sizes =~= cropped(v).block_sizes);
    if superblock_consistent(v) {
        assert(cropped(v).raw_bytes =~= v.raw_bytes);
        assert(cropped(v).block_sizes =~= v.block_sizes);
    }
}

/// Block data in the wire format.
#[derive(Debug, PartialEq)]
pub struct RawBlock {
    pub raw_bytes: Vec<u8>,
}

impl RawBlock {
    pub fn new(raw_bytes: &[u8]) -> (r: Self)
        ensures
            r.raw_bytes@ == raw_bytes@,
    {
        RawBlock { raw_bytes: vstd::slice::slice_to_vec(raw_bytes) }
    }

    /// Returns the size of the block data
    pub fn size(&self) -> (r: usize)
        ensures
            r == self.raw_bytes@.len(),
    {
        self.raw_bytes.len()
    }
}

/// Hash of a block and of its predecessor.
#[derive(Clone, Copy)]
pub struct BlockHashesPair {
    current: [u8; 32],
    previous: [u8; 32],
}

impl BlockHashesPair {
    pub fn new(current: [u8; 32], previous: [u8; 32]) -> (r: Self)
        ensures
            r.current_spec() == current@,
            r.previous_spec() == previous@,
    {
        BlockHashesPair { current, previous }
    }

    pub closed spec fn current_spec(self) -> Seq<u8> {
        self.current@
    }

    pub closed spec fn previous_spec(self) -> Seq<u8> {
        self.previous@
    }

    /// The block's own hash.
    pub closed spec fn current_hash(self) -> [u8; 32] {
        self.current
    }

    pub fn current(self) -> (r: [u8; 32])
        ensures
            r@ == self.current_spec(),
            r == self.current_hash(),
    {
        self.current
    }

    pub fn previous(self) -> (r: [u8; 32])
        ensures
            r@ == self.previous_spec(),
    {
        self.previous
    }
}

/// Why a superblock operation failed.
#[derive(Debug, Clone, Copy, PartialEq, Eq, Structural)]
pub enum SuperBlockError {
    /// The block does not fit in the space left.
    NotEnoughSpace { needed: usize, available: usize },
    /// The block sizes ask for more bytes than the superblock holds.
    MissingBlockBytes,
    /// The bytes are not the encoding of a superblock.
    Malformed,
}

/// Reads `count` block sizes starting at `pos`.
fn read_sizes(bytes: &[u8], pos: usize, count: usize) -> (r: Option<(Vec<Size>, usize)>)
    requires
        pos <= bytes@.len(),
    ensures
        r is Some <==> compact_size_list_at(bytes@, pos as nat, count as nat, usize::MAX) is Some,
        r matches Some((v, p)) ==> compact_size_list_at(bytes@, pos as nat, count as nat, usize::MAX)
            == Some((sizes_view(v@), p as nat)) && p <= bytes@.len(),
{
    let mut sizes: Vec<Size> = Vec::new();
    let mut p = pos;
    let mut i: usize = 0;
    proof {
        reveal(compact_size_list_at);
        assert(sizes_view(sizes@) =~= Seq::<usize>::empty());
    }
    while i < count
        invariant
            i <= count,
            pos <= p <= bytes@.len(),
            compact_size_list_at(bytes@, pos as nat, i as nat, usize::MAX) == Some(
                (sizes_view(sizes@), p as nat),
            ),
        decreases count - i,
    {
        proof {
            reveal(compact_size_list_at);
        }
        match read_compact_size(bytes, p, usize::MAX) {
            Some((v, next)) => {
                proof {
                    assert(sizes_view(sizes@.push(Size(v))) =~= sizes_view(sizes@).push(v));
                }
                sizes.push(Size(v));
                p = next;
            },
            None => {
                proof {
                    assert(compact_size_list_at(bytes@, pos as nat, (i + 1) as nat, usize::MAX)
                        is None);
                    lemma_list_at_none_extends(bytes@, pos as nat, (i + 1) as nat, count as nat);
                }
                return None;
            },
        }
        i += 1;
    }
    Some((sizes, p))
}

/// Once a list read fails, every longer list read from the same place fails.
proof fn lemma_list_at_none_extends(s: Seq<u8>, pos: nat, n: nat, m: nat)
    requires
        n <= m,
        compact_size_list_at(s, pos, n, usize::MAX) is None,
    ensures
        compact_size_list_at(s, pos, m, usize::MAX) is None,
    decreases m - n,
{
    reveal(compact_size_list_at);
    if n < m {
        lemma_list_at_none_extends(s, pos, n, (m - 1) as nat);
    }
}

/// Reads a superblock encoding starting at `pos`.
pub(crate) fn read_superblock(bytes: &[u8], pos: usize) -> (r: Option<(SuperBlock, usize)>)
    requires
        pos <= bytes@.len(),
    ensures
        r is Some <==> superblock_at(bytes@, pos as nat) is Some,
        r matches Some((sb, p)) ==> superblock_at(bytes@, pos as nat) == Some(
            (sb@, p as nat),
        ),
{
    let (num, p1) = match read_compact_size(bytes, pos, usize::MAX) {
        Some(x) => x,
        None => return None,
    };
    let (block_count, p2) = match read_compact_size(bytes, p1, usize::MAX) {
        Some(x) => x,
        None => return None,
    };
    let (bytes_length, p3) = match read_compact_size(bytes, p2, usize::MAX) {
        Some(x) => x,
        None => return None,
    };
    let (n_sizes, p4) = match read_compact_size(bytes, p3, DEFAULT_VEC_LIMIT) {
        Some(x) => x,
        None => return None,
    };
    let (block_sizes, p5) = match read_sizes(bytes, p4, n_sizes) {
        Some(x) => x,
        None => return None,
    };
    let (n_raw, p6) = match read_compact_size(bytes, p5, SUPERBLOCK_MAX_SIZE) {
        Some(x) => x,
        None => return None,
    };
    if n_raw > bytes.len() - p6 {
        return None;
    }
    let raw = vstd::slice::slice_subrange(bytes, p6, p6 + n_raw);
    let raw_bytes = vstd::slice::slice_to_vec(raw);
    let sb = SuperBlock { num, block_count, bytes_length, block_sizes, raw_bytes };
    Some((sb, p6 + n_raw))
}

/// Appends the encoding of `sb` to `out`.
pub(crate) fn write_superblock(out: &mut Vec<u8>, sb: &SuperBlock)
    ensures
        final(out)@ == old(out)@ + superblock_bytes(sb@),
{
    let ghost start = out@;
    push_compact_size(out, sb.num);
    push_compact_size(out, sb.block_count);
    push_compact_size(out, sb.bytes_length);
    push_compact_size(out, sb.block_sizes.len());
    let ghost before_sizes = out@;
    let mut i: usize = 0;
    while i < sb.block_sizes.len()
        invariant
            i <= sb.block_sizes@.len(),
            out@ == before_sizes + compact_size_list_bytes(sizes_view(sb.block_sizes@).take(i as int)),
        decreases sb.block_sizes@.len() - i,
    {
        push_compact_size(out, sb.block_sizes[i].0);
        proof {
            let t = sizes_view(sb.block_sizes@).take(i + 1);
            assert(t.drop_last() =~= sizes_view(sb.block_sizes@).take(i as int));
            assert(t.last() == sb.block_sizes@[i as int].0);
        }
        i += 1;
    }
    proof {
        assert(sizes_view(sb.block_sizes@).take(i as int) =~= sizes_view(sb.block_sizes@));
    }
    push_compact_size(out, sb.raw_bytes.len());
    out.extend_from_slice(sb.raw_bytes.as_slice());
    proof {
        lemma_superblock_bytes_unfold(sb@);
        assert(final(out)@ =~= start + superblock_bytes(sb@));
    }
}

impl SuperBlock {
    /// Creates new superblock with the given number
    pub fn new(num: usize) -> (r: Self)
        ensures
            r@ == empty_superblock(num),
    {
        let block_sizes: Vec<Size> = Vec::new();
        let raw_bytes: Vec<u8> = Vec::with_capacity(SUPERBLOCK_MAX_SIZE);
        proof {
            assert(sizes_view(block_sizes@) =~= Seq::<usize>::empty());
        }
        SuperBlock { num, block_count: 0, bytes_length: 0, block_sizes, raw_bytes }
    }

    /// Byte length of currently included blocks in the superblock
    pub fn size(&self) -> (r: usize)
        ensures
            r == self.raw_bytes@.len(),
    {
        self.raw_bytes.len()
    }

    /// Returns amount of bytes that can be added to the superblock
    pub fn available_space(&self) -> (r: usize)
        requires
            self.raw_bytes@.len() <= SUPERBLOCK_MAX_SIZE,
        ensures
            r == SUPERBLOCK_MAX_SIZE - self.raw_bytes@.len(),
    {
        SUPERBLOCK_MAX_SIZE - self.raw_bytes.len()
    }

    /// Returns number of blocks
    pub fn block_count(&self) -> (r: usize)
        ensures
            r == self.block_count,
    {
        self.block_count
    }

    /// Adds a block to the superblock, when it fits in the available space.
    pub fn add(&mut self, raw_block: RawBlock) -> (r: Result<(), SuperBlockError>)
        requires
            old(self).raw_bytes@.len() <= SUPERBLOCK_MAX_SIZE,
            old(self).block_count < usize::MAX,
        ensures
            raw_block.raw_bytes@.len() > SUPERBLOCK_MAX_SIZE - old(self).raw_bytes@.len() ==> {
                &&& r == Err::<(), SuperBlockError>(
                    SuperBlockError::NotEnoughSpace {
                        needed: raw_block.raw_bytes@.len() as usize,
                        available: (SUPERBLOCK_MAX_SIZE - old(self).raw_bytes@.len()) as usize,
                    },
                )
                &&& final(self)@ == old(self)@
            },
            raw_block.raw_bytes@.len() <= SUPERBLOCK_MAX_SIZE - old(self).raw_bytes@.len() ==> {
                &&& r is Ok
                &&& final(self)@ == with_block(old(self)@, raw_block.raw_bytes@)
            },
            final(self).raw_bytes@.len() <= SUPERBLOCK_MAX_SIZE,
            superblock_consistent(old(self)@) ==> superblock_consistent(final(self)@),
    {
        let block_size = raw_block.raw_bytes.len();
        let available = self.available_space();
        if available < block_size {
            return Err(SuperBlockError::NotEnoughSpace { needed: block_size, available });
        }
        let ghost old_sizes = self.block_sizes@;
        self.block_sizes.push(Size(block_size));
        proof {
            assert(sizes_view(self.block_sizes@) =~= sizes_view(old_sizes).push(block_size));
        }
        self.raw_bytes.extend_from_slice(raw_block.raw_bytes.as_slice());
        self.bytes_length = self.raw_bytes.len();
        self.block_count = self.block_count + 1;
        proof {
            assert(self.raw_bytes@ =~= old(self).raw_bytes@ + raw_block.raw_bytes@);
        }
        Ok(())
    }

    /// Removes the zero-padding left by XOR combination: the bytes are cut to
    /// `bytes_length` and the sizes to `block_count`.
    pub fn crop_padding(&mut self)
        ensures
            final(self)@ == cropped(old(self)@),
    {
        let ghost old_sizes = self.block_sizes@;
        let bytes_length = self.bytes_length;
        let block_count = self.block_count;
        self.raw_bytes.truncate(bytes_length);
        self.block_sizes.truncate(block_count);
        proof {
            if block_count <= old_sizes.len() {
                assert(sizes_view(self.block_sizes@) =~= sizes_view(old_sizes).subrange(
                    0,
                    block_count as int,
                ));
            }
        }
    }

    /// XORs `rhs` into this superblock; the shorter vectors are taken as
    /// zero-padded to the longer ones.
    pub fn bitxor_assign_ref(&mut self, rhs: &SuperBlock)
        ensures
            final(self)@ == xor_superblocks(old(self)@, rhs@),
    {
        let ghost a_sizes = sizes_view(old(self).block_sizes@);
        let ghost b_sizes = sizes_view(rhs.block_sizes@);
        let ghost a_raw = old(self).raw_bytes@;
        let ghost b_raw = rhs.raw_bytes@;
        if self.block_sizes.len() < rhs.block_sizes.len() {
            self.block_sizes.resize(rhs.block_sizes.len(), Size(0));
        }
        let n = rhs.block_sizes.len();
        let mut i: usize = 0;
        while i < n
            invariant
                n == rhs.block_sizes@.len(),
                i <= n,
                b_sizes == sizes_view(rhs.block_sizes@),
                self.raw_bytes@ == a_raw,
                self.num == old(self).num,
                self.block_count == old(self).block_count,
                self.bytes_length == old(self).bytes_length,
                self.block_sizes@.len() == max_len(a_sizes.len(), b_sizes.len()),
                forall|j: int|
                    0 <= j < self.block_sizes@.len() ==> #[trigger] self.block_sizes@[j].0 == if j
                        < i {
                        size_or_zero(a_sizes, j) ^ size_or_zero(b_sizes, j)
                    } else {
                        size_or_zero(a_sizes, j)
                    },
            decreases n - i,
        {
            let x = self.block_sizes[i].0 ^ rhs.block_sizes[i].0;
            self.block_sizes.set(i, Size(x));
            i += 1;
        }
        proof {
            assert forall|j: int| 0 <= j < self.block_sizes@.len() implies #[trigger]
                self.block_sizes@[j].0 == size_or_zero(a_sizes, j) ^ size_or_zero(b_sizes, j) by {
                if j >= n {
                    let z = size_or_zero(a_sizes, j);
                    assert(z ^ 0usize == z) by (bit_vector);
                }
            }
            assert(sizes_view(self.block_sizes@) =~= xor_sizes(a_sizes, b_sizes));
        }
        let ghost new_sizes = self.block_sizes@;
        while self.raw_bytes.len() < rhs.raw_bytes.len()
            invariant
                b_raw == rhs.raw_bytes@,
                self.block_sizes@ == new_sizes,
                self.num == old(self).num,
                self.block_count == old(self).block_count,
                self.bytes_length == old(self).bytes_length,
                a_raw.len() <= self.raw_bytes@.len() <= max_len(a_raw.len(), b_raw.len()),
                forall|j: int| 0 <= j < self.raw_bytes@.len() ==> #[trigger] self.raw_bytes@[j]
                    == byte_or_zero(a_raw, j),
            decreases b_raw.len() - self.raw_bytes@.len(),
        {
            self.raw_bytes.push(0u8);
        }
        let m = rhs.raw_bytes.len();
        let mut k: usize = 0;
        while k < m
            invariant
                m == rhs.raw_bytes@.len(),
                k <= m,
                b_raw == rhs.raw_bytes@,
                self.block_sizes@ == new_sizes,
                self.num == old(self).num,
                self.block_count == old(self).block_count,
                self.bytes_length == old(self).bytes_length,
                self.raw_bytes@.len() == max_len(a_raw.len(), b_raw.len()),
                forall|j: int|
                    0 <= j < self.raw_bytes@.len() ==> #[trigger] self.raw_bytes@[j] == if j < k {
                        byte_or_zero(a_raw, j) ^ byte_or_zero(b_raw, j)
                    } else {
                        byte_or_zero(a_raw, j)
                    },
            decreases m - k,
        {
            let x = self.raw_bytes[k] ^ rhs.raw_bytes[k];
            self.raw_bytes.set(k, x);
            k += 1;
        }
        proof {
            assert forall|j: int| 0 <= j < self.raw_bytes@.len() implies #[trigger]
                self.raw_bytes@[j] == byte_or_zero(a_raw, j) ^ byte_or_zero(b_raw, j) by {
                if j >= m {
                    let z = byte_or_zero(a_raw, j);
                    assert(z ^ 0u8 == z) by (bit_vector);
                }
            }
            assert(self.raw_bytes@ =~= xor_bytes(a_raw, b_raw));
        }
        self.num = self.num ^ rhs.num;
        self.block_count = self.block_count ^ rhs.block_count;
        self.bytes_length = self.bytes_length ^ rhs.bytes_length;
    }

    /// XORs `rhs` into this superblock, consuming it.
    pub fn bitxor_assign(&mut self, rhs: SuperBlock)
        ensures
            final(self)@ == xor_superblocks(old(self)@, rhs@),
    {
        self.bitxor_assign_ref(&rhs);
    }

    /// Splits the (cropped) bytes into the blocks that the sizes describe.
    pub fn into_blocks(self) -> (r: Result<Vec<RawBlock>, SuperBlockError>)
        ensures
            r is Ok <==> blocks_fit(cropped(self@)),
            r matches Ok(blocks) ==> blocks@.len() == cropped(self@).block_sizes.len() && forall|
                i: int,
            |
                0 <= i < blocks@.len() ==> #[trigger] blocks@[i].raw_bytes@ == block_bytes(
                    cropped(self@),
                    i,
                ),
            r is Err ==> r == Err::<Vec<RawBlock>, SuperBlockError>(
                SuperBlockError::MissingBlockBytes,
            ),
    {
        let mut sb = self;
        sb.crop_padding();
        sb.split_blocks()
    }

    /// Splits the bytes into the blocks that the sizes describe.
    fn split_blocks(&self) -> (r: Result<Vec<RawBlock>, SuperBlockError>)
        ensures
            r is Ok <==> blocks_fit(self@),
            r matches Ok(blocks) ==> blocks@.len() == self@.block_sizes.len() && forall|i: int|
                0 <= i < blocks@.len() ==> #[trigger] blocks@[i].raw_bytes@ == block_bytes(self@, i),
            r is Err ==> r == Err::<Vec<RawBlock>, SuperBlockError>(
                SuperBlockError::MissingBlockBytes,
            ),
    {
        let ghost v = self@;
        let n = self.block_sizes.len();
        let mut blocks: Vec<RawBlock> = Vec::with_capacity(self.block_count);
        let mut cursor: usize = 0;
        let mut i: usize = 0;
        while i < n
            invariant
                v == self@,
                n == v.block_sizes.len(),
                i <= n,
                cursor == block_offset(v.block_sizes, i as int),
                cursor <= v.raw_bytes.len(),
                blocks@.len() == i,
                forall|k: int| 0 <= k < i ==> #[trigger] blocks@[k].raw_bytes@ == block_bytes(v, k),
            decreases n - i,
        {
            let size = self.block_sizes[i].0;
            if size > self.raw_bytes.len() - cursor {
                proof {
                    lemma_block_offset_monotone(v.block_sizes, i + 1, n as int);
                }
                return Err(SuperBlockError::MissingBlockBytes);
            }
            let bytes = vstd::slice::slice_subrange(self.raw_bytes.as_slice(), cursor, cursor + size);
            blocks.push(RawBlock::new(bytes));
            cursor = cursor + size;
            i += 1;
        }
        Ok(blocks)
    }

    /// Encodes the superblock into a vector
    pub fn encode_to_bytes(self) -> (r: Vec<u8>)
        ensures
            r@ == superblock_bytes(self@),
    {
        let mut out: Vec<u8> = Vec::new();
        write_superblock(&mut out, &self);
        proof {
            assert(out@ =~= superblock_bytes(self@));
        }
        out
    }

    /// Decodes the superblock from a byte slice, which it must use up.
    pub fn decode_from_bytes(bytes: &[u8]) -> (r: Result<Self, SuperBlockError>)
        ensures
            r matches Ok(sb) ==> superblock_bytes(sb@) == bytes@ && superblock_within_limits(sb@),
            r is Err ==> r == Err::<Self, SuperBlockError>(SuperBlockError::Malformed) && forall|
                v: SuperBlockView,
            | superblock_within_limits(v) ==> superblock_bytes(v) != bytes@,
    {
        match read_superblock(bytes, 0) {
            Some((sb, p)) => {
                if p == bytes.len() {
                    proof {
                        lemma_superblock_at_canonical(bytes@, 0);
                        assert(bytes@.subrange(0, p as int) =~= bytes@);
                    }
                    Ok(sb)
                } else {
                    proof {
                        lemma_no_other_superblock(bytes@);
                    }
                    Err(SuperBlockError::Malformed)
                }
            },
            None => {
                proof {
                    lemma_no_other_superblock(bytes@);
                }
                Err(SuperBlockError::Malformed)
            },
        }
    }
}

/// Two superblocks within the limits with the same encoding are the same: the
/// encoding is unambiguous.
pub proof fn lemma_superblock_bytes_injective(v: SuperBlockView, w: SuperBlockView)
    requires
        superblock_within_limits(v),
        superblock_within_limits(w),
        superblock_bytes(v) == superblock_bytes(w),
    ensures
        v == w,
{
    lemma_superblock_at(Seq::empty(), v, Seq::empty());
    lemma_superblock_at(Seq::empty(), w, Seq::empty());
    assert(Seq::<u8>::empty() + superblock_bytes(v) + Seq::<u8>::empty() =~= superblock_bytes(v));
    assert(Seq::<u8>::empty() + superblock_bytes(w) + Seq::<u8>::empty() =~= superblock_bytes(w));
}

/// When `s` encodes a superblock within the limits, reading from its start
/// gives that superblock and uses up `s`.
proof fn lemma_no_other_superblock(s: Seq<u8>)
    ensures
        forall|v: SuperBlockView|
            superblock_within_limits(v) && superblock_bytes(v) == s ==> superblock_at(s, 0) == Some(
                (v, s.len()),
            ),
{
    assert forall|v: SuperBlockView|
        superblock_within_limits(v) && superblock_bytes(v) == s implies superblock_at(s, 0) == Some(
        (v, s.len()),
    ) by {
        lemma_superblock_at(Seq::empty(), v, Seq::empty());
        assert(Seq::<u8>::empty() + superblock_bytes(v) + Seq::<u8>::empty() =~= s);
    }
}

} // verus!
