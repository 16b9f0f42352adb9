//! Why peeling decoding is correct: XOR-ing the known parts out of an XOR
//! combination leaves the one unknown part.
use vstd::prelude::*;

use crate::super_block::{
    byte_or_zero, cropped, empty_superblock, max_len, size_or_zero, superblock_consistent,
    xor_superblocks, SuperBlockView,
};

verus! {

/// XOR of `f` over the values that `src` gives the indices of `list`.
pub open spec fn xor_over<T>(f: spec_fn(T) -> usize, src: Map<usize, T>, list: Seq<usize>) -> usize
    decreases list.len(),
{
    if list.len() == 0 {
        0
    } else {
        xor_over(f, src, list.drop_last()) ^ f(src[list.last()])
    }
}

/// The entries of `list` that are in `known`, in order.
pub open spec fn known_part(list: Seq<usize>, known: Set<usize>) -> Seq<usize>
    decreases list.len(),
{
    if list.len() == 0 {
        Seq::empty()
    } else if known.contains(list.last()) {
        known_part(list.drop_last(), known).push(list.last())
    } else {
        known_part(list.drop_last(), known)
    }
}

/// The entries of `list` that are not in `known`, in order.
pub open spec fn unknown_part(list: Seq<usize>, known: Set<usize>) -> Seq<usize>
    decreases list.len(),
{
    if list.len() == 0 {
        Seq::empty()
    } else if known.contains(list.last()) {
        unknown_part(list.drop_last(), known)
    } else {
        unknown_part(list.drop_last(), known).push(list.last())
    }
}

proof fn lemma_xor_swap(k: usize, u: usize, x: usize)
    ensures
        (k ^ u) ^ x == (k ^ x) ^ u,
        (k ^ u) ^ x == k ^ (u ^ x),
        (k ^ u) ^ k == u,
        0usize ^ x == x,
        x ^ 0usize == x,
{
    assert((k ^ u) ^ x == (k ^ x) ^ u) by (bit_vector);
    assert((k ^ u) ^ x == k ^ (u ^ x)) by (bit_vector);
    assert((k ^ u) ^ k == u) by (bit_vector);
    assert(0usize ^ x == x) by (bit_vector);
    assert(x ^ 0usize == x) by (bit_vector);
}

/// The XOR over a list is the XOR over its known entries with the XOR over
/// its unknown entries.
pub proof fn lemma_xor_over_split<T>(
    f: spec_fn(T) -> usize,
    src: Map<usize, T>,
    list: Seq<usize>,
    known: Set<usize>,
)
    ensures
        xor_over(f, src, list) == xor_over(f, src, known_part(list, known)) ^ xor_over(
            f,
            src,
            unknown_part(list, known),
        ),
    decreases list.len(),
{
    if list.len() == 0 {
        lemma_xor_swap(0, 0, 0);
        assert(known_part(list, known).len() == 0);
        assert(unknown_part(list, known).len() == 0);
        assert(xor_over(f, src, known_part(list, known)) == 0);
        assert(xor_over(f, src, unknown_part(list, known)) == 0);
    } else {
        let init = list.drop_last();
        let x = list.last();
        lemma_xor_over_split(f, src, init, known);
        let k = known_part(init, known);
        let u = unknown_part(init, known);
        let fx = f(src[x]);
        lemma_xor_swap(xor_over(f, src, k), xor_over(f, src, u), fx);
        assert(xor_over(f, src, list) == xor_over(f, src, init) ^ fx);
        if known.contains(x) {
            assert(k.push(x).drop_last() =~= k);
            assert(known_part(list, known) == k.push(x));
            assert(unknown_part(list, known) == u);
            assert(xor_over(f, src, k.push(x)) == xor_over(f, src, k) ^ fx);
        } else {
            assert(u.push(x).drop_last() =~= u);
            assert(known_part(list, known) == k);
            assert(unknown_part(list, known) == u.push(x));
            assert(xor_over(f, src, u.push(x)) == xor_over(f, src, u) ^ fx);
        }
    }
}

/// When exactly one entry is unknown, XOR-ing the known entries out of the XOR
/// over the whole list leaves the value of the unknown one.
pub proof fn lemma_peel_value<T>(
    f: spec_fn(T) -> usize,
    src: Map<usize, T>,
    list: Seq<usize>,
    known: Set<usize>,
    u: usize,
)
    requires
        unknown_part(list, known) == seq![u],
    ensures
        xor_over(f, src, list) ^ xor_over(f, src, known_part(list, known)) == f(src[u]),
{
    lemma_xor_over_split(f, src, list, known);
    let k = xor_over(f, src, known_part(list, known));
    let fu = f(src[u]);
    assert(seq![u].drop_last() =~= Seq::<usize>::empty());
    assert(seq![u].last() == u);
    reveal_with_fuel(xor_over, 2);
    lemma_xor_swap(0, 0, fu);
    assert(xor_over(f, src, seq![u]) == 0usize ^ fu);
    lemma_xor_swap(k, fu, 0);
}

/// Two maps that agree on the entries of a list give the same XOR over it.
pub proof fn lemma_xor_over_agree<T>(
    f: spec_fn(T) -> usize,
    a: Map<usize, T>,
    b: Map<usize, T>,
    list: Seq<usize>,
)
    requires
        forall|i: int| 0 <= i < list.len() ==> a[list[i]] == b[list[i]],
    ensures
        xor_over(f, a, list) == xor_over(f, b, list),
    decreases list.len(),
{
    if list.len() > 0 {
        lemma_xor_over_agree(f, a, b, list.drop_last());
    }
}

/// Every entry of the known part is known.
pub proof fn lemma_known_part_known(list: Seq<usize>, known: Set<usize>)
    ensures
        forall|i: int|
            0 <= i < known_part(list, known).len() ==> known.contains(
                #[trigger] known_part(list, known)[i],
            ),
    decreases list.len(),
{
    if list.len() > 0 {
        let init = list.drop_last();
        lemma_known_part_known(init, known);
        let kp = known_part(init, known);
        if known.contains(list.last()) {
            assert forall|i: int| 0 <= i < kp.push(list.last()).len() implies known.contains(
                #[trigger] kp.push(list.last())[i],
            ) by {
                if i < kp.len() {
                    assert(kp.push(list.last())[i] == kp[i]);
                }
            }
        }
    }
}

/// Every entry of the unknown part is unknown and comes from the list.
pub proof fn lemma_unknown_part_unknown(list: Seq<usize>, known: Set<usize>)
    ensures
        forall|i: int|
            0 <= i < unknown_part(list, known).len() ==> !known.contains(
                #[trigger] unknown_part(list, known)[i],
            ) && list.contains(unknown_part(list, known)[i]),
    decreases list.len(),
{
    if list.len() > 0 {
        let init = list.drop_last();
        lemma_unknown_part_unknown(init, known);
        assert forall|i: int| 0 <= i < unknown_part(init, known).len() implies list.contains(
            #[trigger] unknown_part(init, known)[i],
        ) by {
            let j = choose|j: int| 0 <= j < init.len() && init[j] == unknown_part(init, known)[i];
            assert(list[j] == init[j]);
        }
        assert(list[list.len() - 1] == list.last());
    }
}

/// An entry is in the unknown part exactly when it is in the list and not known.
pub proof fn lemma_unknown_part_contains(list: Seq<usize>, known: Set<usize>, x: usize)
    ensures
        unknown_part(list, known).contains(x) <==> list.contains(x) && !known.contains(x),
    decreases list.len(),
{
    if list.len() > 0 {
        let init = list.drop_last();
        lemma_unknown_part_contains(init, known, x);
        let up = unknown_part(init, known);
        if list.contains(x) && !known.contains(x) {
            let i = choose|i: int| 0 <= i < list.len() && list[i] == x;
            if i < list.len() - 1 {
                assert(init[i] == x);
                let j = choose|j: int| 0 <= j < up.len() && up[j] == x;
                if !known.contains(list.last()) {
                    assert(up.push(list.last())[j] == x);
                }
            } else {
                assert(up.push(list.last())[up.len() as int] == x);
            }
        }
        if unknown_part(list, known).contains(x) {
            let j = choose|j: int|
                0 <= j < unknown_part(list, known).len() && unknown_part(list, known)[j] == x;
            if !known.contains(list.last()) && j == up.len() {
                assert(list[list.len() - 1] == x);
            } else {
                assert(up[j] == x);
                let i = choose|i: int| 0 <= i < init.len() && init[i] == x;
                assert(list[i] == x);
            }
        }
    }
}

/// The XOR combination of `start` with the values `src` gives the entries of `list`.
pub open spec fn xor_fold(start: SuperBlockView, src: Map<usize, SuperBlockView>, list: Seq<usize>) -> SuperBlockView
    decreases list.len(),
{
    if list.len() == 0 {
        start
    } else {
        xor_superblocks(xor_fold(start, src, list.drop_last()), src[list.last()])
    }
}

/// The parts of a list depend only on which of its entries are known.
pub proof fn lemma_parts_same_membership(list: Seq<usize>, a: Set<usize>, b: Set<usize>)
    requires
        forall|j: int| 0 <= j < list.len() ==> (a.contains(#[trigger] list[j]) <==> b.contains(list[j])),
    ensures
        known_part(list, a) == known_part(list, b),
        unknown_part(list, a) == unknown_part(list, b),
    decreases list.len(),
{
    if list.len() > 0 {
        let init = list.drop_last();
        assert forall|j: int| 0 <= j < init.len() implies (a.contains(#[trigger] init[j])
            <==> b.contains(init[j])) by {
            assert(init[j] == list[j]);
        }
        lemma_parts_same_membership(init, a, b);
        assert(a.contains(list[list.len() - 1]) <==> b.contains(list[list.len() - 1]));
    }
}

/// XOR combination over a list depends only on the superblocks of its entries.
pub proof fn lemma_xor_fold_agree(
    start: SuperBlockView,
    m1: Map<usize, SuperBlockView>,
    m2: Map<usize, SuperBlockView>,
    list: Seq<usize>,
)
    requires
        forall|j: int| 0 <= j < list.len() ==> m1[#[trigger] list[j]] == m2[list[j]],
    ensures
        xor_fold(start, m1, list) == xor_fold(start, m2, list),
    decreases list.len(),
{
    if list.len() > 0 {
        let init = list.drop_last();
        assert forall|j: int| 0 <= j < init.len() implies m1[#[trigger] init[j]] == m2[init[j]] by {
            assert(init[j] == list[j]);
        }
        lemma_xor_fold_agree(start, m1, m2, init);
        assert(m1[list[list.len() - 1]] == m2[list[list.len() - 1]]);
    }
}

/// A number that XOR combination combines by XOR.
pub open spec fn is_lane(f: spec_fn(SuperBlockView) -> usize) -> bool {
    forall|a: SuperBlockView, b: SuperBlockView| #[trigger]
        f(xor_superblocks(a, b)) == f(a) ^ f(b)
}

pub open spec fn num_lane() -> spec_fn(SuperBlockView) -> usize {
    |v: SuperBlockView| v.num
}

pub open spec fn count_lane() -> spec_fn(SuperBlockView) -> usize {
    |v: SuperBlockView| v.block_count
}

pub open spec fn length_lane() -> spec_fn(SuperBlockView) -> usize {
    |v: SuperBlockView| v.bytes_length
}

pub open spec fn size_lane(j: int) -> spec_fn(SuperBlockView) -> usize {
    |v: SuperBlockView| size_or_zero(v.block_sizes, j)
}

pub open spec fn byte_lane(j: int) -> spec_fn(SuperBlockView) -> usize {
    |v: SuperBlockView| byte_or_zero(v.raw_bytes, j) as usize
}

proof fn lemma_lanes(j: int)
    ensures
        is_lane(num_lane()),
        is_lane(count_lane()),
        is_lane(length_lane()),
        is_lane(size_lane(j)),
        is_lane(byte_lane(j)),
{
    assert forall|a: SuperBlockView, b: SuperBlockView| #[trigger]
        size_lane(j)(xor_superblocks(a, b)) == size_lane(j)(a) ^ size_lane(j)(b) by {
        if !(0 <= j < max_len(a.block_sizes.len(), b.block_sizes.len())) {
            assert(0usize ^ 0usize == 0usize) by (bit_vector);
        }
    }
    assert forall|a: SuperBlockView, b: SuperBlockView| #[trigger]
        byte_lane(j)(xor_superblocks(a, b)) == byte_lane(j)(a) ^ byte_lane(j)(b) by {
        let x = byte_or_zero(a.raw_bytes, j);
        let y = byte_or_zero(b.raw_bytes, j);
        assert((x ^ y) as usize == (x as usize) ^ (y as usize)) by (bit_vector);
        if !(0 <= j < max_len(a.raw_bytes.len(), b.raw_bytes.len())) {
            assert(0u8 ^ 0u8 == 0u8) by (bit_vector);
        }
    }
}

/// A lane of an XOR combination is the XOR of that lane over the parts.
pub proof fn lemma_fold_lane(
    f: spec_fn(SuperBlockView) -> usize,
    start: SuperBlockView,
    src: Map<usize, SuperBlockView>,
    list: Seq<usize>,
)
    requires
        is_lane(f),
    ensures
        f(xor_fold(start, src, list)) == f(start) ^ xor_over(f, src, list),
    decreases list.len(),
{
    if list.len() == 0 {
        lemma_xor_swap(0, 0, f(start));
    } else {
        lemma_fold_lane(f, start, src, list.drop_last());
        let a = f(start);
        let b = xor_over(f, src, list.drop_last());
        let c = f(src[list.last()]);
        assert((a ^ b) ^ c == a ^ (b ^ c)) by (bit_vector);
    }
}

/// XOR combination never shortens the vectors.
pub proof fn lemma_fold_lengths(
    start: SuperBlockView,
    src: Map<usize, SuperBlockView>,
    list: Seq<usize>,
)
    ensures
        xor_fold(start, src, list).raw_bytes.len() >= start.raw_bytes.len(),
        xor_fold(start, src, list).block_sizes.len() >= start.block_sizes.len(),
        forall|i: int|
            0 <= i < list.len() ==> xor_fold(start, src, list).raw_bytes.len() >= (#[trigger] src[list[i]]).raw_bytes.len()
                && xor_fold(start, src, list).block_sizes.len() >= src[list[i]].block_sizes.len(),
    decreases list.len(),
{
    if list.len() > 0 {
        let init = list.drop_last();
        lemma_fold_lengths(start, src, init);
        assert forall|i: int| 0 <= i < list.len() implies xor_fold(
            start,
            src,
            list,
        ).raw_bytes.len() >= (#[trigger] src[list[i]]).raw_bytes.len() && xor_fold(
            start,
            src,
            list,
        ).block_sizes.len() >= src[list[i]].block_sizes.len() by {
            if i < list.len() - 1 {
                assert(list[i] == init[i]);
            }
        }
    }
}

/// Peeling a superblock: take an XOR combination of source superblocks, XOR
/// out the ones already known, and crop the padding. When exactly one
/// neighbour is unknown and that source superblock is consistent, the result
/// is that source superblock.
pub proof fn lemma_peel_superblock(
    src: Map<usize, SuperBlockView>,
    recovered: Map<usize, SuperBlockView>,
    neighbors: Seq<usize>,
    known: Set<usize>,
    u: usize,
)
    requires
        forall|x: usize| #[trigger] known.contains(x) ==> recovered[x] == src[x],
        unknown_part(neighbors, known) == seq![u],
        superblock_consistent(src[u]),
    ensures
        cropped(
            xor_fold(
                xor_fold(empty_superblock(0), src, neighbors),
                recovered,
                known_part(neighbors, known),
            ),
        ) == src[u],
{
    let d = xor_fold(empty_superblock(0), src, neighbors);
    let kp = known_part(neighbors, known);
    let c = xor_fold(d, recovered, kp);
    let t = src[u];
    lemma_known_part_known(neighbors, known);
    assert forall|f: spec_fn(SuperBlockView) -> usize| #[trigger] is_lane(f) && f(
        empty_superblock(0),
    ) == 0 implies f(c) == f(t) by {
        lemma_fold_lane(f, empty_superblock(0), src, neighbors);
        lemma_fold_lane(f, d, recovered, kp);
        lemma_xor_over_agree(f, recovered, src, kp);
        lemma_xor_swap(0, 0, xor_over(f, src, neighbors));
        lemma_peel_value(f, src, neighbors, known, u);
    }
    lemma_lanes(0);
    assert(num_lane()(empty_superblock(0)) == 0);
    assert(count_lane()(empty_superblock(0)) == 0);
    assert(length_lane()(empty_superblock(0)) == 0);
    assert(num_lane()(c) == num_lane()(t));
    assert(count_lane()(c) == count_lane()(t));
    assert(length_lane()(c) == length_lane()(t));
    lemma_unknown_part_unknown(neighbors, known);
    assert(neighbors.contains(u)) by {
        assert(unknown_part(neighbors, known)[0] == u);
    }
    let iu = choose|i: int| 0 <= i < neighbors.len() && neighbors[i] == u;
    lemma_fold_lengths(empty_superblock(0), src, neighbors);
    lemma_fold_lengths(d, recovered, kp);
    assert(src[neighbors[iu]] == t);
    assert(c.raw_bytes.len() >= t.raw_bytes.len());
    assert(c.block_sizes.len() >= t.block_sizes.len());
    assert forall|j: int| 0 <= j < t.raw_bytes.len() implies c.raw_bytes[j] == #[trigger] t.raw_bytes[j] by {
        lemma_lanes(j);
        assert(byte_lane(j)(empty_superblock(0)) == 0);
        assert(byte_lane(j)(c) == byte_lane(j)(t));
    }
    assert forall|j: int| 0 <= j < t.block_sizes.len() implies c.block_sizes[j]
        == #[trigger] t.block_sizes[j] by {
        lemma_lanes(j);
        assert(size_lane(j)(empty_superblock(0)) == 0);
        assert(size_lane(j)(c) == size_lane(j)(t));
    }
    assert(cropped(c).raw_bytes =~= t.raw_bytes);
    assert(cropped(c).block_sizes =~= t.block_sizes);
}

} // verus!
