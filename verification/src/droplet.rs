//! Droplets: a superblock XOR combination together with the numbers of the
//! superblocks combined in it, and their byte encoding.
use vstd::prelude::*;

use crate::compact_size::{
    compact_size_at, compact_size_bytes, compact_size_list_at, compact_size_list_bytes, concat_all,
    lemma_compact_size_at_canonical, lemma_compact_size_at_in, lemma_compact_size_list_at_canonical,
    lemma_compact_size_list_at_in, lemma_concat_all_ends, lemma_piece_in, piece_offset,
    push_compact_size, read_compact_size, DEFAULT_VALUE_LIMIT, DEFAULT_VEC_LIMIT,
};
use crate::super_block::{
    count_bytes, lemma_superblock_at_canonical, lemma_superblock_at_in,
    read_superblock, superblock_at, superblock_bytes, superblock_within_limits, write_superblock,
    SuperBlock, SuperBlockView,
};

verus! {

/// Superblock number.
#[derive(Debug, Clone, Copy, PartialEq, Eq, Hash, Structural)]
pub struct Neighbor(usize);

impl View for Neighbor {
    type V = usize;

    closed spec fn view(&self) -> usize {
        self.0
    }
}

impl Neighbor {
    pub fn new(num: usize) -> (r: Self)
        ensures
            r@ == num,
    {
        Neighbor(num)
    }

    /// The superblock number.
    pub fn index(&self) -> (r: usize)
        ensures
            r == self@,
    {
        self.0
    }
}

impl From<usize> for Neighbor {
    fn from(value: usize) -> (r: Self)
        ensures
            r@ == value,
    {
        Neighbor(value)
    }
}

impl vstd::std_specs::convert::FromSpecImpl<usize> for Neighbor {
    open spec fn obeys_from_spec() -> bool {
        true
    }

    closed spec fn from_spec(v: usize) -> Self {
        Neighbor(v)
    }
}

impl From<Neighbor> for usize {
    fn from(value: Neighbor) -> (r: Self)
        ensures
            r == value@,
    {
        value.0
    }
}

impl vstd::std_specs::convert::FromSpecImpl<Neighbor> for usize {
    open spec fn obeys_from_spec() -> bool {
        true
    }

    closed spec fn from_spec(v: Neighbor) -> Self {
        v.0
    }
}

impl From<&Neighbor> for usize {
    fn from(n: &Neighbor) -> (r: usize)
        ensures
            r == n@,
    {
        n.0
    }
}

impl vstd::std_specs::convert::FromSpecImpl<&Neighbor> for usize {
    open spec fn obeys_from_spec() -> bool {
        true
    }

    open spec fn from_spec(n: &Neighbor) -> usize {
        n@
    }
}

/// Neighbours are equal exactly when they name the same superblock.
pub proof fn lemma_neighbor_view_injective(a: Neighbor, b: Neighbor)
    ensures
        a@ == b@ <==> a == b,
{
}

/// The superblock numbers of a list of neighbours.
pub open spec fn neighbor_numbers(ns: Seq<Neighbor>) -> Seq<usize> {
    ns.map_values(|n: Neighbor| n@)
}

/// The mathematical content of a droplet.
pub struct DropletView {
    pub num: usize,
    pub neighbors: Seq<usize>,
    pub xored_superblock: SuperBlockView,
}

/// A droplet: the XOR combination of the superblocks it names.
#[derive(Debug, Clone, PartialEq)]
pub struct Droplet {
    /// Droplet number
    pub num: usize,
    /// Numbers of the superblocks encoded in this droplet
    neighbors: Vec<Neighbor>,
    /// Superblock encoded (XORed) into this droplet
    xored_superblock: SuperBlock,
}

impl Droplet {
    /// The droplet number.
    pub closed spec fn number(&self) -> usize {
        self.num
    }

    /// The superblock numbers of the droplet's neighbours.
    pub closed spec fn neighbor_list(&self) -> Seq<usize> {
        neighbor_numbers(self.neighbors@)
    }

    /// The droplet's (XOR-combined) superblock.
    pub closed spec fn superblock_view(&self) -> SuperBlockView {
        self.xored_superblock@
    }
}

impl View for Droplet {
    type V = DropletView;

    open spec fn view(&self) -> DropletView {
        DropletView {
            num: self.number(),
            neighbors: self.neighbor_list(),
            xored_superblock: self.superblock_view(),
        }
    }
}

/// Why a droplet could not be decoded.
#[derive(Debug, Clone, Copy, PartialEq, Eq, Structural)]
pub enum DropletError {
    /// The bytes are not the encoding of a droplet.
    Malformed,
}

/// The pieces of a droplet's encoding: its number, its neighbours with their
/// count in front, every number in compact-size form, then its superblock.
pub open spec fn droplet_pieces(d: DropletView) -> Seq<Seq<u8>> {
    seq![
        compact_size_bytes(d.num as u64),
        count_bytes(d.neighbors.len()),
        compact_size_list_bytes(d.neighbors),
        superblock_bytes(d.xored_superblock),
    ]
}

/// The byte encoding of a droplet: its pieces one after another.
pub open spec fn droplet_bytes(d: DropletView) -> Seq<u8> {
    concat_all(droplet_pieces(d))
}

/// The bounds within which a droplet's encoding is read back: a number and
/// neighbours of at most 32 MiB, at most 4,000,000 neighbours, and a superblock
/// within its limits.
pub open spec fn droplet_within_limits(d: DropletView) -> bool {
    &&& d.num <= DEFAULT_VALUE_LIMIT
    &&& d.neighbors.len() <= DEFAULT_VEC_LIMIT
    &&& forall|i: int| 0 <= i < d.neighbors.len() ==> d.neighbors[i] <= DEFAULT_VALUE_LIMIT
    &&& superblock_within_limits(d.xored_superblock)
}

/// Reads a droplet encoding starting at `pos`.
pub open spec fn droplet_at(s: Seq<u8>, pos: nat) -> Option<(DropletView, nat)> {
    match compact_size_at(s, pos, DEFAULT_VALUE_LIMIT) {
        None => None,
        Some((num, p1)) => match compact_size_at(s, p1, DEFAULT_VEC_LIMIT) {
            None => None,
            Some((count, p2)) => match compact_size_list_at(
                s,
                p2,
                count as nat,
                DEFAULT_VALUE_LIMIT,
            ) {
                None => None,
                Some((neighbors, p3)) => match superblock_at(s, p3) {
                    None => None,
                    Some((sb, p4)) => Some(
                        (DropletView { num, neighbors, xored_superblock: sb }, p4),
                    ),
                },
            },
        },
    }
}

proof fn lemma_droplet_bytes_unfold(d: DropletView)
    ensures
        droplet_bytes(d) == compact_size_bytes(d.num as u64) + count_bytes(d.neighbors.len())
            + compact_size_list_bytes(d.neighbors) + superblock_bytes(d.xored_superblock),
{
    let ps = droplet_pieces(d);
    reveal_with_fuel(concat_all, 5);
    assert(ps.drop_last().drop_last().drop_last().drop_last() =~= Seq::<Seq<u8>>::empty());
    assert(ps.drop_last().drop_last().drop_last() =~= seq![ps[0]]);
    assert(concat_all(ps) =~= compact_size_bytes(d.num as u64) + count_bytes(d.neighbors.len())
        + compact_size_list_bytes(d.neighbors) + superblock_bytes(d.xored_superblock));
}

/// Reading the encoding of a droplet within the limits gives the droplet back.
pub proof fn lemma_droplet_at(pre: Seq<u8>, d: DropletView, rest: Seq<u8>)
    requires
        droplet_within_limits(d),
    ensures
        droplet_at(pre + droplet_bytes(d) + rest, pre.len()) == Some(
            (d, pre.len() + droplet_bytes(d).len()),
        ),
{
    let ps = droplet_pieces(d);
    let s = pre + droplet_bytes(d) + rest;
    let o = pre.len();
    lemma_concat_all_ends(ps);
    lemma_piece_in(pre, ps, rest, 0);
    lemma_piece_in(pre, ps, rest, 1);
    lemma_piece_in(pre, ps, rest, 2);
    lemma_piece_in(pre, ps, rest, 3);
    lemma_compact_size_at_in(s, o + piece_offset(ps, 0), d.num, DEFAULT_VALUE_LIMIT);
    lemma_compact_size_at_in(
        s,
        o + piece_offset(ps, 1),
        d.neighbors.len() as usize,
        DEFAULT_VEC_LIMIT,
    );
    lemma_compact_size_list_at_in(s, o + piece_offset(ps, 2), d.neighbors, DEFAULT_VALUE_LIMIT);
    lemma_superblock_at_in(s, o + piece_offset(ps, 3), d.xored_superblock);
}

/// A successful read covers exactly the encoding of the droplet read.
pub proof fn lemma_droplet_at_canonical(s: Seq<u8>, pos: nat)
    requires
        droplet_at(s, pos) is Some,
    ensures
        ({
            let (d, p) = droplet_at(s, pos).unwrap();
            &&& pos <= p <= s.len()
            &&& droplet_within_limits(d)
            &&& s.subrange(pos as int, p as int) == droplet_bytes(d)
        }),
{
    let (num, p1) = compact_size_at(s, pos, DEFAULT_VALUE_LIMIT).unwrap();
    lemma_compact_size_at_canonical(s, pos, DEFAULT_VALUE_LIMIT);
    let (count, p2) = compact_size_at(s, p1, DEFAULT_VEC_LIMIT).unwrap();
    lemma_compact_size_at_canonical(s, p1, DEFAULT_VEC_LIMIT);
    let (neighbors, p3) = compact_size_list_at(s, p2, count as nat, DEFAULT_VALUE_LIMIT).unwrap();
    lemma_compact_size_list_at_canonical(s, p2, count as nat, DEFAULT_VALUE_LIMIT);
    lemma_superblock_at_canonical(s, p3);
    let (d, p) = droplet_at(s, pos).unwrap();
    let c1 = s.subrange(pos as int, p1 as int);
    let c2 = c1 + s.subrange(p1 as int, p2 as int);
    let c3 = c2 + s.subrange(p2 as int, p3 as int);
    let c4 = c3 + s.subrange(p3 as int, p as int);
    assert(c2 =~= s.subrange(pos as int, p2 as int));
    assert(c3 =~= s.subrange(pos as int, p3 as int));
    assert(c4 =~= s.subrange(pos as int, p as int));
    lemma_droplet_bytes_unfold(d);
    assert(droplet_bytes(d) =~= c4);
}

/// Two droplets within the limits with the same encoding are the same: the
/// encoding is unambiguous.
pub proof fn lemma_droplet_bytes_injective(d: DropletView, e: DropletView)
    requires
        droplet_within_limits(d),
        droplet_within_limits(e),
        droplet_bytes(d) == droplet_bytes(e),
    ensures
        d == e,
{
    lemma_droplet_at(Seq::empty(), d, Seq::empty());
    lemma_droplet_at(Seq::empty(), e, Seq::empty());
    assert(Seq::<u8>::empty() + droplet_bytes(d) + Seq::<u8>::empty() =~= droplet_bytes(d));
    assert(Seq::<u8>::empty() + droplet_bytes(e) + Seq::<u8>::empty() =~= droplet_bytes(e));
}

/// When `s` encodes a droplet within the limits, reading from its start gives
/// that droplet and uses up `s`.
proof fn lemma_no_other_droplet(s: Seq<u8>)
    ensures
        forall|d: DropletView|
            droplet_within_limits(d) && droplet_bytes(d) == s ==> droplet_at(s, 0) == Some(
                (d, s.len()),
            ),
{
    assert forall|d: DropletView| droplet_within_limits(d) && droplet_bytes(d) == s implies droplet_at(
        s,
        0,
    ) == Some((d, s.len())) by {
        lemma_droplet_at(Seq::empty(), d, Seq::empty());
        assert(Seq::<u8>::empty() + droplet_bytes(d) + Seq::<u8>::empty() =~= s);
    }
}

/// Reads `count` neighbours starting at `pos`.
fn read_neighbors(bytes: &[u8], pos: usize, count: usize) -> (r: Option<(Vec<Neighbor>, usize)>)
    requires
        pos <= bytes@.len(),
    ensures
        r is Some <==> compact_size_list_at(bytes@, pos as nat, count as nat, DEFAULT_VALUE_LIMIT)
            is Some,
        r matches Some((v, p)) ==> compact_size_list_at(
            bytes@,
            pos as nat,
            count as nat,
            DEFAULT_VALUE_LIMIT,
        ) == Some((neighbor_numbers(v@), p as nat)) && p <= bytes@.len(),
{
    let mut neighbors: Vec<Neighbor> = Vec::new();
    let mut p = pos;
    let mut i: usize = 0;
    proof {
        reveal(compact_size_list_at);
        assert(neighbor_numbers(neighbors@) =~= Seq::<usize>::empty());
    }
    while i < count
        invariant
            i <= count,
            pos <= p <= bytes@.len(),
            compact_size_list_at(bytes@, pos as nat, i as nat, DEFAULT_VALUE_LIMIT) == Some(
                (neighbor_numbers(neighbors@), p as nat),
            ),
        decreases count - i,
    {
        proof {
            reveal(compact_size_list_at);
        }
        match read_compact_size(bytes, p, DEFAULT_VALUE_LIMIT) {
            Some((v, next)) => {
                let n = Neighbor::new(v);
                proof {
                    assert(neighbor_numbers(neighbors@.push(n)) =~= neighbor_numbers(
                        neighbors@,
                    ).push(v));
                }
                neighbors.push(n);
                p = next;
            },
            None => {
                proof {
                    lemma_list_none_extends(bytes@, pos as nat, (i + 1) as nat, count as nat);
                }
                return None;
            },
        }
        i += 1;
    }
    Some((neighbors, p))
}

proof fn lemma_list_none_extends(s: Seq<u8>, pos: nat, n: nat, m: nat)
    requires
        n <= m,
        compact_size_list_at(s, pos, n, DEFAULT_VALUE_LIMIT) is None,
    ensures
        compact_size_list_at(s, pos, m, DEFAULT_VALUE_LIMIT) is None,
    decreases m - n,
{
    reveal(compact_size_list_at);
    if n < m {
        lemma_list_none_extends(s, pos, n, (m - 1) as nat);
    }
}

impl Droplet {
    /// Creates new droplet containing given superblock (possibly XORed) with some `neighbors`
    pub fn new(num: usize, neighbors: Vec<Neighbor>, superblock: SuperBlock) -> (r: Self)
        ensures
            r@ == (DropletView {
                num,
                neighbors: neighbor_numbers(neighbors@),
                xored_superblock: superblock@,
            }),
    {
        Self { num, neighbors, xored_superblock: superblock }
    }

    /// Returns `neighbors` XORed into the droplet
    pub fn neighbors(&self) -> (r: Vec<Neighbor>)
        ensures
            neighbor_numbers(r@) == self@.neighbors,
    {
        let r = self.neighbors.clone();
        proof {
            assert(r@ =~= self.neighbors@);
        }
        r
    }

    /// Returns reference to data encoded (XORed) in the droplet
    pub fn xored_superblock(&self) -> (r: &SuperBlock)
        ensures
            r@ == self@.xored_superblock,
    {
        &self.xored_superblock
    }

    /// Consumes self and returns data encoded (XORed) in the droplet
    pub fn into_xored_superblock(self) -> (r: SuperBlock)
        ensures
            r@ == self@.xored_superblock,
    {
        self.xored_superblock
    }

    /// Returns the size of the encoded data
    pub fn data_size(&self) -> (r: usize)
        ensures
            r == self@.xored_superblock.raw_bytes.len(),
    {
        self.xored_superblock.size()
    }

    /// The number of neighbours.
    pub fn neighbor_count(&self) -> (r: usize)
        ensures
            r == self@.neighbors.len(),
    {
        self.neighbors.len()
    }

    /// The superblock number of neighbour `i`.
    pub fn neighbor(&self, i: usize) -> (r: usize)
        requires
            i < self@.neighbors.len(),
        ensures
            r == self@.neighbors[i as int],
    {
        self.neighbors[i].0
    }

    /// Encodes the droplet into a vector.
    pub fn encode_to_bytes(&self) -> (r: Vec<u8>)
        ensures
            r@ == droplet_bytes(self@),
    {
        let mut out: Vec<u8> = Vec::new();
        push_compact_size(&mut out, self.num);
        push_compact_size(&mut out, self.neighbors.len());
        let ghost before = out@;
        let mut i: usize = 0;
        while i < self.neighbors.len()
            invariant
                i <= self.neighbors@.len(),
                out@ == before + compact_size_list_bytes(
                    neighbor_numbers(self.neighbors@).take(i as int),
                ),
            decreases self.neighbors@.len() - i,
        {
            push_compact_size(&mut out, self.neighbors[i].0);
            proof {
                let t = neighbor_numbers(self.neighbors@).take(i + 1);
                assert(t.drop_last() =~= neighbor_numbers(self.neighbors@).take(i as int));
            }
            i += 1;
        }
        proof {
            assert(neighbor_numbers(self.neighbors@).take(i as int) =~= neighbor_numbers(
                self.neighbors@,
            ));
        }
        write_superblock(&mut out, &self.xored_superblock);
        proof {
            lemma_droplet_bytes_unfold(self@);
            assert(out@ =~= droplet_bytes(self@));
        }
        out
    }

    /// Decodes a droplet from a byte slice, which it must use up.
    pub fn decode_from_bytes(bytes: &[u8]) -> (r: Result<Self, DropletError>)
        ensures
            r matches Ok(d) ==> droplet_bytes(d@) == bytes@ && droplet_within_limits(d@),
            r is Err ==> r == Err::<Self, DropletError>(DropletError::Malformed) && forall|
                d: DropletView,
            | droplet_within_limits(d) ==> droplet_bytes(d) != bytes@,
    {
        proof {
            lemma_no_other_droplet(bytes@);
        }
        let (num, p1) = match read_compact_size(bytes, 0, DEFAULT_VALUE_LIMIT) {
            Some(x) => x,
            None => return Err(DropletError::Malformed),
        };
        let (count, p2) = match read_compact_size(bytes, p1, DEFAULT_VEC_LIMIT) {
            Some(x) => x,
            None => return Err(DropletError::Malformed),
        };
        let (neighbors, p3) = match read_neighbors(bytes, p2, count) {
            Some(x) => x,
            None => return Err(DropletError::Malformed),
        };
        let (xored_superblock, p4) = match read_superblock(bytes, p3) {
            Some(x) => x,
            None => return Err(DropletError::Malformed),
        };
        if p4 != bytes.len() {
            return Err(DropletError::Malformed);
        }
        let d = Droplet { num, neighbors, xored_superblock };
        proof {
            lemma_droplet_at_canonical(bytes@, 0);
            assert(bytes@.subrange(0, p4 as int) =~= bytes@);
        }
        Ok(d)
    }
}

} // verus!
