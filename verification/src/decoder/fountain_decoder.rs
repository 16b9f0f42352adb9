//! Peeling decoder for the Luby Transform (LT) code over superblocks.
use std::collections::HashMap;

use vstd::prelude::*;

use crate::blockchain::headerchain::{
    lemma_passes_excludes_refused, presence_consistent, hashes_consistent, superblock_passes,
    superblock_refused_by, validate_superblock, HeaderChainValidator,
};
use crate::droplet::{Droplet, DropletView};
use crate::encoder::fountain_encoder::superblocks_by_index;
use crate::peeling::{
    known_part, lemma_known_part_known, lemma_parts_same_membership, lemma_peel_superblock,
    lemma_unknown_part_contains, lemma_unknown_part_unknown, lemma_xor_fold_agree, unknown_part,
    xor_fold,
};
use crate::super_block::{
    blocks_fit, cropped, empty_superblock, superblock_consistent,
    SuperBlock, SuperBlockView,
};

verus! {

broadcast use vstd::std_specs::hash::group_hash_axioms;

/// A droplet whose superblock is the XOR combination of the source superblocks
/// it names, each of which is known and consistent.
pub open spec fn droplet_encodes(d: DropletView, src: Map<usize, SuperBlockView>) -> bool {
    &&& d.xored_superblock == xor_fold(empty_superblock(0), src, d.neighbors)
    &&& forall|j: int|
        0 <= j < d.neighbors.len() ==> src.contains_key(#[trigger] d.neighbors[j])
            && superblock_consistent(src[d.neighbors[j]])
}

/// Every droplet of `droplets` encodes the source superblocks `src`.
pub open spec fn all_encode(droplets: Seq<DropletView>, src: Map<usize, SuperBlockView>) -> bool {
    forall|i: int| 0 <= i < droplets.len() ==> droplet_encodes(#[trigger] droplets[i], src)
}

/// Every recovered superblock is the source superblock of its number.
pub open spec fn agrees_with(
    recovered: Map<usize, SuperBlockView>,
    src: Map<usize, SuperBlockView>,
) -> bool {
    forall|k: usize| #[trigger]
        recovered.contains_key(k) ==> src.contains_key(k) && recovered[k] == src[k]
}

/// A droplet made by the fountain encoder from consistent superblocks encodes
/// them: its superblock is the XOR combination, starting from an empty
/// superblock numbered zero, of the superblocks at its neighbours' positions.
pub proof fn lemma_encoded_droplet(d: DropletView, sbs: Seq<SuperBlock>)
    requires
        d.xored_superblock == xor_fold(empty_superblock(0), superblocks_by_index(sbs), d.neighbors),
        forall|i: int| 0 <= i < d.neighbors.len() ==> #[trigger] d.neighbors[i] < sbs.len(),
        forall|i: int| 0 <= i < sbs.len() ==> superblock_consistent(#[trigger] sbs[i]@),
    ensures
        droplet_encodes(d, superblocks_by_index(sbs)),
{
    assert forall|j: int| 0 <= j < d.neighbors.len() implies superblocks_by_index(sbs).contains_key(
        #[trigger] d.neighbors[j],
    ) && superblock_consistent(superblocks_by_index(sbs)[d.neighbors[j]]) by {
        assert(superblock_consistent(sbs[d.neighbors[j] as int]@));
    }
}

/// The superblocks of a map, by their view.
pub open spec fn superblock_map_view(m: Map<usize, SuperBlock>) -> Map<usize, SuperBlockView> {
    m.map_values(|sb: SuperBlock| sb@)
}

/// Peeling droplet `d` against the recovered superblocks `rec`: when exactly
/// one of its neighbours, `u`, is not recovered, `u` and the droplet's
/// superblock with every recovered neighbour XOR-ed out and its padding
/// cropped.
pub open spec fn peel_of(d: DropletView, rec: Map<usize, SuperBlockView>) -> Option<
    (usize, SuperBlockView),
> {
    let unknown = unknown_part(d.neighbors, rec.dom());
    if unknown.len() == 1 {
        Some(
            (
                unknown[0],
                cropped(xor_fold(d.xored_superblock, rec, known_part(d.neighbors, rec.dom()))),
            ),
        )
    } else {
        None
    }
}

/// Every superblock recovered in `after` but not in `before` is the peel of
/// one of the droplets against the other recovered superblocks.
pub open spec fn peeled_from(
    droplets: Seq<DropletView>,
    before: Map<usize, SuperBlockView>,
    after: Map<usize, SuperBlockView>,
) -> bool {
    forall|k: usize| #[trigger]
        after.contains_key(k) && !before.contains_key(k) ==> exists|i: int|
            0 <= i < droplets.len() && peel_of(droplets[i], after.remove(k)) == Some((k, after[k]))
}

/// Recovering a superblock that is not a neighbour of a droplet does not
/// change the droplet's peel.
proof fn lemma_peel_of_insert(
    d: DropletView,
    m: Map<usize, SuperBlockView>,
    u: usize,
    x: SuperBlockView,
)
    requires
        !m.contains_key(u),
        !d.neighbors.contains(u),
    ensures
        peel_of(d, m.insert(u, x)) == peel_of(d, m),
{
    let m2 = m.insert(u, x);
    assert forall|j: int| 0 <= j < d.neighbors.len() implies (m2.dom().contains(
        #[trigger] d.neighbors[j],
    ) <==> m.dom().contains(d.neighbors[j])) by {
        assert(d.neighbors[j] != u);
    }
    lemma_parts_same_membership(d.neighbors, m2.dom(), m.dom());
    let kp = known_part(d.neighbors, m.dom());
    lemma_known_part_known(d.neighbors, m.dom());
    assert forall|j: int| 0 <= j < kp.len() implies m2[#[trigger] kp[j]] == m[kp[j]] by {
        assert(m.dom().contains(kp[j]));
    }
    lemma_xor_fold_agree(d.xored_superblock, m2, m, kp);
}

/// Recovering the peel of a droplet keeps every recovered superblock a peel.
proof fn lemma_peeled_from_insert(
    droplets: Seq<DropletView>,
    before: Map<usize, SuperBlockView>,
    rec: Map<usize, SuperBlockView>,
    i: int,
    u: usize,
    x: SuperBlockView,
)
    requires
        peeled_from(droplets, before, rec),
        0 <= i < droplets.len(),
        peel_of(droplets[i], rec) == Some((u, x)),
    ensures
        peeled_from(droplets, before, rec.insert(u, x)),
{
    let after = rec.insert(u, x);
    lemma_unknown_part_unknown(droplets[i].neighbors, rec.dom());
    assert(!rec.contains_key(u));
    assert forall|k: usize| #[trigger]
        after.contains_key(k) && !before.contains_key(k) implies exists|j: int|
        0 <= j < droplets.len() && peel_of(droplets[j], after.remove(k)) == Some((k, after[k])) by {
        if k == u {
            assert(after.remove(u) =~= rec);
            assert(peel_of(droplets[i], after.remove(k)) == Some((k, after[k])));
        } else {
            assert(rec.contains_key(k) && !before.contains_key(k));
            let j = choose|j: int|
                0 <= j < droplets.len() && peel_of(droplets[j], rec.remove(k)) == Some((k, rec[k]));
            let d = droplets[j];
            let m = rec.remove(k);
            assert(unknown_part(d.neighbors, m.dom()).len() == 1);
            assert(unknown_part(d.neighbors, m.dom())[0] == k);
            assert(unknown_part(d.neighbors, m.dom()) =~= seq![k]);
            if d.neighbors.contains(u) {
                lemma_unknown_part_contains(d.neighbors, m.dom(), u);
                assert(seq![k].contains(u));
                assert(false);
            }
            lemma_peel_of_insert(d, m, u, x);
            assert(after.remove(k) =~= m.insert(u, x));
            assert(peel_of(droplets[j], after.remove(k)) == Some((k, after[k])));
        }
    }
}

/// A peel that the header-chain check accepts without asking the header
/// chain: its bytes split into its blocks, and it has no block.
pub open spec fn accepted_unasked(x: SuperBlockView) -> bool {
    blocks_fit(cropped(x)) && cropped(x).block_sizes.len() == 0
}

/// Peeling is stuck: no droplet can be peeled against `rec`, but for the
/// droplets in `refused`.
pub open spec fn peeling_stuck(
    droplets: Seq<DropletView>,
    rec: Map<usize, SuperBlockView>,
    refused: Set<int>,
) -> bool {
    forall|i: int|
        0 <= i < droplets.len() ==> peel_of(#[trigger] droplets[i], rec) is None || refused.contains(i)
}

/// The refused droplets are droplets that had one neighbour left to peel, and
/// whatever one of them still gives against `rec` is a peel that the
/// header-chain check does not accept without asking the header chain.
pub open spec fn refusals_hold(
    droplets: Seq<DropletView>,
    rec: Map<usize, SuperBlockView>,
    refused: Set<int>,
) -> bool {
    forall|i: int| #[trigger]
        refused.contains(i) ==> 0 <= i < droplets.len() && unknown_part(
            droplets[i].neighbors,
            rec.dom(),
        ).len() <= 1 && match peel_of(droplets[i], rec) {
            Some((_, x)) => !accepted_unasked(x),
            None => true,
        }
}

/// The refused droplets' peels, where they still give one against `rec`, are
/// superblocks that the header chain refused.
pub open spec fn refusals_checked<H: HeaderChainValidator>(
    h: &H,
    droplets: Seq<DropletView>,
    rec: Map<usize, SuperBlockView>,
    refused: Set<int>,
) -> bool {
    forall|i: int| #[trigger]
        refused.contains(i) ==> match peel_of(droplets[i], rec) {
            Some((_, x)) => superblock_refused_by(h, x),
            None => true,
        }
}

/// Every superblock recovered in `after` but not in `before` is one that the
/// header chain accepted.
pub open spec fn accepted_from<H: HeaderChainValidator>(
    h: &H,
    before: Map<usize, SuperBlockView>,
    after: Map<usize, SuperBlockView>,
) -> bool {
    forall|k: usize| #[trigger]
        after.contains_key(k) && !before.contains_key(k) ==> superblock_passes(h, after[k])
}

/// Every superblock recovered in `after` but not in `before` splits, with its
/// padding cropped, into its blocks, as the header-chain check requires.
pub open spec fn blocks_fit_from(
    before: Map<usize, SuperBlockView>,
    after: Map<usize, SuperBlockView>,
) -> bool {
    forall|k: usize| #[trigger]
        after.contains_key(k) && !before.contains_key(k) ==> blocks_fit(cropped(after[k]))
}

/// Number of `true` entries.
pub open spec fn count_true(s: Seq<bool>) -> nat
    decreases s.len(),
{
    if s.len() == 0 {
        0
    } else {
        count_true(s.drop_last()) + if s.last() {
            1nat
        } else {
            0nat
        }
    }
}

proof fn lemma_count_true_set(s: Seq<bool>, i: int)
    requires
        0 <= i < s.len(),
        !s[i],
    ensures
        count_true(s.update(i, true)) == count_true(s) + 1,
    decreases s.len(),
{
    let t = s.update(i, true);
    if i == s.len() - 1 {
        assert(t.drop_last() =~= s.drop_last());
    } else {
        assert(t.drop_last() =~= s.drop_last().update(i, true));
        lemma_count_true_set(s.drop_last(), i);
    }
}

proof fn lemma_count_true_full(s: Seq<bool>)
    ensures
        count_true(s) <= s.len(),
        count_true(s) >= s.len() ==> forall|p: int| 0 <= p < s.len() ==> #[trigger] s[p],
    decreases s.len(),
{
    if s.len() > 0 {
        lemma_count_true_full(s.drop_last());
        if count_true(s) >= s.len() {
            assert forall|p: int| 0 <= p < s.len() implies #[trigger] s[p] by {
                if p < s.len() - 1 {
                    assert(s.drop_last()[p] == s[p]);
                }
            }
        }
    }
}

/// Knowing more leaves no more entries unknown.
proof fn lemma_unknown_part_shrinks(list: Seq<usize>, a: Set<usize>, b: Set<usize>)
    requires
        a.subset_of(b),
    ensures
        unknown_part(list, b).len() <= unknown_part(list, a).len(),
    decreases list.len(),
{
    if list.len() > 0 {
        lemma_unknown_part_shrinks(list.drop_last(), a, b);
    }
}

/// Once its one unknown neighbour is known, a droplet has no unknown
/// neighbour.
proof fn lemma_unknown_part_resolved(list: Seq<usize>, a: Set<usize>, u: usize)
    requires
        unknown_part(list, a) == seq![u],
    ensures
        unknown_part(list, a.insert(u)).len() == 0,
{
    let b = a.insert(u);
    if unknown_part(list, b).len() > 0 {
        let x = unknown_part(list, b)[0];
        assert(unknown_part(list, b).contains(x));
        lemma_unknown_part_contains(list, b, x);
        lemma_unknown_part_contains(list, a, x);
        assert(seq![u].contains(x));
    }
}

/// Recovering a superblock leaves a droplet with at most one unknown
/// neighbour so, and its peel, when it still has one, unchanged.
proof fn lemma_peel_after_insert(
    d: DropletView,
    rec: Map<usize, SuperBlockView>,
    u: usize,
    x: SuperBlockView,
)
    requires
        !rec.contains_key(u),
        unknown_part(d.neighbors, rec.dom()).len() <= 1,
    ensures
        unknown_part(d.neighbors, rec.insert(u, x).dom()).len() <= 1,
        peel_of(d, rec.insert(u, x)) is None || peel_of(d, rec.insert(u, x)) == peel_of(d, rec),
{
    let after = rec.insert(u, x);
    assert(after.dom() =~= rec.dom().insert(u));
    lemma_unknown_part_shrinks(d.neighbors, rec.dom(), after.dom());
    if unknown_part(d.neighbors, after.dom()).len() == 1 {
        let w = unknown_part(d.neighbors, rec.dom())[0];
        assert(unknown_part(d.neighbors, rec.dom()) =~= seq![w]);
        if w == u {
            lemma_unknown_part_resolved(d.neighbors, rec.dom(), u);
        } else {
            if d.neighbors.contains(u) {
                lemma_unknown_part_contains(d.neighbors, rec.dom(), u);
                assert(seq![w].contains(u));
            }
            lemma_peel_of_insert(d, rec, u, x);
        }
    }
}

/// Where peeling is stuck, the refusals checked by the header chain, and the
/// header chain answers consistently, no droplet can still be peeled into a
/// superblock that the header chain accepts: a peel the header chain accepts
/// is never left unrecovered.
pub proof fn lemma_stuck_leaves_no_accepted_peel<H: HeaderChainValidator>(
    h: &H,
    droplets: Seq<DropletView>,
    rec: Map<usize, SuperBlockView>,
    refused: Set<int>,
)
    requires
        peeling_stuck(droplets, rec, refused),
        refusals_checked(h, droplets, rec, refused),
        presence_consistent(h),
        hashes_consistent(h),
    ensures
        forall|i: int|
            0 <= i < droplets.len() ==> match peel_of(#[trigger] droplets[i], rec) {
                Some((_, x)) => !superblock_passes(h, x),
                None => true,
            },
{
    assert forall|i: int| 0 <= i < droplets.len() implies match peel_of(#[trigger] droplets[i], rec) {
        Some((_, x)) => !superblock_passes(h, x),
        None => true,
    } by {
        match peel_of(droplets[i], rec) {
            Some((_, x)) => {
                assert(refused.contains(i));
                lemma_passes_excludes_refused(h, x);
            },
            None => {},
        }
    }
}

/// Fountain decoder is a peeling decoder for a Luby Transform (LT) code.
/// It decodes the superblock with a requested number from a set of LT encoded droplets.
pub struct FountainDecoder<'a, H: HeaderChainValidator> {
    /// Received encoded symbols (droplets)
    droplets: Vec<Droplet>,
    /// Decoded superblocks, by superblock number
    recovered: HashMap<usize, SuperBlock>,
    /// Header-chain validator used to reject invalid droplets
    header_chain: &'a H,
    /// The droplets whose peel the header chain refused during the last
    /// decoding call
    refused: Ghost<Set<int>>,
}

impl<'a, H: HeaderChainValidator> FountainDecoder<'a, H> {
    /// The droplets received so far.
    pub closed spec fn droplets_view(&self) -> Seq<DropletView> {
        self.droplets@.map_values(|d: Droplet| d@)
    }

    /// The superblocks decoded so far, by number.
    pub closed spec fn recovered_view(&self) -> Map<usize, SuperBlockView> {
        superblock_map_view(self.recovered@)
    }

    /// The header chain that judges the peels.
    pub closed spec fn validator(&self) -> &'a H {
        self.header_chain
    }

    /// The droplets whose peel the header chain refused during the last call
    /// of `get_decoded_superblock`.
    pub closed spec fn refused(&self) -> Set<int> {
        self.refused@
    }

    /// Whatever source superblocks the droplets encode, every decoded
    /// superblock is the source superblock of its number.
    pub open spec fn sound(&self) -> bool {
        forall|src: Map<usize, SuperBlockView>| #[trigger]
            all_encode(self.droplets_view(), src) ==> agrees_with(self.recovered_view(), src)
    }

    /// What decoding promises: when the droplets were made from a list of
    /// consistent superblocks, every decoded superblock is the superblock at
    /// its number's position in that list.
    pub proof fn lemma_decoded_is_source(&self, sbs: Seq<SuperBlock>, num: usize)
        requires
            self.sound(),
            all_encode(self.droplets_view(), superblocks_by_index(sbs)),
            self.recovered_view().contains_key(num),
        ensures
            num < sbs.len(),
            self.recovered_view()[num] == sbs[num as int]@,
    {
        assert(agrees_with(self.recovered_view(), superblocks_by_index(sbs)));
    }

    /// Create a new decoder
    pub fn new(droplets: Vec<Droplet>, header_chain: &'a H, super_blocks_per_epoch: usize) -> (r:
        Self)
        ensures
            r.droplets_view() == droplets@.map_values(|d: Droplet| d@),
            r.recovered_view() == Map::<usize, SuperBlockView>::empty(),
            r.refused() == Set::<int>::empty(),
            r.sound(),
    {
        let r = FountainDecoder {
            droplets,
            recovered: HashMap::with_capacity(super_blocks_per_epoch),
            header_chain,
            refused: Ghost(Set::empty()),
        };
        proof {
            assert(r.recovered_view() =~= Map::<usize, SuperBlockView>::empty());
        }
        r
    }

    /// Adds a received droplet.
    pub fn add_encoded_droplet(&mut self, droplet: Droplet)
        requires
            old(self).sound(),
        ensures
            final(self).droplets_view() == old(self).droplets_view().push(droplet@),
            final(self).recovered_view() == old(self).recovered_view(),
            final(self).refused() == old(self).refused(),
            final(self).validator() == old(self).validator(),
            final(self).sound(),
    {
        let ghost d = droplet@;
        self.droplets.push(droplet);
        proof {
            assert(self.droplets_view() =~= old(self).droplets_view().push(d));
            assert forall|src: Map<usize, SuperBlockView>| #[trigger]
                all_encode(self.droplets_view(), src) implies agrees_with(
                self.recovered_view(),
                src,
            ) by {
                assert forall|i: int| 0 <= i < old(self).droplets_view().len() implies droplet_encodes(
                    #[trigger] old(self).droplets_view()[i],
                    src,
                ) by {
                    assert(self.droplets_view()[i] == old(self).droplets_view()[i]);
                }
                assert(all_encode(old(self).droplets_view(), src));
            }
        }
    }

    /// Returns the decoded superblock with number `num`, decoding droplets by
    /// peeling until it is found or no droplet helps any more.
    ///
    /// A droplet with exactly one superblock not yet decoded gives that
    /// superblock once the decoded ones are XOR-ed out and the padding is
    /// cropped (`peel_candidate`); the header chain judges it
    /// (`validate_superblock`), and `accept_peeled` keeps it only when the
    /// header chain accepts its blocks. A droplet is looked at no more once it
    /// gave a superblock or was refused; refusals are recorded in `refused`.
    pub fn get_decoded_superblock(&mut self, num: usize) -> (r: Option<SuperBlock>)
        requires
            old(self).sound(),
        ensures
            final(self).sound(),
            final(self).droplets_view() == old(self).droplets_view(),
            old(self).recovered_view().submap_of(final(self).recovered_view()),
            old(self).recovered_view().contains_key(num) ==> final(self).recovered_view()
                == old(self).recovered_view(),
            peeled_from(
                final(self).droplets_view(),
                old(self).recovered_view(),
                final(self).recovered_view(),
            ),
            blocks_fit_from(old(self).recovered_view(), final(self).recovered_view()),
            refusals_hold(final(self).droplets_view(), final(self).recovered_view(), final(self).refused()),
            final(self).validator() == old(self).validator(),
            refusals_checked(
                final(self).validator(),
                final(self).droplets_view(),
                final(self).recovered_view(),
                final(self).refused(),
            ),
            accepted_from(final(self).validator(), old(self).recovered_view(), final(self).recovered_view()),
            r matches Some(sb) ==> final(self).recovered_view().contains_key(num)
                && final(self).recovered_view()[num] == sb@,
            r is None ==> !final(self).recovered_view().contains_key(num),
            r is None ==> peeling_stuck(
                final(self).droplets_view(),
                final(self).recovered_view(),
                final(self).refused(),
            ),
            r is None ==> forall|i: int|
                0 <= i < final(self).droplets_view().len() ==> match peel_of(
                    #[trigger] final(self).droplets_view()[i],
                    final(self).recovered_view(),
                ) {
                    Some((_, x)) => !accepted_unasked(x),
                    None => true,
                },
    {
        self.refused = Ghost(Set::empty());
        proof {
            assert(self.droplets_view() == old(self).droplets_view());
            assert(self.recovered_view() == old(self).recovered_view());
        }
        if let Some(sb) = self.recovered.get(&num) {
            return Some(sb.clone());
        }
        let count = self.droplets.len();
        let mut skip: Vec<bool> = Vec::new();
        let mut j: usize = 0;
        while j < count
            invariant
                j <= count,
                skip@.len() == j,
                forall|p: int| 0 <= p < j ==> !#[trigger] skip@[p],
            decreases count - j,
        {
            skip.push(false);
            j += 1;
        }
        proof {
            lemma_count_true_full(skip@);
        }
        let mut pass: usize = 0;
        while pass < count
            invariant
                count == self.droplets@.len(),
                count == self.droplets_view().len(),
                skip@.len() == count,
                pass <= count,
                self.sound(),
                self.droplets_view() == old(self).droplets_view(),
                old(self).recovered_view().submap_of(self.recovered_view()),
                peeled_from(self.droplets_view(), old(self).recovered_view(), self.recovered_view()),
                blocks_fit_from(old(self).recovered_view(), self.recovered_view()),
                refusals_hold(self.droplets_view(), self.recovered_view(), self.refused()),
                self.validator() == old(self).validator(),
                refusals_checked(self.validator(), self.droplets_view(), self.recovered_view(), self.refused()),
                accepted_from(self.validator(), old(self).recovered_view(), self.recovered_view()),
                forall|p: int|
                    0 <= p < count && #[trigger] skip@[p] ==> self.refused().contains(p)
                        || unknown_part(self.droplets_view()[p].neighbors, self.recovered_view().dom()).len() == 0,
                !self.recovered_view().contains_key(num),
                count_true(skip@) >= pass || forall|p: int|
                    0 <= p < count ==> #[trigger] skip@[p] || peel_of(
                        self.droplets_view()[p],
                        self.recovered_view(),
                    ) is None,
            decreases count - pass,
        {
            let ghost start_skip = skip@;
            let ghost start_rec = self.recovered_view();
            let ghost stuck_at_start = forall|p: int|
                0 <= p < count ==> #[trigger] skip@[p] || peel_of(
                    self.droplets_view()[p],
                    self.recovered_view(),
                ) is None;
            let ghost mut changed = false;
            let mut stop = false;
            let mut i: usize = 0;
            while i < count && !stop
                invariant
                    stop ==> changed,
                    count == self.droplets@.len(),
                    count == self.droplets_view().len(),
                    skip@.len() == count,
                    i <= count,
                    self.sound(),
                    self.droplets_view() == old(self).droplets_view(),
                    old(self).recovered_view().submap_of(self.recovered_view()),
                    peeled_from(
                        self.droplets_view(),
                        old(self).recovered_view(),
                        self.recovered_view(),
                    ),
                    blocks_fit_from(old(self).recovered_view(), self.recovered_view()),
                    refusals_hold(self.droplets_view(), self.recovered_view(), self.refused()),
                    self.validator() == old(self).validator(),
                    refusals_checked(self.validator(), self.droplets_view(), self.recovered_view(), self.refused()),
                    accepted_from(self.validator(), old(self).recovered_view(), self.recovered_view()),
                    forall|p: int|
                        0 <= p < count && #[trigger] skip@[p] ==> self.refused().contains(p)
                            || unknown_part(self.droplets_view()[p].neighbors, self.recovered_view().dom()).len() == 0,
                    !self.recovered_view().contains_key(num),
                    start_skip.len() == count,
                    count_true(skip@) >= count_true(start_skip),
                    changed ==> count_true(skip@) > count_true(start_skip),
                    !changed ==> self.recovered_view() == start_rec && skip@ == start_skip,
                    !changed ==> forall|p: int|
                        0 <= p < i ==> #[trigger] skip@[p] || peel_of(
                            self.droplets_view()[p],
                            self.recovered_view(),
                        ) is None,
                    stuck_at_start ==> !changed,
                    stuck_at_start == forall|p: int|
                        0 <= p < count ==> #[trigger] start_skip[p] || peel_of(
                            self.droplets_view()[p],
                            start_rec,
                        ) is None,
                decreases count - i,
            {
                if !skip[i] {
                    match self.peel_candidate(i) {
                        Some((u, candidate)) => {
                            let accepted = validate_superblock(self.header_chain, &candidate);
                            let ghost before = self.recovered_view();
                            let ghost cv = candidate@;
                            let ghost ds = self.droplets_view();
                            let ghost old_skip = skip@;
                            proof {
                                assert(!stuck_at_start || changed || !(peel_of(ds[i as int], start_rec) is None));
                                lemma_unknown_part_unknown(ds[i as int].neighbors, before.dom());
                                assert(unknown_part(ds[i as int].neighbors, before.dom()) =~= seq![u]);
                                if accepted {
                                    lemma_peeled_from_insert(
                                        ds,
                                        old(self).recovered_view(),
                                        before,
                                        i as int,
                                        u,
                                        cv,
                                    );
                                }
                            }
                            let returned = self.accept_peeled(i, u, candidate, accepted, num);
                            if !accepted {
                                self.refused = Ghost(self.refused@.insert(i as int));
                            }
                            skip.set(i, true);
                            proof {
                                lemma_count_true_set(old_skip, i as int);
                                changed = true;
                                if accepted {
                                    let after = self.recovered_view();
                                    assert(after == before.insert(u, cv));
                                    assert(after.dom() =~= before.dom().insert(u));
                                    assert forall|k: usize| #[trigger]
                                        after.contains_key(k) && !old(self).recovered_view().contains_key(k)
                                        implies blocks_fit(cropped(after[k])) by {
                                        if k != u {
                                            assert(before.contains_key(k));
                                        }
                                    }
                                    assert forall|k: usize| #[trigger]
                                        after.contains_key(k) && !old(self).recovered_view().contains_key(k)
                                        implies superblock_passes(self.validator(), after[k]) by {
                                        if k != u {
                                            assert(before.contains_key(k));
                                        }
                                    }
                                    assert forall|q: int| #[trigger]
                                        self.refused().contains(q) implies match peel_of(ds[q], after) {
                                        Some((_, x)) => superblock_refused_by(self.validator(), x),
                                        None => true,
                                    } by {
                                        lemma_peel_after_insert(ds[q], before, u, cv);
                                    }
                                    assert forall|q: int| #[trigger]
                                        self.refused().contains(q) implies 0 <= q < ds.len()
                                        && unknown_part(ds[q].neighbors, after.dom()).len() <= 1
                                        && match peel_of(ds[q], after) {
                                        Some((_, x)) => !accepted_unasked(x),
                                        None => true,
                                    } by {
                                        lemma_peel_after_insert(ds[q], before, u, cv);
                                    }
                                    lemma_unknown_part_resolved(ds[i as int].neighbors, before.dom(), u);
                                    assert forall|p: int|
                                        0 <= p < count && #[trigger] skip@[p] implies self.refused().contains(p)
                                        || unknown_part(ds[p].neighbors, after.dom()).len() == 0 by {
                                        if p != i && !self.refused().contains(p) {
                                            lemma_unknown_part_shrinks(ds[p].neighbors, before.dom(), after.dom());
                                        }
                                    }
                                } else {
                                    assert(!accepted_unasked(cv));
                                    assert(superblock_refused_by(self.validator(), cv));
                                    assert forall|q: int| #[trigger]
                                        self.refused().contains(q) implies match peel_of(ds[q], before) {
                                        Some((_, x)) => superblock_refused_by(self.validator(), x),
                                        None => true,
                                    } by {
                                        if q == i {
                                            assert(peel_of(ds[q], before) == Some((u, cv)));
                                        }
                                    }
                                    assert forall|q: int| #[trigger]
                                        self.refused().contains(q) implies 0 <= q < ds.len()
                                        && unknown_part(ds[q].neighbors, before.dom()).len() <= 1
                                        && match peel_of(ds[q], before) {
                                        Some((_, x)) => !accepted_unasked(x),
                                        None => true,
                                    } by {
                                        if q == i {
                                            assert(peel_of(ds[q], before) == Some((u, cv)));
                                        }
                                    }
                                }
                            }
                            if !accepted {
                                stop = true;
                            }
                            if returned.is_some() {
                                return returned;
                            }
                        },
                        None => {},
                    }
                }
                i += 1;
            }
            proof {
                lemma_count_true_full(skip@);
            }
            pass += 1;
        }
        proof {
            lemma_count_true_full(skip@);
            let ds = self.droplets_view();
            let rec = self.recovered_view();
            assert forall|p: int| 0 <= p < ds.len() implies peel_of(#[trigger] ds[p], rec) is None
                || self.refused().contains(p) by {
                if !skip@[p] {
                    assert(peel_of(ds[p], rec) is None);
                }
            }
            assert forall|p: int| 0 <= p < ds.len() implies match peel_of(#[trigger] ds[p], rec) {
                Some((_, x)) => !accepted_unasked(x),
                None => true,
            } by {
                if peel_of(ds[p], rec) is Some {
                    assert(self.refused().contains(p));
                }
            }
        }
        None
    }

    /// The peel of droplet `i` against the superblocks recovered so far, when
    /// exactly one of its neighbours is not recovered: that neighbour, and the
    /// droplet's superblock with the recovered neighbours XOR-ed out and its
    /// padding cropped.
    pub fn peel_candidate(&self, i: usize) -> (r: Option<(usize, SuperBlock)>)
        requires
            i < self.droplets_view().len(),
        ensures
            r is None <==> peel_of(self.droplets_view()[i as int], self.recovered_view()) is None,
            r matches Some((u, x)) ==> peel_of(self.droplets_view()[i as int], self.recovered_view())
                == Some((u, x@)),
    {
        proof {
            assert(self.droplets_view()[i as int] == self.droplets@[i as int]@);
        }
        let unknown = unknown_neighbors(&self.droplets[i], &self.recovered);
        if unknown.len() != 1 {
            return None;
        }
        let u = unknown[0];
        let mut candidate = self.peel(i);
        candidate.crop_padding();
        Some((u, candidate))
    }

    /// Settles the peel `candidate` of droplet `i`, for its neighbour `u`, by
    /// the header chain's verdict `accepted`: an accepted peel is recovered as
    /// superblock `u`, and returned when `u` is `num`; a refused one changes
    /// nothing.
    pub fn accept_peeled(
        &mut self,
        i: usize,
        u: usize,
        candidate: SuperBlock,
        accepted: bool,
        num: usize,
    ) -> (r: Option<SuperBlock>)
        requires
            old(self).sound(),
            i < old(self).droplets_view().len(),
            peel_of(old(self).droplets_view()[i as int], old(self).recovered_view()) == Some(
                (u, candidate@),
            ),
        ensures
            final(self).sound(),
            final(self).droplets_view() == old(self).droplets_view(),
            final(self).refused() == old(self).refused(),
            final(self).validator() == old(self).validator(),
            accepted ==> final(self).recovered_view() == old(self).recovered_view().insert(
                u,
                candidate@,
            ),
            !accepted ==> final(self).recovered_view() == old(self).recovered_view(),
            r is Some <==> accepted && u == num,
            r matches Some(sb) ==> sb@ == candidate@,
    {
        if !accepted {
            return None;
        }
        proof {
            let d = self.droplets_view()[i as int];
            assert(unknown_part(d.neighbors, self.recovered_view().dom()) =~= seq![u]);
            self.lemma_peel_sound(i as int, u);
        }
        let returned = if num == u {
            Some(candidate.clone())
        } else {
            None
        };
        let ghost before = self.recovered_view();
        let ghost cv = candidate@;
        self.recovered.insert(u, candidate);
        proof {
            assert(self.recovered_view() =~= before.insert(u, cv));
        }
        returned
    }

    /// The superblock of droplet `i` with every decoded neighbour XOR-ed out.
    fn peel(&self, i: usize) -> (r: SuperBlock)
        requires
            i < self.droplets@.len(),
        ensures
            r@ == xor_fold(
                self.droplets_view()[i as int].xored_superblock,
                self.recovered_view(),
                known_part(self.droplets_view()[i as int].neighbors, self.recovered_view().dom()),
            ),
    {
        let droplet = &self.droplets[i];
        let ghost d = self.droplets_view()[i as int];
        assert(d == droplet@);
        let ghost known = self.recovered_view().dom();
        let mut candidate = droplet.xored_superblock().clone();
        let n = droplet.neighbor_count();
        let mut k: usize = 0;
        while k < n
            invariant
                n == d.neighbors.len(),
                d == droplet@,
                k <= n,
                known == self.recovered_view().dom(),
                candidate@ == xor_fold(
                    d.xored_superblock,
                    self.recovered_view(),
                    known_part(d.neighbors.take(k as int), known),
                ),
            decreases n - k,
        {
            let nb = droplet.neighbor(k);
            proof {
                assert(d.neighbors.take(k + 1).drop_last() =~= d.neighbors.take(k as int));
                assert(d.neighbors.take(k + 1).last() == nb);
            }
            match self.recovered.get(&nb) {
                Some(known_sb) => {
                    proof {
                        let kp = known_part(d.neighbors.take(k as int), known);
                        assert(kp.push(nb).drop_last() =~= kp);
                    }
                    candidate.bitxor_assign_ref(known_sb);
                },
                None => {},
            }
            k += 1;
        }
        proof {
            assert(d.neighbors.take(n as int) =~= d.neighbors);
        }
        candidate
    }

    /// Adding the peeled, cropped superblock of droplet `i` under its one
    /// unknown neighbour `u` keeps the decoder sound.
    proof fn lemma_peel_sound(&self, i: int, u: usize)
        requires
            self.sound(),
            0 <= i < self.droplets_view().len(),
            unknown_part(self.droplets_view()[i].neighbors, self.recovered_view().dom()) == seq![
                u,
            ],
        ensures
            forall|src: Map<usize, SuperBlockView>| #[trigger]
                all_encode(self.droplets_view(), src) ==> agrees_with(
                    self.recovered_view().insert(
                        u,
                        crate::super_block::cropped(
                            xor_fold(
                                self.droplets_view()[i].xored_superblock,
                                self.recovered_view(),
                                known_part(
                                    self.droplets_view()[i].neighbors,
                                    self.recovered_view().dom(),
                                ),
                            ),
                        ),
                    ),
                    src,
                ),
    {
        let d = self.droplets_view()[i];
        let rec = self.recovered_view();
        let known = rec.dom();
        assert forall|src: Map<usize, SuperBlockView>| #[trigger]
            all_encode(self.droplets_view(), src) implies agrees_with(
            rec.insert(
                u,
                crate::super_block::cropped(xor_fold(d.xored_superblock, rec, known_part(d.neighbors, known))),
            ),
            src,
        ) by {
            assert(droplet_encodes(self.droplets_view()[i], src));
            assert(agrees_with(rec, src));
            crate::peeling::lemma_unknown_part_unknown(d.neighbors, known);
            assert(unknown_part(d.neighbors, known)[0] == u);
            let j = choose|j: int| 0 <= j < d.neighbors.len() && d.neighbors[j] == u;
            assert(src.contains_key(d.neighbors[j]));
            lemma_peel_superblock(src, rec, d.neighbors, known, u);
        }
    }
}

/// The neighbours of `droplet` that are not decoded yet, in order.
fn unknown_neighbors(droplet: &Droplet, recovered: &HashMap<usize, SuperBlock>) -> (r: Vec<usize>)
    ensures
        r@ == unknown_part(droplet@.neighbors, superblock_map_view(recovered@).dom()),
{
    let ghost known = superblock_map_view(recovered@).dom();
    let n = droplet.neighbor_count();
    let mut unknown: Vec<usize> = Vec::new();
    let mut k: usize = 0;
    while k < n
        invariant
            n == droplet@.neighbors.len(),
            k <= n,
            known == superblock_map_view(recovered@).dom(),
            unknown@ == unknown_part(droplet@.neighbors.take(k as int), known),
        decreases n - k,
    {
        let nb = droplet.neighbor(k);
        proof {
            assert(droplet@.neighbors.take(k + 1).drop_last() =~= droplet@.neighbors.take(k as int));
            assert(droplet@.neighbors.take(k + 1).last() == nb);
        }
        if !recovered.contains_key(&nb) {
            unknown.push(nb);
        }
        k += 1;
    }
    proof {
        assert(droplet@.neighbors.take(n as int) =~= droplet@.neighbors);
    }
    unknown
}

} // verus!
