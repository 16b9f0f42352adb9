//! Decoder for droplets that each carry one superblock unchanged.
use std::collections::HashMap;

use vstd::prelude::*;

use crate::decoder::fountain_decoder::superblock_map_view;
use crate::droplet::{Droplet, DropletView};
use crate::super_block::{SuperBlock, SuperBlockView};

verus! {

broadcast use vstd::std_specs::hash::group_hash_axioms;

/// The superblocks that droplets carrying one superblock each give, the later
/// droplets in `ds` handled first, so that for a number named twice the
/// earliest droplet wins.
pub open spec fn dummy_decoded(m: Map<usize, SuperBlockView>, ds: Seq<DropletView>) -> Map<
    usize,
    SuperBlockView,
>
    decreases ds.len(),
{
    if ds.len() == 0 {
        m
    } else {
        dummy_decoded(
            m.insert(ds.last().neighbors[0], ds.last().xored_superblock),
            ds.drop_last(),
        )
    }
}

/// Strictly increasing numbers.
pub open spec fn strictly_increasing(s: Seq<usize>) -> bool {
    forall|i: int, j: int| 0 <= i < j < s.len() ==> s[i] < s[j]
}

/// Dummy decoder does not decode anything, it just returns superblock from dummy droplet in correct order.
/// It is useful only for testing of the surrounding blockchain infrastructure and decoding logic.
pub struct DummyDecoder {
    /// Received encoded symbols (droplets)
    droplets: Vec<Droplet>,
    /// Decoded superblocks, by superblock number
    recovered_super_blocks: HashMap<usize, SuperBlock>,
    /// The numbers of the decoded superblocks, smallest first
    order: Vec<usize>,
}

impl DummyDecoder {
    /// The droplets not decoded yet.
    pub closed spec fn droplets_view(&self) -> Seq<DropletView> {
        self.droplets@.map_values(|d: Droplet| d@)
    }

    /// The decoded superblocks, by number.
    pub closed spec fn recovered_view(&self) -> Map<usize, SuperBlockView> {
        superblock_map_view(self.recovered_super_blocks@)
    }

    /// The numbers of the decoded superblocks are kept in increasing order.
    pub closed spec fn wf(&self) -> bool {
        &&& strictly_increasing(self.order@)
        &&& forall|k: usize|
            #[trigger] self.recovered_super_blocks@.contains_key(k) <==> self.order@.contains(k)
    }

    /// Create a new decoder
    pub fn new() -> (r: Self)
        ensures
            r.wf(),
            r.droplets_view() == Seq::<DropletView>::empty(),
            r.recovered_view() == Map::<usize, SuperBlockView>::empty(),
    {
        let r = DummyDecoder {
            droplets: Vec::new(),
            recovered_super_blocks: HashMap::new(),
            order: Vec::new(),
        };
        proof {
            assert(r.droplets_view() =~= Seq::<DropletView>::empty());
            assert(r.recovered_view() =~= Map::<usize, SuperBlockView>::empty());
        }
        r
    }

    /// Add a droplet
    pub fn add_encoded_droplet(&mut self, droplet: Droplet)
        requires
            old(self).wf(),
        ensures
            final(self).wf(),
            final(self).droplets_view() == old(self).droplets_view().push(droplet@),
            final(self).recovered_view() == old(self).recovered_view(),
    {
        let ghost d = droplet@;
        self.droplets.push(droplet);
        proof {
            assert(self.droplets_view() =~= old(self).droplets_view().push(d));
        }
    }

    /// Moves every added droplet's superblock to the decoded superblocks, under
    /// the number of the droplet's one neighbour.
    pub fn decode(&mut self)
        requires
            old(self).wf(),
            forall|i: int|
                0 <= i < old(self).droplets_view().len() ==> (#[trigger] old(
                    self,
                ).droplets_view()[i]).neighbors.len() == 1,
        ensures
            final(self).wf(),
            final(self).droplets_view() == Seq::<DropletView>::empty(),
            final(self).recovered_view() == dummy_decoded(
                old(self).recovered_view(),
                old(self).droplets_view(),
            ),
    {
        let n = self.droplets.len();
        let mut done: usize = 0;
        proof {
            assert(self.droplets_view() =~= old(self).droplets_view().take(n as int));
        }
        while done < n
            invariant
                self.wf(),
                done <= n,
                old(self).droplets_view().len() == n,
                self.droplets@.len() == n - done,
                self.droplets_view() == old(self).droplets_view().take(n - done),
                forall|i: int|
                    0 <= i < self.droplets_view().len() ==> (
                    #[trigger] self.droplets_view()[i]).neighbors.len() == 1,
                dummy_decoded(self.recovered_view(), self.droplets_view()) == dummy_decoded(
                    old(self).recovered_view(),
                    old(self).droplets_view(),
                ),
            decreases n - done,
        {
            let ghost ds = self.droplets_view();
            let droplet = match self.droplets.pop() {
                Some(d) => d,
                None => {
                    return;
                },
            };
            proof {
                assert(droplet@ == ds.last());
                assert(self.droplets_view() =~= ds.drop_last());
            }
            let num = droplet.neighbor(0);
            let ghost before = self.recovered_view();
            self.insert_recovered(num, droplet.into_xored_superblock());
            proof {
                assert(ds.drop_last() =~= old(self).droplets_view().take(n - done - 1));
            }
            done += 1;
        }
        proof {
            assert(self.droplets_view() =~= Seq::<DropletView>::empty());
        }
    }

    /// Stores a decoded superblock under `num`, keeping the numbers in order.
    fn insert_recovered(&mut self, num: usize, sb: SuperBlock)
        requires
            old(self).wf(),
        ensures
            final(self).wf(),
            final(self).droplets_view() == old(self).droplets_view(),
            final(self).recovered_view() == old(self).recovered_view().insert(num, sb@),
    {
        let ghost v = sb@;
        if !self.recovered_super_blocks.contains_key(&num) {
            let mut p: usize = 0;
            while p < self.order.len() && self.order[p] < num
                invariant
                    p <= self.order@.len(),
                    strictly_increasing(self.order@),
                    forall|i: int| 0 <= i < p ==> self.order@[i] < num,
                decreases self.order@.len() - p,
            {
                p += 1;
            }
            let ghost old_order = self.order@;
            proof {
                assert(!old_order.contains(num));
                if p < old_order.len() {
                    assert(old_order[p as int] != num);
                }
            }
            self.order.insert(p, num);
            proof {
                let o = self.order@;
                assert(o == old_order.insert(p as int, num));
                assert forall|i: int, j: int| 0 <= i < j < o.len() implies o[i] < o[j] by {
                    if j < p {
                    } else if j == p {
                    } else if i < p {
                        assert(o[j] == old_order[j - 1]);
                        if p < old_order.len() {
                            assert(old_order[p as int] > num);
                        }
                    } else if i == p {
                        assert(o[j] == old_order[j - 1]);
                        assert(old_order[p as int] > num);
                    } else {
                        assert(o[i] == old_order[i - 1]);
                        assert(o[j] == old_order[j - 1]);
                    }
                }
                assert forall|k: usize| o.contains(k) <==> old_order.contains(k) || k == num by {
                    if o.contains(k) {
                        let i = choose|i: int| 0 <= i < o.len() && o[i] == k;
                        if i < p {
                            assert(old_order[i] == k);
                        } else if i > p {
                            assert(old_order[i - 1] == k);
                        }
                    }
                    if old_order.contains(k) {
                        let i = choose|i: int| 0 <= i < old_order.len() && old_order[i] == k;
                        if i < p {
                            assert(o[i] == k);
                        } else {
                            assert(o[i + 1] == k);
                        }
                    }
                    if k == num {
                        assert(o[p as int] == k);
                    }
                }
            }
        }
        self.recovered_super_blocks.insert(num, sb);
        proof {
            assert(self.recovered_view() =~= old(self).recovered_view().insert(num, v));
        }
    }

    /// Returns decoded superblock `num` when it is the decoded superblock with
    /// the smallest number, and removes it from the decoded superblocks.
    pub fn get_decoded_superblock(&mut self, num: usize) -> (r: Option<SuperBlock>)
        requires
            old(self).wf(),
        ensures
            final(self).wf(),
            final(self).droplets_view() == old(self).droplets_view(),
            ({
                let m = old(self).recovered_view();
                let first = m.contains_key(num) && forall|k: usize| #[trigger]
                    m.contains_key(k) ==> num <= k;
                &&& first ==> r is Some && r.unwrap()@ == m[num] && final(self).recovered_view()
                    == m.remove(num)
                &&& !first ==> r is None && final(self).recovered_view() == m
            }),
    {
        let ghost m = self.recovered_view();
        if self.order.len() == 0 {
            proof {
                assert forall|k: usize| !#[trigger] m.contains_key(k) by {
                    assert(!self.order@.contains(k));
                }
            }
            return None;
        }
        let first = self.order[0];
        proof {
            assert(self.order@.contains(first));
            assert(m.contains_key(first));
            assert forall|k: usize| #[trigger] m.contains_key(k) implies first <= k by {
                assert(self.order@.contains(k));
                let i = choose|i: int| 0 <= i < self.order@.len() && self.order@[i] == k;
            }
        }
        if first != num {
            return None;
        }
        let ghost old_order = self.order@;
        self.order.remove(0);
        let r = self.recovered_super_blocks.remove(&num);
        proof {
            let o = self.order@;
            assert(o == old_order.subrange(1, old_order.len() as int));
            assert forall|k: usize| #[trigger]
                self.recovered_super_blocks@.contains_key(k) <==> o.contains(k) by {
                if o.contains(k) {
                    let i = choose|i: int| 0 <= i < o.len() && o[i] == k;
                    assert(old_order[i + 1] == k);
                }
                if old_order.contains(k) && k != num {
                    let i = choose|i: int| 0 <= i < old_order.len() && old_order[i] == k;
                    assert(o[i - 1] == k);
                }
            }
            assert(self.recovered_view() =~= m.remove(num));
        }
        r
    }
}

} // verus!
