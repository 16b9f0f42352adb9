//! Random choices, made with the `rand` crate.
use rand::rngs::ThreadRng;

use vstd::prelude::*;

verus! {

#[verifier::external_type_specification]
#[verifier::external_body]
pub struct ExThreadRng(ThreadRng);

/// Calls `rand::RngExt::random_range(rng, 0..bound)`; trusted to give a number
/// below `bound` (the crate panics on an empty range, which `requires` rules
/// out). Which number comes out is chance and is not stated.
#[verifier::external_body]
pub(crate) fn random_index(rng: &mut ThreadRng, bound: usize) -> (r: usize)
    requires
        bound > 0,
    ensures
        r < bound,
{
    rand::RngExt::random_range(rng, 0..bound)
}

/// No number occurs twice.
pub open spec fn distinct(s: Seq<usize>) -> bool {
    forall|i: int, j: int| 0 <= i < j < s.len() ==> s[i] != s[j]
}

/// `x` is an index that `random_index` gave when it was asked for one below
/// `n`.
pub closed spec fn drawn_below(n: usize, x: usize) -> bool {
    exists|a: (&mut ThreadRng, usize)| a.1 == n && #[trigger] call_ensures(random_index, a, x)
}

/// The numbers below `bound`, in order.
pub open spec fn all_below(bound: usize) -> Seq<usize> {
    Seq::new(bound as nat, |i: int| i as usize)
}

/// Picking from the candidates `cands` by the draws `draws`: each draw takes
/// the candidate at its position and moves the last candidate into its place.
/// Gives the numbers picked, in order, and the candidates left.
pub open spec fn picks(cands: Seq<usize>, draws: Seq<usize>) -> (Seq<usize>, Seq<usize>)
    decreases draws.len(),
{
    if draws.len() == 0 {
        (Seq::empty(), cands)
    } else {
        let (chosen, left) = picks(cands, draws.drop_last());
        let j = draws.last() as int;
        (chosen.push(left[j]), left.update(j, left.last()).drop_last())
    }
}

/// One number is picked per draw, one candidate is used up per draw, and the
/// first number picked is the candidate at the first draw.
pub proof fn lemma_picks_first(cands: Seq<usize>, draws: Seq<usize>)
    requires
        forall|t: int| 0 <= t < draws.len() ==> #[trigger] draws[t] < cands.len() - t,
    ensures
        picks(cands, draws).0.len() == draws.len(),
        picks(cands, draws).1.len() == cands.len() - draws.len(),
        draws.len() >= 1 ==> picks(cands, draws).0[0] == cands[draws[0] as int],
    decreases draws.len(),
{
    if draws.len() > 0 {
        let init = draws.drop_last();
        assert forall|t: int| 0 <= t < init.len() implies #[trigger] init[t] < cands.len() - t by {
            assert(init[t] == draws[t]);
        }
        lemma_picks_first(cands, init);
        assert(draws[draws.len() - 1] < cands.len() - (draws.len() - 1));
        if draws.len() > 1 {
            assert(init[0] == draws[0]);
        }
    }
}

/// Every number below `bound` can come out of a pick of `count` numbers: the
/// draws that ask for its position first pick it.
pub proof fn lemma_every_candidate_can_be_picked(bound: usize, count: usize, x: usize)
    requires
        1 <= count <= bound,
        x < bound,
    ensures
        exists|draws: Seq<usize>|
            #![trigger picks(all_below(bound), draws)]
            draws.len() == count && (forall|t: int|
                0 <= t < count ==> #[trigger] draws[t] < bound - t) && picks(
                all_below(bound),
                draws,
            ).0.contains(x),
{
    let draws = Seq::new(count as nat, |t: int| if t == 0 {
        x
    } else {
        0usize
    });
    assert forall|t: int| 0 <= t < count implies #[trigger] draws[t] < bound - t by {}
    assert forall|t: int| 0 <= t < draws.len() implies #[trigger] draws[t] < all_below(bound).len()
        - t by {}
    lemma_picks_first(all_below(bound), draws);
    assert(picks(all_below(bound), draws).0[0] == x);
}

/// Picks `count` different numbers below `bound` at random, each subset of
/// that size equally likely.
pub fn random_distinct(rng: &mut ThreadRng, bound: usize, count: usize) -> (r: Vec<usize>)
    requires
        count <= bound,
    ensures
        r@.len() == count,
        distinct(r@),
        forall|i: int| 0 <= i < r@.len() ==> r@[i] < bound,
        exists|draws: Seq<usize>|
            #![trigger picks(all_below(bound), draws)]
            draws.len() == count && (forall|t: int|
                0 <= t < count ==> drawn_below((bound - t) as usize, #[trigger] draws[t])) && r@
                == picks(all_below(bound), draws).0,
{
    let mut candidates: Vec<usize> = Vec::with_capacity(bound);
    let mut c: usize = 0;
    while c < bound
        invariant
            c <= bound,
            candidates@.len() == c,
            forall|i: int| 0 <= i < c ==> candidates@[i] == i,
        decreases bound - c,
    {
        candidates.push(c);
        c += 1;
    }
    let mut chosen: Vec<usize> = Vec::with_capacity(count);
    let ghost mut draws: Seq<usize> = Seq::empty();
    proof {
        assert(candidates@ =~= all_below(bound));
        assert(chosen@ =~= picks(all_below(bound), draws).0);
    }
    while chosen.len() < count
        invariant
            count <= bound,
            chosen@.len() <= count,
            chosen@.len() + candidates@.len() == bound,
            distinct(chosen@),
            distinct(candidates@),
            forall|i: int| 0 <= i < chosen@.len() ==> chosen@[i] < bound,
            forall|i: int| 0 <= i < candidates@.len() ==> candidates@[i] < bound,
            forall|i: int, j: int|
                0 <= i < chosen@.len() && 0 <= j < candidates@.len() ==> chosen@[i]
                    != candidates@[j],
            draws.len() == chosen@.len(),
            forall|t: int|
                0 <= t < draws.len() ==> drawn_below((bound - t) as usize, #[trigger] draws[t]),
            (chosen@, candidates@) == picks(all_below(bound), draws),
        decreases count - chosen@.len(),
    {
        let j = random_index(rng, candidates.len());
        proof {
            assert(drawn_below(candidates@.len() as usize, j));
        }
        let ghost before = candidates@;
        let ghost chosen_before = chosen@;
        let ghost draws_before = draws;
        let picked = candidates.swap_remove(j);
        proof {
            assert(candidates@ == before.update(j as int, before.last()).drop_last());
            assert forall|a: int| 0 <= a < candidates@.len() implies candidates@[a] == if a == j {
                before[before.len() - 1]
            } else {
                before[a]
            } by {}
        }
        chosen.push(picked);
        proof {
            draws = draws.push(j);
            assert(draws.drop_last() =~= draws_before);
            assert((bound - draws_before.len()) as usize == before.len());
            assert forall|t: int|
                0 <= t < draws.len() implies drawn_below((bound - t) as usize, #[trigger] draws[t]) by {
                if t < draws_before.len() {
                    assert(draws[t] == draws_before[t]);
                }
            }
            assert(picks(all_below(bound), draws) == (chosen_before.push(before[j as int]), before.update(
                j as int,
                before.last(),
            ).drop_last()));
        }
    }
    chosen
}

} // verus!
