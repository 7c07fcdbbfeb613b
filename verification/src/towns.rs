//! Settlement placement: the greedy, separation-respecting choice of town
//! coordinates shared by the middle and large board generators.

use vstd::prelude::*;

use crate::board::{lemma_push_contains, spec_move_cost, Pos};
use crate::rng;

verus! {

/// Whether `p` is farther than `min_sep` from every position of `towns`.
pub open spec fn far_from_all(towns: Seq<Pos>, p: Pos, min_sep: int) -> bool {
    forall|i: int| 0 <= i < towns.len() ==> spec_move_cost(#[trigger] towns[i], p) > min_sep
}

/// Whether all positions of `towns` are pairwise farther apart than
/// `min_sep`.
pub open spec fn pairwise_separated(towns: Seq<Pos>, min_sep: int) -> bool {
    forall|i: int, j: int|
        0 <= i < towns.len() && 0 <= j < towns.len() && i != j ==> spec_move_cost(
            #[trigger] towns[i],
            #[trigger] towns[j],
        ) > min_sep
}

/// Whether `p` is farther than `min_sep` from every already accepted town.
fn all_far(towns: &Vec<Pos>, p: Pos, min_sep: usize) -> (r: bool)
    requires
        forall|i: int| 0 <= i < towns@.len() ==> spec_move_cost(#[trigger] towns@[i], p) <= usize::MAX,
    ensures
        r == far_from_all(towns@, p, min_sep as int),
{
    let mut i: usize = 0;
    while i < towns.len()
        invariant
            i <= towns@.len(),
            forall|j: int| 0 <= j < i ==> spec_move_cost(#[trigger] towns@[j], p) > min_sep,
            forall|j: int|
                0 <= j < towns@.len() ==> spec_move_cost(#[trigger] towns@[j], p) <= usize::MAX,
        decreases towns@.len() - i,
    {
        if towns[i].move_cost(&p) <= min_sep {
            return false;
        }
        i = i + 1;
    }
    true
}

/// Shuffles the candidate positions, then greedily accepts each candidate
/// that is farther than `min_sep` from every town accepted so far, until
/// `target` towns are placed or the candidates run out. Running out with
/// fewer towns than asked for is a valid outcome, not an error, and happens
/// only when every rejected candidate sits too close to an accepted town.
pub(crate) fn pick_towns(
    rngv: &mut rand::rngs::StdRng,
    candidates: Vec<Pos>,
    target: usize,
    min_sep: usize,
) -> (towns: Vec<Pos>)
    requires
        forall|i: int, j: int|
            0 <= i < candidates@.len() && 0 <= j < candidates@.len() ==> spec_move_cost(
                #[trigger] candidates@[i],
                #[trigger] candidates@[j],
            ) <= usize::MAX,
    ensures
        towns@.len() <= target,
        forall|i: int| 0 <= i < towns@.len() ==> candidates@.contains(#[trigger] towns@[i]),
        pairwise_separated(towns@, min_sep as int),
        candidates@.len() >= 1 && target >= 1 ==> towns@.len() >= 1,
        towns@.len() < target ==> forall|i: int|
            0 <= i < candidates@.len() ==> towns@.contains(#[trigger] candidates@[i])
                || !far_from_all(towns@, candidates@[i], min_sep as int),
{
    let ghost orig = candidates@;
    let mut shuffled = candidates;
    rng::shuffle(rngv, &mut shuffled);
    proof {
        orig.to_multiset_ensures();
        shuffled@.to_multiset_ensures();
        assert forall|i: int| 0 <= i < shuffled@.len() implies orig.contains(
            #[trigger] shuffled@[i],
        ) by {
            assert(shuffled@.contains(shuffled@[i]));
            assert(shuffled@.to_multiset().count(shuffled@[i]) > 0);
        }
    }
    let mut towns: Vec<Pos> = Vec::new();
    let mut k: usize = 0;
    while k < shuffled.len() && towns.len() < target
        invariant
            k <= shuffled@.len(),
            towns@.len() <= target,
            forall|i: int| 0 <= i < shuffled@.len() ==> orig.contains(#[trigger] shuffled@[i]),
            forall|i: int| 0 <= i < towns@.len() ==> orig.contains(#[trigger] towns@[i]),
            pairwise_separated(towns@, min_sep as int),
            forall|i: int, j: int|
                0 <= i < orig.len() && 0 <= j < orig.len() ==> spec_move_cost(
                    #[trigger] orig[i],
                    #[trigger] orig[j],
                ) <= usize::MAX,
            k >= 1 && target >= 1 ==> towns@.len() >= 1,
            forall|i: int|
                0 <= i < k ==> towns@.contains(#[trigger] shuffled@[i]) || !far_from_all(
                    towns@,
                    shuffled@[i],
                    min_sep as int,
                ),
        decreases shuffled@.len() - k,
    {
        let c = shuffled[k];
        proof {
            assert(orig.contains(c));
            let ci = choose|ci: int| 0 <= ci < orig.len() && orig[ci] == c;
            assert forall|i: int| 0 <= i < towns@.len() implies spec_move_cost(
                #[trigger] towns@[i],
                c,
            ) <= usize::MAX by {
                let ti = choose|ti: int| 0 <= ti < orig.len() && orig[ti] == towns@[i];
                assert(spec_move_cost(orig[ti], orig[ci]) <= usize::MAX);
            }
        }
        let ghost towns_before = towns@;
        if all_far(&towns, c, min_sep) {
            let ghost towns0 = towns@;
            towns.push(c);
            proof {
                assert forall|i: int, j: int|
                    0 <= i < towns@.len() && 0 <= j < towns@.len() && i != j implies spec_move_cost(
                        #[trigger] towns@[i],
                        #[trigger] towns@[j],
                    ) > min_sep by {
                    if i < towns0.len() && j < towns0.len() {
                        assert(spec_move_cost(towns0[i], towns0[j]) > min_sep);
                    } else if j == towns0.len() {
                        assert(towns@[i] == towns0[i]);
                        assert(spec_move_cost(towns0[i], c) > min_sep);
                    } else {
                        assert(i == towns0.len());
                        assert(spec_move_cost(towns0[j], c) > min_sep);
                        assert(spec_move_cost(towns@[i], towns@[j]) == spec_move_cost(
                            towns0[j],
                            c,
                        ));
                    }
                }
            }
        }
        proof {
            assert forall|i: int|
                0 <= i < k + 1 implies towns@.contains(#[trigger] shuffled@[i]) || !far_from_all(
                towns@,
                shuffled@[i],
                min_sep as int,
            ) by {
                if towns@ == towns_before {
                    if i == k {
                        assert(!far_from_all(towns@, c, min_sep as int));
                    }
                } else {
                    assert(towns@ == towns_before.push(c));
                    if i == k {
                        lemma_push_contains(towns_before, c, c);
                        assert(towns@.contains(c));
                    } else if towns_before.contains(shuffled@[i]) {
                        lemma_push_contains(towns_before, c, shuffled@[i]);
                    } else {
                        assert(!far_from_all(towns_before, shuffled@[i], min_sep as int));
                        assert(exists|j: int|
                            0 <= j < towns_before.len() && !(spec_move_cost(
                                #[trigger] towns_before[j],
                                shuffled@[i],
                            ) > min_sep as int));
                        let j = choose|j: int|
                            0 <= j < towns_before.len() && !(spec_move_cost(
                                #[trigger] towns_before[j],
                                shuffled@[i],
                            ) > min_sep as int);
                        assert(towns@[j] == towns_before[j]);
                        assert(!(spec_move_cost(towns@[j], shuffled@[i]) > min_sep as int));
                        assert(!far_from_all(towns@, shuffled@[i], min_sep as int));
                    }
                }
            }
        }
        k = k + 1;
    }
    proof {
        if towns@.len() < target {
            assert forall|i: int| 0 <= i < orig.len() implies towns@.contains(#[trigger] orig[i])
                || !far_from_all(towns@, orig[i], min_sep as int) by {
                assert(orig.contains(orig[i]));
                assert(orig.to_multiset().count(orig[i]) > 0);
                assert(shuffled@.contains(orig[i]));
                let j = choose|j: int| 0 <= j < shuffled@.len() && shuffled@[j] == orig[i];
                assert(towns@.contains(shuffled@[j]) || !far_from_all(
                    towns@,
                    shuffled@[j],
                    min_sep as int,
                ));
            }
        }
    }
    towns
}

} // verus!
