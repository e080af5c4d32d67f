//! Laws of selection: which candidates are taken, and how chance decides.

use vstd::prelude::*;

use crate::curves::{exp_gives, Curves};
use crate::laws::orders::{lemma_negative_quotients, lemma_signed_order, lemma_signed_sums};
use crate::learning::{
    argmax, best_of, candidates, greedy, greedy_selection, picked, reaches, running_sum, sampled,
    selection_of, softmax_weights, substitutes, taken, top_of, ExplorationPolicy, Selection,
};
use crate::order::{arranges, sorts, Placed};
use crate::rng::{fraction_drawn, Rng};
use crate::scalar::{Scalar, ZERO};

verus! {

/// Whether scores are finite numbers.
pub open spec fn scored(scores: Seq<Scalar>) -> bool {
    forall|i: int| 0 <= i < scores.len() ==> (#[trigger] scores[i]).finite()
}

/// The best of the first scores.
proof fn lemma_best(scores: Seq<Scalar>, n: int)
    requires
        1 <= n <= scores.len(),
        scored(scores),
    ensures
        0 <= best_of(scores, n) < n,
        forall|j: int| 0 <= j < n ==> (#[trigger] scores[j]).at_most(scores[best_of(scores, n)]),
        forall|j: int|
            0 <= j < best_of(scores, n) ==> (#[trigger] scores[j]).below(
                scores[best_of(scores, n)],
            ),
    decreases n,
{
    if n > 1 {
        lemma_best(scores, n - 1);
    }
}

/// The maximum is at least every score, and the first of those that are.
pub proof fn lemma_the_maximum_is_largest(scores: Vec<Scalar>, found: Option<usize>)
    requires
        call_ensures(argmax, (&scores,), found),
        scored(scores@),
        scores@.len() > 0,
    ensures
        found is Some,
        found->0 < scores@.len(),
        forall|j: int|
            0 <= j < scores@.len() ==> (#[trigger] scores@[j]).at_most(scores@[found->0 as int]),
        forall|j: int|
            0 <= j < found->0 ==> (#[trigger] scores@[j]).below(scores@[found->0 as int]),
{
    lemma_best(scores@, scores@.len() as int);
}

/// The largest score among candidates is one of theirs, and none is larger.
pub proof fn lemma_the_top_is_largest(scores: Seq<Scalar>, left: Seq<usize>)
    requires
        scored(scores),
        left.len() > 0,
        forall|i: int| 0 <= i < left.len() ==> #[trigger] left[i] < scores.len(),
    ensures
        top_of(scores, left).finite(),
        forall|i: int|
            0 <= i < left.len() ==> scores[(#[trigger] left[i]) as int].at_most(
                top_of(scores, left),
            ),
        exists|i: int|
            0 <= i < left.len() && scores[(#[trigger] left[i]) as int] == top_of(scores, left),
    decreases left.len(),
{
    let rest = left.drop_last();
    let last = left[left.len() - 1];
    assert(last == left.last());
    if rest.len() > 0 {
        assert forall|i: int| 0 <= i < rest.len() implies #[trigger] rest[i] < scores.len() by {
            assert(rest[i] == left[i]);
        }
        lemma_the_top_is_largest(scores, rest);
        let k = choose|k: int|
            0 <= k < rest.len() && scores[(#[trigger] rest[k]) as int] == top_of(scores, rest);
        assert(left[k] == rest[k]);
        assert forall|i: int| 0 <= i < left.len() implies scores[(#[trigger] left[i]) as int].at_most(
            top_of(scores, left),
        ) by {
            if i < rest.len() {
                assert(left[i] == rest[i]);
            }
        }
    } else {
        assert(top_of(scores, rest) == Scalar::from_bits(crate::learning::NEGATIVE_INFINITY));
        assert(top_of(scores, left) == scores[last as int]);
    }
}

/// Better candidates are likelier: where the host's exponential does not fall,
/// of two candidates the one with the higher score has at least the weight of
/// the other in the draw, whatever the temperature.
pub proof fn lemma_better_candidates_are_likelier<M: Curves>(
    curves: M,
    scores: Seq<Scalar>,
    left: Seq<usize>,
    temperature: Scalar,
    weights: Seq<Scalar>,
    worse: int,
    better: int,
)
    requires
        softmax_weights(curves, scores, left, temperature, weights),
        scored(scores),
        temperature.finite(),
        Scalar::from_bits(ZERO).below(temperature),
        forall|x: Scalar, y: Scalar, a: Scalar, b: Scalar|
            x.at_most(y) && #[trigger] exp_gives(curves, x, a) && #[trigger] exp_gives(curves, y, b)
                ==> a.at_most(b),
        forall|i: int| 0 <= i < left.len() ==> #[trigger] left[i] < scores.len(),
        0 <= worse < left.len(),
        0 <= better < left.len(),
        scores[left[worse] as int].at_most(scores[left[better] as int]),
    ensures
        weights[worse].at_most(weights[better]),
{
    lemma_the_top_is_largest(scores, left);
    let top = top_of(scores, left);
    let a = scores[left[worse] as int];
    let b = scores[left[better] as int];
    assert(a.finite() && b.finite());
    assert(top.negated().exact() == -top.exact());
    lemma_signed_sums(a, b, top.negated());
    lemma_signed_sums(b, top, top.negated());
    lemma_signed_order(b, top);
    let x = a.difference(top);
    let y = b.difference(top);
    assert(top.sum(top.negated()).is_zero());
    assert(y.at_most(Scalar::from_bits(ZERO)));
    lemma_negative_quotients(x, y, temperature);
    assert(exp_gives(curves, x.quotient(temperature), weights[worse]));
    assert(exp_gives(curves, y.quotient(temperature), weights[better]));
}

/// A draw falls where it points: the slot that is picked is the first whose
/// running total reaches the drawn fraction of the whole. A slot without weight
/// is passed over, unless it is the first or the last.
pub proof fn lemma_a_draw_falls_where_it_points<R: Rng>(
    weights: Seq<Scalar>,
    before: R,
    after: R,
    slot: int,
)
    requires
        picked(weights, before, after, slot),
        Scalar::from_bits(ZERO).below(running_sum(weights)),
        running_sum(weights).finite(),
    ensures
        exists|u: Scalar| #[trigger]
            fraction_drawn(before, u, after) && (slot + 1 < weights.len() ==> u.product(
                running_sum(weights),
            ).at_most(running_sum(weights.take(slot + 1)))) && (slot > 0 ==> !u.product(
                running_sum(weights),
            ).at_most(running_sum(weights.take(slot)))),
        0 <= slot < weights.len(),
        0 < slot < weights.len() - 1 && weights[slot] == Scalar::from_bits(ZERO) && running_sum(
            weights.take(slot),
        ).finite() && !running_sum(weights.take(slot)).negative() ==> false,
{
    let total = running_sum(weights);
    let u = choose|u: Scalar| #[trigger]
        fraction_drawn(before, u, after) && reaches(weights, u.product(total), slot);
    if slot > 0 {
        assert(!u.product(total).at_most(running_sum(weights.take((slot - 1) + 1))));
    }
    if 0 < slot < weights.len() - 1 && weights[slot] == Scalar::from_bits(ZERO) && running_sum(
        weights.take(slot),
    ).finite() && !running_sum(weights.take(slot)).negative() {
        assert(weights.take(slot + 1).drop_last() =~= weights.take(slot));
        assert(weights.take(slot + 1).last() == weights[slot]);
        crate::learning::lemma_adding_zero(running_sum(weights.take(slot)));
    }
}

/// A sample is of as many candidates as were asked for, or all there are, none
/// twice, best first, each with its own score.
pub proof fn lemma_a_sample_is_ranked<R: Rng, M: Curves>(
    curves: M,
    scores: Seq<Scalar>,
    k: usize,
    policy: ExplorationPolicy,
    temperature: Scalar,
    before: R,
    after: R,
    selected: Seq<Selection>,
)
    requires
        sampled(curves, scores, k, policy, temperature, before, after, selected),
    ensures
        k <= scores.len() ==> selected.len() == k,
        k > scores.len() ==> selected.len() == scores.len(),
        forall|i: int|
            0 <= i < selected.len() ==> (#[trigger] selected[i]).index < scores.len()
                && selected[i].score == scores[selected[i].index as int],
        forall|i: int, j: int|
            0 <= i < j < selected.len() ==> (#[trigger] selected[i]).index != (
            #[trigger] selected[j]).index,
        forall|i: int, j: int|
            0 <= i < j < selected.len() ==> !(#[trigger] selected[i]).score.below(
                (#[trigger] selected[j]).score,
            ),
{
}

/// What a pick says of itself: it is exploration exactly where the candidate is
/// not the best.
pub proof fn lemma_exploration_is_not_the_best(scores: Seq<Scalar>, index: usize)
    requires
        scored(scores),
        index < scores.len(),
    ensures
        !selection_of(scores, index).explored ==> forall|j: int|
            0 <= j < scores.len() ==> (#[trigger] scores[j]).at_most(scores[index as int]),
        (forall|j: int|
            0 <= j < scores.len() && j != index ==> (#[trigger] scores[j]).below(
                scores[index as int],
            )) ==> !selection_of(scores, index).explored,
        selection_of(scores, index).index == index,
        selection_of(scores, index).score == scores[index as int],
{
    lemma_best(scores, scores.len() as int);
    let b = best_of(scores, scores.len() as int);
    assert(scores[b].at_most(scores[b]));
    assert(scores[index as int].at_most(scores[b]));
}

/// Greedy selection takes the best: a candidate that is left out scores no
/// higher than any that was taken without exploring, and at most the last place
/// is given to exploration.
pub proof fn lemma_greed_takes_the_best<R: Rng>(
    scores: Seq<Scalar>,
    k: usize,
    epsilon: Scalar,
    before: R,
    after: R,
    picks: Seq<Selection>,
    out: int,
)
    requires
        greedy_selection(scores, k, epsilon, before, after, picks),
        0 < k,
        scores.len() <= usize::MAX,
        scored(scores),
        0 <= out < scores.len(),
        forall|i: int| 0 <= i < picks.len() ==> (#[trigger] picks[i]).index != out,
    ensures
        forall|i: int|
            0 <= i < picks.len() && !(#[trigger] picks[i]).explored ==> scores[out].at_most(
                picks[i].score,
            ),
        forall|i: int| 0 <= i < picks.len() - 1 ==> !(#[trigger] picks[i]).explored,
{
    let n = scores.len() as int;
    let t = taken(k, scores.len()) as int;
    let (order, substitute) = choose|order: Seq<Selection>, substitute: Option<int>|
        sorts(candidates(scores), order) && substitutes(before, after, n, t, epsilon, substitute)
            && picks == #[trigger] greedy(order, t, substitute);
    let all = candidates(scores);
    let at = choose|at: Seq<int>| #[trigger] arranges(all, order, at);
    assert forall|i: int| 0 <= i < order.len() implies (#[trigger] order[i]).index == at[i]
        && order[i].score == scores[at[i]] && !order[i].explored by {
        assert(order[i] == all[at[i]]);
    }
    crate::order::lemma_sorted(all, order);
    assert(all[out].index == out);
    assert(order.contains(all[out]));
    let p = choose|p: int| 0 <= p < order.len() && order[p] == all[out];
    assert forall|i: int| 0 <= i < picks.len() && !(#[trigger] picks[i]).explored implies scores[out].at_most(
        picks[i].score,
    ) by {
        assert(picks[i] == order[i]);
        if p < i {
            assert(p < t);
            if substitute is Some {
                assert(i < t - 1);
            }
            assert(picks[p] == order[p]);
            assert(picks[p].index == out);
        } else if p == i {
            assert(picks[i].index == out);
        } else {
            assert(!order[p].before(order[i]));
        }
        assert(scores[at[i]].finite() && scores[out].finite());
    }
}

/// Greedy selection explores where the draw falls below the rate, and where
/// there is something left to explore, and at no other time.
pub proof fn lemma_when_greed_explores<R: Rng>(
    before: R,
    after: R,
    n: int,
    k: int,
    rate: Scalar,
    substitute: Option<int>,
)
    requires
        substitutes(before, after, n, k, rate, substitute),
    ensures
        substitute matches Some(pick) ==> 0 <= pick < n - k && exists|u: Scalar, middle: R| #[trigger]
            fraction_drawn(before, u, middle) && u.below(rate),
        n <= k ==> substitute is None,
        (forall|u: Scalar, middle: R| #[trigger] fraction_drawn(before, u, middle) ==> !u.below(rate))
            ==> substitute is None,
{
}

} // verus!
