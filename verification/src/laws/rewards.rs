//! Laws of learning: what an outcome does to a weight.

use vstd::arithmetic::power2::{
    lemma2_to64, lemma2_to64_rest, lemma_pow2_adds, lemma_pow2_pos, pow2,
};
use vstd::prelude::*;

use crate::arith::{
    lemma_gaps, lemma_nearest_exists, lemma_rounding_is_exact, lemma_rounding_is_monotone,
    lemma_scaling_distance, lemma_shrinking, lemma_units_of_one, rounded, unit_scale, units,
};
use crate::laws::orders::{lemma_exact_order, lemma_units_order};
use crate::learning::{
    apply_reward, capped_delta, raw_delta, rewarded, sound, LearningConfig, WeightUpdate,
};
use crate::scalar::{Scalar, HIDDEN_BIT, ONE, ZERO};
use crate::store::Outcome;

verus! {

/// What a delivery earns and a failure costs, in quarters: delivery earns one,
/// silence costs a quarter, a rejection and an unreachable peer a half each, a
/// bad signature one. What is pending is neither.
pub open spec fn quarters(outcome: Outcome) -> int {
    match outcome {
        Outcome::Delivered => 4,
        Outcome::Pending => 0,
        Outcome::TimedOut => -1,
        Outcome::Rejected => -2,
        Outcome::TransportFailure => -2,
        Outcome::SignatureFailure => -4,
    }
}

/// The rewards in exact numbers, and their order: every failure is strictly
/// below zero, an unreachable peer costs what a rejection costs, and only a
/// delivery is above zero.
pub proof fn lemma_every_failure_costs(outcome: Outcome, reward: Scalar)
    requires
        call_ensures(Outcome::reward, (outcome,), reward),
    ensures
        4 * reward.exact() == quarters(outcome) * unit_scale(),
        outcome is Delivered ==> Scalar::from_bits(ZERO).below(reward),
        outcome is Pending ==> reward == Scalar::from_bits(ZERO),
        !(outcome is Delivered) && !(outcome is Pending) ==> reward.below(Scalar::from_bits(ZERO)),
        outcome is TransportFailure ==> reward == Scalar::from_bits(Outcome::Rejected.reward_bits()),
{
    lemma_reward_value(outcome);
}

/// The value of a reward.
pub proof fn lemma_reward_value(outcome: Outcome)
    ensures
        ({
            let reward = Scalar::from_bits(outcome.reward_bits());
            let q = quarters(outcome);
            &&& 4 * reward.exact() == q * unit_scale()
            &&& reward.negative() == (q < 0)
            &&& reward.magnitude() <= ONE
            &&& 4 * units(reward.magnitude()) == (if q < 0 {
                -q
            } else {
                q
            }) * unit_scale()
            &&& unit_scale() > 0
        }),
{
    lemma2_to64();
    lemma_units_of_one();
    lemma_pow2_pos(149);
    lemma_pow2_adds(23, 124);
    lemma_pow2_adds(23, 125);
    lemma_pow2_adds(147, 2);
    lemma_pow2_adds(148, 1);
    assert(units(0) == 0);
    assert(0x3E80_0000int / 0x80_0000 == 125 && 0x3E80_0000int % 0x80_0000 == 0);
    assert(0x3F00_0000int / 0x80_0000 == 126 && 0x3F00_0000int % 0x80_0000 == 0);
    assert(units(0x3E80_0000) == 0x80_0000 * pow2(124));
    assert(units(0x3F00_0000) == 0x80_0000 * pow2(125));
    assert(4 * units(0x3E80_0000) == unit_scale());
    assert(4 * units(0x3F00_0000) == 2 * unit_scale());
    let reward = Scalar::from_bits(outcome.reward_bits());
    match outcome {
        Outcome::Delivered => {
            assert(reward.magnitude() == ONE);
        },
        Outcome::Pending => {
            assert(reward.magnitude() == 0);
        },
        Outcome::TimedOut => {
            assert(reward.magnitude() == 0x3E80_0000);
        },
        Outcome::Rejected => {
            assert(reward.magnitude() == 0x3F00_0000);
        },
        Outcome::TransportFailure => {
            assert(reward.magnitude() == 0x3F00_0000);
        },
        Outcome::SignatureFailure => {
            assert(reward.magnitude() == ONE);
        },
    }
}

/// The size of a product of numbers.
pub proof fn lemma_product_size(a: Scalar, b: Scalar)
    requires
        a.finite(),
        b.finite(),
    ensures
        a.product(b).magnitude() == rounded(
            units(a.magnitude()) * units(b.magnitude()),
            unit_scale(),
        ),
{
    let x = units(a.magnitude());
    let y = units(b.magnitude());
    lemma_pow2_pos(149);
    lemma_units_order(0, a.magnitude());
    lemma_units_order(0, b.magnitude());
    assert(0 <= x * y) by (nonlinear_arith)
        requires
            0 <= x,
            0 <= y,
    ;
    lemma_nearest_exists(x * y, unit_scale());
}

/// How far an outcome asks a weight to move: the rate times the reward times
/// the weight of the signal that was carried, within a few parts in `2^24`. It
/// is upward for a delivery and downward for every failure.
pub proof fn lemma_the_move(outcome: Outcome, signal_weight: Scalar, config: LearningConfig)
    requires
        Scalar::from_bits(ZERO).below(config.learning_rate),
        config.learning_rate.at_most(Scalar::from_bits(ONE)),
        signal_weight.between(Scalar::from_bits(ZERO), Scalar::from_bits(ONE)),
        !signal_weight.negative(),
    ensures
        ({
            let d = unit_scale();
            let q = quarters(outcome);
            let size = if q < 0 {
                -q
            } else {
                q
            };
            let asked = config.learning_rate.exact() * signal_weight.exact();
            let raw = raw_delta(outcome, signal_weight, config);
            &&& raw.finite()
            &&& raw.negative() == (q < 0)
            &&& 0x100_0000 * (4 * (d * units(raw.magnitude())) - size * asked) <= 16 * (
            config.learning_rate.exact() * d) + 0x1000_0000 * d
            &&& 0x100_0000 * (size * asked - 4 * (d * units(raw.magnitude()))) <= 16 * (
            config.learning_rate.exact() * d) + 0x1000_0000 * d
        }),
{
    let d = unit_scale();
    let rate = config.learning_rate;
    let reward = Scalar::from_bits(outcome.reward_bits());
    let plain_reward = Scalar { bits: reward.magnitude() as u32 };
    let q = quarters(outcome);
    let size = if q < 0 {
        -q
    } else {
        q
    };
    lemma_reward_value(outcome);
    lemma_units_of_one();
    let p = rate.product(reward);
    let g = rate.product(plain_reward);
    assert(plain_reward.magnitude() == reward.magnitude() && !plain_reward.negative());
    lemma_shrinking(rate, reward);
    lemma_shrinking(rate, plain_reward);
    lemma_product_size(rate, reward);
    lemma_product_size(rate, plain_reward);
    assert(p.magnitude() == g.magnitude());
    let carried = signal_weight.clamped(Scalar::from_bits(ZERO), Scalar::from_bits(ONE));
    assert(carried == signal_weight);
    let r = p.product(carried);
    let h = g.product(carried);
    lemma_shrinking(p, carried);
    lemma_shrinking(g, carried);
    lemma_product_size(p, carried);
    lemma_product_size(g, carried);
    assert(r.magnitude() == h.magnitude());
    lemma_scaling_distance(rate, plain_reward);
    lemma_scaling_distance(g, carried);
    let x = rate.exact();
    let y = plain_reward.exact();
    let w = carried.exact();
    let gx = g.exact();
    let hx = h.exact();
    let e: int = 0x100_0000;
    lemma_units_order(carried.magnitude(), ONE as int);
    lemma_units_order(0, rate.magnitude());
    assert(0 <= gx <= x);
    assert(0 <= w <= d);
    // |d * gx - x * y| and |d * hx - gx * w|, each times 2^24.
    assert(e * (d * gx - x * y) <= d * (x + e) && e * (x * y - d * gx) <= d * (x + e));
    assert(e * (d * hx - gx * w) <= d * (gx + e) && e * (gx * w - d * hx) <= d * (gx + e));
    let xw = x * w;
    let gw = gx * w;
    assert(4 * (x * y) == size * (x * d)) by (nonlinear_arith)
        requires
            4 * y == size * d,
    ;
    assert(e * (4 * gx - size * x) <= 4 * (x + e) && e * (size * x - 4 * gx) <= 4 * (x + e))
        by (nonlinear_arith)
        requires
            e * (d * gx - x * y) <= d * (x + e),
            e * (x * y - d * gx) <= d * (x + e),
            4 * (x * y) == size * (x * d),
            0 < d,
    {
        assert(4 * (e * (d * gx - x * y)) == d * (e * (4 * gx - size * x)));
        assert(4 * (e * (x * y - d * gx)) == d * (e * (size * x - 4 * gx)));
    }
    assert(e * (4 * gw - size * xw) <= (4 * (x + e)) * d && e * (size * xw - 4 * gw) <= (4 * (x + e))
        * d) by (nonlinear_arith)
        requires
            e * (4 * gx - size * x) <= 4 * (x + e),
            e * (size * x - 4 * gx) <= 4 * (x + e),
            gw == gx * w,
            xw == x * w,
            0 <= w <= d,
            0 <= x,
            e == 0x100_0000,
    {
        assert(w * (e * (4 * gx - size * x)) <= w * (4 * (x + e)));
        assert(w * (e * (size * x - 4 * gx)) <= w * (4 * (x + e)));
        assert(w * (4 * (x + e)) <= d * (4 * (x + e)));
    }
    let xd = x * d;
    assert((4 * (x + e)) * d == 4 * xd + 4 * (e * d)) by (nonlinear_arith)
        requires
            xd == x * d,
    ;
    assert(d * (gx + e) <= xd + e * d) by (nonlinear_arith)
        requires
            gx <= x,
            xd == x * d,
            0 < d,
    ;
    assert(raw_delta(outcome, signal_weight, config) == r);
}

/// A sum that ends below a number by more than the distance to its neighbour is
/// strictly below it.
pub proof fn lemma_a_fall_shows(weight: Scalar, delta: Scalar)
    requires
        weight.finite(),
        !weight.negative(),
        delta.finite(),
        delta.negative(),
        weight.magnitude() >= HIDDEN_BIT,
        0x80_0000 * units(delta.magnitude()) >= weight.exact(),
    ensures
        weight.sum(delta).below(weight),
{
    let m = weight.magnitude();
    let total = weight.exact() + delta.exact();
    lemma_gaps(m);
    lemma_units_order(0, delta.magnitude());
    lemma_units_order(m - 1, m);
    assert(units(0) == 0);
    crate::arith::lemma_taking_away(weight, delta);
    if total > 0 {
        lemma_rounding_is_exact(m - 1, 1);
        assert(units(m - 1) * 1 == units(m - 1));
        assert(total <= units(m - 1));
        lemma_rounding_is_monotone(total, 1, units(m - 1), 1);
        lemma_nearest_exists(total, 1);
    } else if total < 0 {
        lemma_nearest_exists(-total, 1);
    }
}

/// Every failure lowers the weight of the path that failed: whatever the peer
/// has gained before, an outcome that is neither a delivery nor pending leaves a
/// weight that is above its lower bound strictly lower, for a rate and a signal
/// of at least one part in `2^10`.
pub proof fn lemma_a_failure_weakens(
    weight: Scalar,
    outcome: Outcome,
    signal_weight: Scalar,
    used: Scalar,
    config: LearningConfig,
    update: WeightUpdate,
)
    requires
        call_ensures(apply_reward, (weight, outcome, signal_weight, used, &config), update),
        sound(weight, signal_weight, used, config),
        Scalar::from_bits(0x3A80_0000).at_most(config.learning_rate),
        signal_weight.between(Scalar::from_bits(0x3A80_0000), Scalar::from_bits(ONE)),
        config.min_weight.below(weight),
        weight.between(Scalar::from_bits(0x0080_0000), Scalar::from_bits(ONE)),
        !(outcome is Delivered),
        !(outcome is Pending),
    ensures
        update.before == weight,
        update.after.below(weight),
        update.applied_delta.below(Scalar::from_bits(ZERO)),
        !update.capped,
{
    let raw = raw_delta(outcome, signal_weight, config);
    let d = unit_scale();
    let x = config.learning_rate.exact();
    let w = signal_weight.exact();
    lemma_the_move(outcome, signal_weight, config);
    lemma_units_of_one();
    lemma2_to64();
    lemma2_to64_rest();
    lemma_pow2_adds(10, 139);
    lemma_pow2_adds(40, 109);
    lemma_pow2_pos(109);
    let small = pow2(139) as int;
    assert(units(0x3A80_0000) == small) by {
        assert(0x3A80_0000int / 0x80_0000 == 117 && 0x3A80_0000int % 0x80_0000 == 0);
        lemma_pow2_adds(23, 116);
    }
    lemma_units_order(0x3A80_0000, config.learning_rate.magnitude());
    lemma_units_order(0x3A80_0000, signal_weight.magnitude());
    lemma_units_order(config.learning_rate.magnitude(), ONE as int);
    lemma_units_order(weight.magnitude(), ONE as int);
    assert(small <= x <= d && small <= w && d == 1024 * small && weight.exact() <= d);
    let m = units(raw.magnitude());
    let xw = x * w;
    let xd = x * d;
    // 4 * d * m is at least x * w less rounding, and x * w at least x * d / 2^10.
    assert(xd <= 1024 * xw) by (nonlinear_arith)
        requires
            small <= w,
            d == 1024 * small,
            xd == x * d,
            xw == x * w,
            0 <= x,
    ;
    assert(1024 * xd >= d * d) by (nonlinear_arith)
        requires
            small <= x,
            d == 1024 * small,
            xd == x * d,
            0 < d,
    ;
    let dm = d * m;
    let dd = d * d;
    assert(pow2(40) * d <= dd) by (nonlinear_arith)
        requires
            dd == d * d,
            d == pow2(40) * pow2(109),
            pow2(109) >= 1,
            pow2(40) > 0,
    {
        assert(pow2(40) <= d);
    }
    assert(xw <= (if quarters(outcome) < 0 {
        -quarters(outcome)
    } else {
        quarters(outcome)
    }) * xw) by (nonlinear_arith)
        requires
            0 <= xw,
            quarters(outcome) <= -1,
    ;
    assert(0x100_0000 * (xw - 4 * dm) <= 16 * xd + 0x1000_0000 * d);
    assert(0x80_0000 * dm >= dd);
    assert(0x80_0000 * m >= d) by (nonlinear_arith)
        requires
            0x80_0000 * dm >= dd,
            dm == d * m,
            dd == d * d,
            0 < d,
    ;
    lemma_a_fall_shows(weight, raw);
    let after = weight.sum(raw);
    assert(capped_delta(raw, used, config.influence_cap_per_peer) == (raw, false));
    assert(rewarded(weight, outcome, signal_weight, used, config) == update);
    assert(update.after == after.clamped(config.min_weight, config.max_weight));
    // The difference that is reported.
    let left = update.after;
    assert(left.below(weight));
    assert(!left.negative());
    lemma_exact_order(left, weight);
    let total = left.exact() - weight.exact();
    assert(weight.negated().exact() == -weight.exact());
    lemma_nearest_exists(-total, 1);
    crate::arith::lemma_whole_error(-total);
}

/// A delivery strengthens: a weight below its upper bound rises strictly where
/// the peer has not spent its influence, for a rate and a signal of at least one
/// part in `2^10` and influence left of at least as much.
pub proof fn lemma_a_delivery_strengthens(
    weight: Scalar,
    signal_weight: Scalar,
    used: Scalar,
    config: LearningConfig,
    update: WeightUpdate,
)
    requires
        call_ensures(
            apply_reward,
            (weight, Outcome::Delivered, signal_weight, used, &config),
            update,
        ),
        sound(weight, signal_weight, used, config),
        Scalar::from_bits(0x3A80_0000).at_most(config.learning_rate),
        signal_weight.between(Scalar::from_bits(0x3A80_0000), Scalar::from_bits(ONE)),
        weight.below(config.max_weight),
        weight.between(Scalar::from_bits(0x0080_0000), Scalar::from_bits(ONE)),
        Scalar::from_bits(0x3A80_0000).at_most(config.influence_cap_per_peer.difference(used)),
        used.below(config.influence_cap_per_peer),
    ensures
        update.before == weight,
        weight.below(update.after),
        Scalar::from_bits(ZERO).below(update.applied_delta),
{
    let outcome = Outcome::Delivered;
    let raw = raw_delta(outcome, signal_weight, config);
    let d = unit_scale();
    let x = config.learning_rate.exact();
    let w = signal_weight.exact();
    lemma_the_move(outcome, signal_weight, config);
    lemma_units_of_one();
    lemma2_to64();
    lemma2_to64_rest();
    lemma_pow2_adds(10, 139);
    lemma_pow2_adds(40, 109);
    lemma_pow2_pos(109);
    let small = pow2(139) as int;
    assert(units(0x3A80_0000) == small) by {
        assert(0x3A80_0000int / 0x80_0000 == 117 && 0x3A80_0000int % 0x80_0000 == 0);
        lemma_pow2_adds(23, 116);
    }
    lemma_units_order(0x3A80_0000, config.learning_rate.magnitude());
    lemma_units_order(0x3A80_0000, signal_weight.magnitude());
    lemma_units_order(config.learning_rate.magnitude(), ONE as int);
    lemma_units_order(weight.magnitude(), ONE as int);
    assert(small <= x <= d && small <= w && d == 1024 * small && weight.exact() <= d);
    let m = units(raw.magnitude());
    let xw = x * w;
    let xd = x * d;
    assert(xd <= 1024 * xw) by (nonlinear_arith)
        requires
            small <= w,
            d == 1024 * small,
            xd == x * d,
            xw == x * w,
            0 <= x,
    ;
    assert(1024 * xd >= d * d) by (nonlinear_arith)
        requires
            small <= x,
            d == 1024 * small,
            xd == x * d,
            0 < d,
    ;
    let dm = d * m;
    let dd = d * d;
    assert(pow2(40) * d <= dd) by (nonlinear_arith)
        requires
            dd == d * d,
            d == pow2(40) * pow2(109),
            pow2(109) >= 1,
            pow2(40) > 0,
    {
        assert(pow2(40) <= d);
    }
    assert(0x100_0000 * (4 * xw - 4 * dm) <= 16 * xd + 0x1000_0000 * d);
    assert(0x80_0000 * dm >= dd) by (nonlinear_arith)
        requires
            0x100_0000 * (4 * xw - 4 * dm) <= 16 * xd + 0x1000_0000 * d,
            xd <= 1024 * xw,
            1024 * xd >= dd,
            0x100_0000_0000 * d <= dd,
            0 < d,
    ;
    assert(0x80_0000 * m >= d) by (nonlinear_arith)
        requires
            0x80_0000 * dm >= dd,
            dm == d * m,
            dd == d * d,
            0 < d,
    ;
    assert(units(0) == 0);
    let cap = config.influence_cap_per_peer;
    let headroom = cap.difference(used);
    let delta = capped_delta(raw, used, cap).0;
    assert(Scalar::from_bits(ZERO).below(raw));
    assert(delta == raw || delta == headroom);
    lemma_units_order(0x3A80_0000, headroom.magnitude());
    crate::arith::lemma_taking_away(cap, used.negated());
    assert(!delta.negative() && delta.finite());
    assert(0x80_0000 * units(delta.magnitude()) >= weight.exact());
    // A rise by at least the distance to the neighbour shows.
    let n = weight.magnitude();
    lemma_gaps(n);
    lemma_units_order(n, n + 1);
    lemma_units_order(0, n);
    let total = weight.exact() + delta.exact();
    assert(total >= units(n + 1));
    lemma_rounding_is_exact(n + 1, 1);
    assert(units(n + 1) * 1 == units(n + 1));
    lemma_rounding_is_monotone(units(n + 1), 1, total, 1);
    lemma_nearest_exists(total, 1);
    let after = weight.sum(delta);
    assert(weight.below(after));
    assert(rewarded(weight, outcome, signal_weight, used, config) == update);
    let left = update.after;
    assert(weight.below(left));
    assert(left.finite() && !left.negative());
    lemma_exact_order(weight, left);
    assert(weight.negated().exact() == -weight.exact());
    crate::arith::lemma_whole_error(left.exact() - weight.exact());
}

/// An update ends where the move takes it, within one part in `2^24`, or at the
/// bound that the move would pass.
pub proof fn lemma_an_update_lands(
    weight: Scalar,
    outcome: Outcome,
    signal_weight: Scalar,
    used: Scalar,
    config: LearningConfig,
)
    requires
        sound(weight, signal_weight, used, config),
    ensures
        ({
            let raw = raw_delta(outcome, signal_weight, config);
            let headroom = config.influence_cap_per_peer.difference(used);
            let update = rewarded(weight, outcome, signal_weight, used, config);
            let moved = if outcome is Delivered && config.influence_cap_per_peer.at_most(used)
                && Scalar::from_bits(ZERO).below(raw) {
                weight.exact()
            } else if outcome is Delivered && headroom.below(raw) && Scalar::from_bits(ZERO).below(
                raw,
            ) {
                weight.exact() + headroom.exact()
            } else {
                weight.exact() + raw.exact()
            };
            &&& moved <= config.min_weight.exact() ==> update.after == config.min_weight
                || update.after.rank() == config.min_weight.rank()
            &&& moved >= config.max_weight.exact() ==> update.after == config.max_weight
                || update.after.rank() == config.max_weight.rank()
            &&& config.min_weight.exact() <= moved <= config.max_weight.exact() ==> {
                &&& 0x100_0000 * (update.after.exact() - moved) <= update.after.exact()
                &&& 0x100_0000 * (moved - update.after.exact()) <= update.after.exact()
            }
        }),
{
    let raw = raw_delta(outcome, signal_weight, config);
    let cap = config.influence_cap_per_peer;
    let delta = capped_delta(raw, used, cap).0;
    let update = rewarded(weight, outcome, signal_weight, used, config);
    crate::learning::lemma_update_respects_bounds(weight, outcome, signal_weight, used, config);
    lemma_signed_move(outcome, signal_weight, config);
    let total = weight.exact() + delta.exact();
    let sum = weight.sum(delta);
    let low = config.min_weight;
    let high = config.max_weight;
    assert(units(0) == 0);
    if Scalar::from_bits(ZERO).below(raw) && !cap.at_most(used) {
        crate::arith::lemma_taking_away(cap, used.negated());
    }
    assert(delta.finite());
    lemma_units_order(0, low.magnitude());
    lemma_units_order(0, high.magnitude());
    lemma_units_order(0, weight.magnitude());
    lemma_exact_order(low, high);
    lemma_rounding_is_exact(low.magnitude(), 1);
    lemma_rounding_is_exact(high.magnitude(), 1);
    assert(units(low.magnitude()) * 1 == units(low.magnitude()));
    assert(units(high.magnitude()) * 1 == units(high.magnitude()));
    if total > 0 {
        lemma_nearest_exists(total, 1);
        crate::arith::lemma_whole_error(total);
        if total <= low.exact() {
            lemma_rounding_is_monotone(total, 1, low.exact(), 1);
        } else {
            lemma_rounding_is_monotone(low.exact(), 1, total, 1);
        }
        if total >= high.exact() {
            lemma_rounding_is_monotone(high.exact(), 1, total, 1);
        } else {
            lemma_rounding_is_monotone(total, 1, high.exact(), 1);
        }
    } else if total < 0 {
        lemma_nearest_exists(-total, 1);
    }
}

/// The move is a number with the sign of the reward.
proof fn lemma_signed_move(outcome: Outcome, signal_weight: Scalar, config: LearningConfig)
    requires
        config.fault() is None,
        !signal_weight.nan(),
        !signal_weight.negative(),
    ensures
        raw_delta(outcome, signal_weight, config).finite(),
        !(outcome is Delivered) ==> !Scalar::from_bits(ZERO).below(
            raw_delta(outcome, signal_weight, config),
        ),
{
    let reward = Scalar::from_bits(outcome.reward_bits());
    let carried = signal_weight.clamped(Scalar::from_bits(ZERO), Scalar::from_bits(ONE));
    let rate = config.learning_rate;
    lemma_shrinking(rate, reward);
    lemma_shrinking(rate.product(reward), carried);
    if outcome is Pending {
        let d = unit_scale();
        lemma_pow2_pos(149);
        assert(units(0) == 0);
        lemma_rounding_is_exact(0, d);
        assert(units(rate.magnitude()) * 0 == 0);
        assert(rate.product(reward).is_zero());
    }
}

} // verus!
