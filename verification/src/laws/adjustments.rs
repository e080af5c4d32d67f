//! Laws of the other moves of a weight: penalties, affinities, decay, and what a
//! valid configuration guarantees them.

use vstd::arithmetic::power2::{lemma2_to64, lemma_pow2_adds, lemma_pow2_pos, pow2};
use vstd::prelude::*;

use crate::activation::{ActivationConfig, NodeClass};
use crate::arith::{
    lemma_difference, lemma_nearest_exists, lemma_scaling_distance, lemma_shrinking,
    lemma_units_of_one, unit_scale, units,
};
use crate::config::ConfigError;
use crate::curves::{leaves, Curves};
use crate::laws::orders::{
    lemma_exact_order, lemma_negative_quotients, lemma_pattern, lemma_signed_sums,
    lemma_units_order, near,
};
use crate::laws::rewards::{lemma_product_size, lemma_reward_value, quarters};
use crate::learning::{
    affinity_after, apply_affinity_update, apply_signature_penalty, decay_by, decayed, penalised,
    DeploymentClass, LearningConfig,
};
use crate::propagation::PropagationSetup;
use crate::scalar::{Scalar, ONE, ZERO};
use crate::store::Outcome;

verus! {

/// What is left of a number that is scaled down, against the exact product, in
/// parts of one.
proof fn lemma_scaled_down(weight: Scalar, factor: Scalar)
    requires
        !weight.negative(),
        !factor.negative(),
        weight.magnitude() <= ONE,
        factor.magnitude() <= ONE,
    ensures
        ({
            let d = unit_scale();
            let p = weight.product(factor);
            let exact = weight.exact() * factor.exact();
            &&& p.finite() && !p.negative()
            &&& p.at_most(weight)
            &&& 0x100_0000 * (d * p.exact() - exact) <= 2 * (d * d)
            &&& 0x100_0000 * (exact - d * p.exact()) <= 2 * (d * d)
        }),
{
    let d = unit_scale();
    lemma_units_of_one();
    lemma_shrinking(weight, factor);
    lemma_scaling_distance(weight, factor);
    lemma_units_order(weight.magnitude(), ONE as int);
    lemma2_to64();
    lemma_pow2_adds(24, 125);
    lemma_pow2_pos(125);
    let x = weight.exact();
    assert(0x100_0000 <= d) by (nonlinear_arith)
        requires
            d == 0x100_0000 * pow2(125),
            pow2(125) >= 1,
    ;
    assert(d * (x + 0x100_0000) <= 2 * (d * d)) by (nonlinear_arith)
        requires
            0 <= x <= d,
            0x100_0000 <= d,
    ;
}

/// A bad signature costs the configured fraction of a weight: what is left is
/// the weight less that fraction of it, within rounding, or the lower bound where
/// that is more.
pub proof fn lemma_a_penalty_takes_its_fraction(weight: Scalar, config: LearningConfig, after: Scalar)
    requires
        call_ensures(apply_signature_penalty, (weight, &config), after),
        !weight.negative(),
        weight.magnitude() <= ONE,
        Scalar::from_bits(ZERO).below(config.signature_failure_penalty),
        config.signature_failure_penalty.at_most(Scalar::from_bits(ONE)),
        !config.min_weight.nan(),
        !config.min_weight.negative(),
    ensures
        config.min_weight.at_most(after),
        ({
            let d = unit_scale();
            let left = weight.exact() * (d - config.signature_failure_penalty.exact());
            config.min_weight.below(after) ==> {
                &&& after.at_most(weight)
                &&& 0x100_0000 * (d * after.exact() - left) <= 4 * (d * d)
                &&& 0x100_0000 * (left - d * after.exact()) <= 4 * (d * d)
            }
        }),
{
    let one = Scalar::from_bits(ONE);
    let p = config.signature_failure_penalty;
    let d = unit_scale();
    lemma_units_of_one();
    lemma_difference(one, p);
    let rest = one.difference(p);
    lemma_exact_order(p, one);
    lemma_exact_order(rest, one);
    lemma_scaled_down(weight, rest);
    let x = weight.exact();
    let r = rest.exact();
    let t = d - p.exact();
    lemma_units_order(0, weight.magnitude());
    lemma_units_order(weight.magnitude(), ONE as int);
    // What is left of one, in both directions.
    assert(p.negated().exact() == -p.exact());
    if t > 0 {
        crate::arith::lemma_whole_error(t);
        assert(0x100_0000 * (r - t) <= r && 0x100_0000 * (t - r) <= r);
    } else {
        assert(r == 0);
    }
    assert(0x100_0000 * (x * r - x * t) <= d * d && 0x100_0000 * (x * t - x * r) <= d * d)
        by (nonlinear_arith)
        requires
            0x100_0000 * (r - t) <= r,
            0x100_0000 * (t - r) <= r,
            0 <= x <= d,
            0 <= r <= d,
    {
        assert(x * (0x100_0000 * (r - t)) <= x * r);
        assert(x * (0x100_0000 * (t - r)) <= x * r);
        assert(x * r <= d * d);
    }
    assert(penalised(weight, config) == after);
}

/// An outcome moves a type's affinity the way that it moves a weight: a failure
/// never up, a delivery never down, what is pending not at all. The affinity
/// stays in the unit interval.
pub proof fn lemma_affinity_follows_the_outcome(
    affinity: Scalar,
    outcome: Outcome,
    config: LearningConfig,
    after: Scalar,
)
    requires
        call_ensures(apply_affinity_update, (affinity, outcome, &config), after),
        affinity.between(Scalar::from_bits(ZERO), Scalar::from_bits(ONE)),
        !affinity.negative(),
        Scalar::from_bits(ZERO).below(config.learning_rate),
        config.learning_rate.at_most(Scalar::from_bits(ONE)),
    ensures
        after.between(Scalar::from_bits(ZERO), Scalar::from_bits(ONE)),
        outcome is Delivered ==> affinity.at_most(after),
        !(outcome is Delivered) ==> after.at_most(affinity),
        outcome is Pending ==> after.rank() == affinity.rank(),
        ({
            let d = unit_scale();
            let moved = 4 * affinity.exact() + quarters(outcome) * config.learning_rate.exact();
            &&& moved <= 0 ==> after.is_zero() || 0x100_0000 * after.exact() <= 4 * d
            &&& 0 <= moved <= 4 * d ==> {
                &&& 0x100_0000 * (4 * after.exact() - moved) <= 16 * d
                &&& 0x100_0000 * (moved - 4 * after.exact()) <= 16 * d
            }
        }),
{
    let reward = Scalar::from_bits(outcome.reward_bits());
    let rate = config.learning_rate;
    let zero = Scalar::from_bits(ZERO);
    let one = Scalar::from_bits(ONE);
    let d = unit_scale();
    lemma_units_of_one();
    lemma_reward_value(outcome);
    lemma_shrinking(rate, reward);
    let delta = rate.product(reward);
    let plain_reward = Scalar { bits: reward.magnitude() as u32 };
    lemma_delta(rate, reward, plain_reward, quarters(outcome));
    lemma_signed_sums(affinity, affinity, delta);
    lemma_units_order(affinity.magnitude(), ONE as int);
    lemma_units_order(0, affinity.magnitude());
    let sum = affinity.sum(delta);
    let total = affinity.exact() + delta.exact();
    lemma_units_order(rate.magnitude(), ONE as int);
    lemma_units_order(0, rate.magnitude());
    assert(affinity_after(affinity, outcome, config) == after);
    if outcome is Pending {
        assert(delta.is_zero()) by {
            crate::arith::lemma_rounding_is_exact(0, d);
            assert(units(0) == 0);
            assert(units(rate.magnitude()) * 0 == 0);
            lemma_pow2_pos(149);
        }
        assert(delta.exact() == 0) by {
            assert(units(0) == 0);
        }
    }
    if total > 0 {
        lemma_nearest_exists(total, 1);
        crate::arith::lemma_whole_error(total);
        let two = crate::laws::orders::lemma_power(1);
        lemma2_to64();
        crate::arith::lemma_rounding_is_exact(two, 1);
        assert(units(two) * 1 == units(two));
        crate::arith::lemma_rounding_is_monotone(total, 1, 2 * d, 1);
        crate::arith::lemma_rounding_is_exact(ONE as int, 1);
        assert(units(ONE as int) * 1 == units(ONE as int));
        if total >= d {
            crate::arith::lemma_rounding_is_monotone(d, 1, total, 1);
        } else {
            crate::arith::lemma_rounding_is_monotone(total, 1, d, 1);
        }
        assert(sum.finite() && !sum.negative());
        assert(0x100_0000 * (sum.exact() - total) <= sum.exact());
        assert(0x100_0000 * (total - sum.exact()) <= sum.exact());
    } else if total < 0 {
        lemma_nearest_exists(-total, 1);
    }
}

/// The rate times a reward, against the exact product.
proof fn lemma_delta(rate: Scalar, reward: Scalar, plain_reward: Scalar, q: int)
    requires
        Scalar::from_bits(ZERO).below(rate),
        rate.at_most(Scalar::from_bits(ONE)),
        reward.magnitude() <= ONE,
        plain_reward.bits == reward.magnitude(),
        -4 <= q <= 4,
        4 * reward.exact() == q * unit_scale(),
        reward.negative() == (q < 0),
    ensures
        ({
            let delta = rate.product(reward);
            let d = unit_scale();
            &&& delta.finite()
            &&& -d <= delta.exact() <= d
            &&& q >= 0 ==> delta.exact() >= 0
            &&& q <= 0 ==> delta.exact() <= 0
            &&& 0x100_0000 * (4 * delta.exact() - q * rate.exact()) <= 8 * d
            &&& 0x100_0000 * (q * rate.exact() - 4 * delta.exact()) <= 8 * d
        }),
{
    let d = unit_scale();
    let delta = rate.product(reward);
    let g = rate.product(plain_reward);
    let size = if q < 0 {
        -q
    } else {
        q
    };
    lemma_units_of_one();
    lemma_shrinking(rate, reward);
    lemma_shrinking(rate, plain_reward);
    lemma_product_size(rate, reward);
    lemma_product_size(rate, plain_reward);
    lemma_scaling_distance(rate, plain_reward);
    lemma_units_order(0, rate.magnitude());
    lemma_units_order(0, reward.magnitude());
    lemma_units_order(rate.magnitude(), ONE as int);
    lemma2_to64();
    lemma_pow2_adds(24, 125);
    lemma_pow2_pos(125);
    assert(0x100_0000 <= d) by (nonlinear_arith)
        requires
            d == 0x100_0000 * pow2(125),
            pow2(125) >= 1,
    ;
    let x = rate.exact();
    let y = plain_reward.exact();
    let z = g.exact();
    let e: int = 0x100_0000;
    assert(4 * y == size * d) by {
        assert((-q) * d == -(q * d)) by (nonlinear_arith);
    }
    assert(4 * (x * y) == size * (x * d)) by (nonlinear_arith)
        requires
            4 * y == size * d,
    ;
    assert(e * (4 * z - size * x) <= 4 * (x + e) && e * (size * x - 4 * z) <= 4 * (x + e))
        by (nonlinear_arith)
        requires
            e * (d * z - x * y) <= d * (x + e),
            e * (x * y - d * z) <= d * (x + e),
            4 * (x * y) == size * (x * d),
            0 < d,
    {
        assert(4 * (e * (d * z - x * y)) == d * (e * (4 * z - size * x)));
        assert(4 * (e * (x * y - d * z)) == d * (e * (size * x - 4 * z)));
    }
    assert((-q) * x == -(q * x)) by (nonlinear_arith);
    assert(z == units(delta.magnitude()));
    if q == 0 {
        assert(y == 0);
        assert(plain_reward.magnitude() == 0) by {
            assert(units(0) == 0);
            if plain_reward.magnitude() > 0 {
                lemma_units_order(0, plain_reward.magnitude());
            }
        }
        crate::arith::lemma_rounding_is_exact(0, d);
        assert(units(0) == 0);
        assert(units(rate.magnitude()) * 0 == 0);
    }
}

/// Decay leaves the fraction that it is told to, within rounding, or the lower
/// bound where that is more.
pub proof fn lemma_decay_leaves_its_fraction(
    weight: Scalar,
    remaining: Scalar,
    config: LearningConfig,
    after: Scalar,
)
    requires
        call_ensures(decay_by, (weight, remaining, &config), after),
        !weight.negative(),
        weight.magnitude() <= ONE,
        !remaining.negative(),
        remaining.magnitude() <= ONE,
        !config.min_weight.nan(),
    ensures
        config.min_weight.at_most(after),
        ({
            let d = unit_scale();
            let left = weight.exact() * remaining.exact();
            config.min_weight.below(after) ==> {
                &&& after.at_most(weight)
                &&& 0x100_0000 * (d * after.exact() - left) <= 2 * (d * d)
                &&& 0x100_0000 * (left - d * after.exact()) <= 2 * (d * d)
            }
        }),
{
    lemma_scaled_down(weight, remaining);
    assert(decayed(weight, remaining, config) == after);
}

/// What the host is asked for decay: two to the power of the hours that have
/// passed over the half-life, negated, so that the longer the time the smaller
/// the power, and never one above zero.
pub proof fn lemma_decay_asks_for_a_power<M: Curves>(
    curves: M,
    elapsed_ns: u64,
    half_life: Scalar,
    remaining: Scalar,
)
    requires
        leaves(curves, elapsed_ns, half_life, remaining),
        half_life.finite(),
        Scalar::from_bits(ZERO).below(half_life),
        forall|ns: u64, hours: Scalar| #[trigger]
            call_ensures(M::ns_to_hours, (&curves, ns), hours) ==> hours.finite()
                && !hours.negative(),
    ensures
        exists|hours: Scalar, power: Scalar|
            {
                &&& #[trigger] call_ensures(M::ns_to_hours, (&curves, elapsed_ns), hours)
                &&& #[trigger] call_ensures(M::exp2, (&curves, power), remaining)
                &&& power.at_most(Scalar::from_bits(ZERO))
                &&& units(power.magnitude()) * units(half_life.magnitude()) <= 2 * (units(
                    hours.magnitude(),
                ) * unit_scale()) + units(half_life.magnitude()) || power.infinite()
            },
{
    let hours = choose|hours: Scalar| #[trigger]
        call_ensures(M::ns_to_hours, (&curves, elapsed_ns), hours) && call_ensures(
            M::exp2,
            (&curves, hours.negated().quotient(half_life)),
            remaining,
        );
    let power = hours.negated().quotient(half_life);
    let zero = Scalar::from_bits(ZERO);
    lemma_negative_quotients(hours.negated(), hours.negated(), half_life);
    assert(hours.negated().at_most(zero));
    assert(hours.negated().magnitude() == hours.magnitude());
    let d = unit_scale();
    let x = units(hours.magnitude());
    let f = units(half_life.magnitude());
    lemma_pow2_pos(149);
    lemma_units_order(0, hours.magnitude());
    assert(units(0) == 0);
    lemma_units_order(0, half_life.magnitude());
    assert(0 <= x * d) by (nonlinear_arith)
        requires
            0 <= x,
            0 < d,
    ;
    lemma_nearest_exists(x * d, f);
    let m = crate::arith::rounded(x * d, f);
    assert(power.magnitude() == m);
    assert(units(m) * f == f * units(m)) by (nonlinear_arith);
    if m < crate::scalar::HIDDEN_BIT {
        crate::arith::lemma_subnormal_error(x * d, f);
    } else if m < crate::scalar::INFINITY_BITS {
        crate::arith::lemma_rounding_error(x * d, f);
    }
    assert(call_ensures(M::exp2, (&curves, power), remaining));
}

/// What a valid learning configuration is, and what makes one invalid: each
/// bound in plain inequalities.
pub proof fn lemma_a_valid_learning_configuration(config: LearningConfig)
    ensures
        ({
            let zero = Scalar::from_bits(ZERO);
            let one = Scalar::from_bits(ONE);
            &&& config.fault() is None ==> {
                &&& zero.below(config.learning_rate) && config.learning_rate.at_most(one)
                &&& !config.decay_half_life_hours.at_most(zero)
                &&& !config.min_temperature.at_most(zero)
                &&& !config.min_weight.at_most(zero)
                &&& !config.max_weight.at_most(config.min_weight)
                &&& !config.max_total_outbound_weight.at_most(config.max_weight)
                &&& !config.influence_cap_per_peer.at_most(zero)
                &&& zero.below(config.signature_failure_penalty)
                &&& config.signature_failure_penalty.at_most(one)
            }
            &&& zero.below(config.learning_rate) && config.learning_rate.at_most(one) && zero.below(
                config.decay_half_life_hours,
            ) && zero.below(config.min_temperature) && zero.below(config.min_weight)
                && config.min_weight.below(config.max_weight) && config.max_weight.below(
                config.max_total_outbound_weight,
            ) && zero.below(config.influence_cap_per_peer) && zero.below(
                config.signature_failure_penalty,
            ) && config.signature_failure_penalty.at_most(one) ==> config.fault() is None
            &&& config.fault() matches Some(ConfigError::LearningRate(v)) ==> v
                == config.learning_rate && !(zero.below(v) && v.at_most(one))
            &&& config.fault() matches Some(ConfigError::DecayHalfLife(v)) ==> v
                == config.decay_half_life_hours && v.at_most(zero)
        }),
{
}

/// What a valid configuration of the activation gate is.
pub proof fn lemma_a_valid_gate_configuration(config: ActivationConfig)
    ensures
        ({
            let zero = Scalar::from_bits(ZERO);
            let one = Scalar::from_bits(ONE);
            &&& config.fault() is None ==> {
                &&& config.fire_batch_size >= 1
                &&& config.max_queue_depth >= 1
                &&& !config.base_threshold.at_most(zero)
                &&& !config.max_potential.below(config.base_threshold)
                &&& zero.at_most(config.leak_rate) && config.leak_rate.at_most(one)
                &&& config.max_queue_latency_ms == 0 || config.refractory_period_ms
                    <= config.max_queue_latency_ms
            }
            &&& config.fire_batch_size >= 1 && config.max_queue_depth >= 1 && zero.below(
                config.base_threshold,
            ) && config.base_threshold.at_most(config.max_potential) && zero.at_most(
                config.leak_rate,
            ) && config.leak_rate.at_most(one) && (config.max_queue_latency_ms == 0
                || config.refractory_period_ms <= config.max_queue_latency_ms)
                ==> config.fault() is None
        }),
{
}

/// What a valid configuration of propagation is.
pub proof fn lemma_a_valid_propagation_configuration(setup: PropagationSetup, deadline_secs: u64)
    ensures
        ({
            let zero = Scalar::from_bits(ZERO);
            let one = Scalar::from_bits(ONE);
            setup.fault(deadline_secs) is None <==> {
                &&& setup.max_fanout >= 1
                &&& setup.default_ttl >= 1
                &&& zero.at_most(setup.min_propagation_weight)
                &&& setup.min_propagation_weight.below(one)
                &&& zero.at_most(setup.attenuation_factor)
                &&& setup.attenuation_factor.at_most(one)
                &&& deadline_secs <= setup.dedup_cache_seconds
            }
        }),
{
}

/// The defaults of learning, in decimals: rates, half-lives, temperatures,
/// windows, budgets and caps of each class.
pub proof fn lemma_learning_defaults()
    ensures
        ({
            let edge = LearningConfig::class_defaults(DeploymentClass::Edge);
            let full = LearningConfig::class_defaults(DeploymentClass::FullNode);
            let busy = LearningConfig::class_defaults(DeploymentClass::HighTraffic);
            &&& near(edge.learning_rate, 5, 100)
            &&& near(full.learning_rate, 2, 100)
            &&& near(busy.learning_rate, 1, 100)
            &&& near(edge.decay_half_life_hours, 168, 1)
            &&& near(full.decay_half_life_hours, 72, 1)
            &&& near(busy.decay_half_life_hours, 24, 1)
            &&& near(edge.exploration_temperature, 15, 100)
            &&& near(full.exploration_temperature, 10, 100)
            &&& near(busy.exploration_temperature, 5, 100)
            &&& near(edge.min_temperature, 2, 100)
            &&& near(full.min_temperature, 2, 100)
            &&& near(busy.min_temperature, 1, 100)
            &&& edge.receipt_window_secs == 30
            &&& full.receipt_window_secs == 15
            &&& busy.receipt_window_secs == 5
            &&& near(edge.max_total_outbound_weight, 8, 1)
            &&& near(full.max_total_outbound_weight, 32, 1)
            &&& near(busy.max_total_outbound_weight, 128, 1)
            &&& near(edge.influence_cap_per_peer, 20, 100)
            &&& near(full.influence_cap_per_peer, 10, 100)
            &&& near(busy.influence_cap_per_peer, 5, 100)
        }),
{
    lemma2_to64();
    lemma_pattern(Scalar::from_bits(0x3D4C_CCCD), 122, 0xCC_CCCD, 5, 100);
    lemma_pattern(Scalar::from_bits(0x3CA3_D70A), 121, 0xA3_D70A, 2, 100);
    lemma_pattern(Scalar::from_bits(0x3C23_D70A), 120, 0xA3_D70A, 1, 100);
    lemma_pattern(Scalar::from_bits(0x4328_0000), 134, 0xA8_0000, 168, 1);
    lemma_pattern(Scalar::from_bits(0x4290_0000), 133, 0x90_0000, 72, 1);
    lemma_pattern(Scalar::from_bits(0x41C0_0000), 131, 0xC0_0000, 24, 1);
    lemma_pattern(Scalar::from_bits(0x3E19_999A), 124, 0x99_999A, 15, 100);
    lemma_pattern(Scalar::from_bits(0x3DCC_CCCD), 123, 0xCC_CCCD, 10, 100);
    lemma_pattern(Scalar::from_bits(0x4100_0000), 130, 0x80_0000, 8, 1);
    lemma_pattern(Scalar::from_bits(0x4200_0000), 132, 0x80_0000, 32, 1);
    lemma_pattern(Scalar::from_bits(0x4300_0000), 134, 0x80_0000, 128, 1);
    lemma_pattern(Scalar::from_bits(0x3E4C_CCCD), 124, 0xCC_CCCD, 20, 100);
}

/// What every class shares: weights from a thousandth to one, an hour's
/// influence window, half the weight for a bad signature, five of which prune,
/// and an hour without reforming.
pub proof fn lemma_common_learning_defaults(class: DeploymentClass)
    ensures
        ({
            let c = LearningConfig::class_defaults(class);
            &&& c.enabled
            &&& near(c.min_weight, 1, 1000)
            &&& near(c.max_weight, 1, 1)
            &&& c.influence_window_secs == 3600
            &&& near(c.signature_failure_penalty, 1, 2)
            &&& c.signature_failure_prune_threshold == 5
            &&& c.signature_failure_cooldown_secs == 3600
        }),
{
    lemma2_to64();
    vstd::arithmetic::power2::lemma2_to64_rest();
    lemma_pattern(Scalar::from_bits(0x3A83_126F), 117, 0x83_126F, 1, 1000);
    lemma_pattern(Scalar::from_bits(0x3F80_0000), 127, 0x80_0000, 1, 1);
    lemma_pattern(Scalar::from_bits(0x3F00_0000), 126, 0x80_0000, 1, 2);
}

/// The defaults of the activation gate: half a threshold, a hundredth of a leak,
/// and ceilings, batches, depths and guards that grow or shrink with the class.
pub proof fn lemma_gate_defaults(class: NodeClass)
    ensures
        ({
            let c = ActivationConfig::class_defaults(class);
            &&& near(c.base_threshold, 1, 2)
            &&& near(c.leak_rate, 1, 100)
            &&& c.activation_function is Step
            &&& c.overflow_policy is DropLowestWeight
            &&& c.dynamic_threshold
            &&& c.node_class == class
            &&& c.refractory_period_ms == (match class {
                NodeClass::Edge => 10u64,
                NodeClass::Standard => 1u64,
                NodeClass::Server => 0u64,
                NodeClass::Infrastructure => 0u64,
            })
            &&& near(
                c.max_potential,
                match class {
                    NodeClass::Server => 50,
                    NodeClass::Infrastructure => 100,
                    _ => 10,
                },
                1,
            )
            &&& c.fire_batch_size == (match class {
                NodeClass::Edge => 8usize,
                NodeClass::Standard => 16usize,
                NodeClass::Server => 64usize,
                NodeClass::Infrastructure => 128usize,
            })
            &&& c.max_queue_depth == (match class {
                NodeClass::Edge => 256usize,
                NodeClass::Standard => 1024usize,
                NodeClass::Server => 8192usize,
                NodeClass::Infrastructure => 32768usize,
            })
            &&& c.max_queue_latency_ms == (match class {
                NodeClass::Edge => 1000u64,
                NodeClass::Standard => 500u64,
                NodeClass::Server => 250u64,
                NodeClass::Infrastructure => 100u64,
            })
        }),
{
    lemma2_to64();
    lemma_pattern(Scalar::from_bits(0x3F00_0000), 126, 0x80_0000, 1, 2);
    lemma_pattern(Scalar::from_bits(0x3C23_D70A), 120, 0xA3_D70A, 1, 100);
    lemma_pattern(Scalar::from_bits(0x4120_0000), 130, 0xA0_0000, 10, 1);
    lemma_pattern(Scalar::from_bits(0x4248_0000), 132, 0xC8_0000, 50, 1);
    lemma_pattern(Scalar::from_bits(0x42C8_0000), 133, 0xC8_0000, 100, 1);
}

/// The defaults of propagation: ten hops, a hundredth of a weight at least,
/// nine tenths of it left per hop, five synapses per hop, five minutes of
/// memory.
pub proof fn lemma_propagation_defaults()
    ensures
        ({
            let c = PropagationSetup::defaults();
            &&& c.default_ttl == 10
            &&& near(c.min_propagation_weight, 1, 100)
            &&& near(c.attenuation_factor, 9, 10)
            &&& c.max_fanout == 5
            &&& c.dedup_cache_seconds == 300
        }),
{
    lemma2_to64();
    lemma_pattern(Scalar::from_bits(0x3C23_D70A), 120, 0xA3_D70A, 1, 100);
    lemma_pattern(Scalar::from_bits(0x3F66_6666), 126, 0xE6_6666, 9, 10);
}

/// A failure does not raise a type's affinity.
pub proof fn lemma_failures_lower_affinity(
    affinity: Scalar,
    outcome: Outcome,
    config: LearningConfig,
)
    requires
        !(outcome is Delivered),
        affinity.between(Scalar::from_bits(ZERO), Scalar::from_bits(ONE)),
        !affinity.negative(),
        Scalar::from_bits(ZERO).below(config.learning_rate),
        config.learning_rate.at_most(Scalar::from_bits(ONE)),
    ensures
        affinity_after(affinity, outcome, config).at_most(affinity),
{
    let reward = Scalar::from_bits(outcome.reward_bits());
    let plain_reward = Scalar { bits: reward.magnitude() as u32 };
    lemma_reward_value(outcome);
    lemma_delta(config.learning_rate, reward, plain_reward, quarters(outcome));
    lemma_signed_sums(affinity, affinity, config.learning_rate.product(reward));
}

} // verus!
