//! The online routing model: reward-driven weight updates, decay, outbound
//! normalisation, influence caps and stochastic exploration.
//!
//! Every function takes its time and randomness as arguments.

use vstd::prelude::*;

use crate::budget::{
    accountable, budgets, floors_fit, lemma_normalising_keeps_order, lemma_normalising_raises_none,
    lemma_the_budget_holds, lemma_the_floors_fill_the_budget, weighable, within_budget,
};
use crate::config::ConfigError;
use crate::curves::{exp_gives, falls_in, leaves, Curves};
use crate::decay::{decays, leaves_fractions};
use crate::order::{arranges, sort_stably, sorts, Placed};
use crate::rng::{drawn_or_zero, fraction_drawn, number_drawn, Rng};
use crate::scalar::{Scalar, ONE, ZERO};
use crate::store::Outcome;
use crate::time::{saturated, saturating_product, NANOS_PER_SEC};

verus! {

/// The pattern of the distance from one to the next larger number.
pub const EPSILON: u32 = 0x3400_0000;

/// The pattern of negative infinity.
pub const NEGATIVE_INFINITY: u32 = 0xFF80_0000;

/// Deployment class, selecting hyperparameter defaults.
#[derive(Clone, Copy, Debug, PartialEq, Eq, Structural)]
pub enum DeploymentClass {
    /// Constrained device: phone, sensor, intermittent link.
    Edge,
    /// General-purpose participating node.
    FullNode,
    /// High-volume infrastructure node.
    HighTraffic,
}

impl Default for DeploymentClass {
    fn default() -> (r: Self)
        ensures
            r == DeploymentClass::Edge,
    {
        DeploymentClass::Edge
    }
}

/// Hyperparameters for the routing model.
#[derive(Clone, Copy, Debug, PartialEq, Eq, Structural)]
pub struct LearningConfig {
    /// Whether weights are updated at all.
    pub enabled: bool,
    /// Learning rate.
    pub learning_rate: Scalar,
    /// Decay half-life in hours.
    pub decay_half_life_hours: Scalar,
    /// Exploration temperature.
    pub exploration_temperature: Scalar,
    /// Floor for the temperature. A node that stops exploring stops learning.
    pub min_temperature: Scalar,
    /// Seconds before an unresolved decision times out.
    pub receipt_window_secs: u64,
    /// Lower weight bound.
    pub min_weight: Scalar,
    /// Upper weight bound.
    pub max_weight: Scalar,
    /// Total outbound weight budget.
    pub max_total_outbound_weight: Scalar,
    /// Influence cap of one identity within one window.
    pub influence_cap_per_peer: Scalar,
    /// Influence window, in seconds.
    pub influence_window_secs: u64,
    /// Fraction of the weight lost on a signature failure.
    pub signature_failure_penalty: Scalar,
    /// Signature failures within one influence window before pruning.
    pub signature_failure_prune_threshold: u32,
    /// Seconds during which a synapse pruned for signature failures may not
    /// form again.
    pub signature_failure_cooldown_secs: u64,
}

impl LearningConfig {
    /// The defaults of a class, by bit pattern: the learning rate, half-life,
    /// temperature and its floor, receipt window, budget and cap.
    pub open spec fn class_defaults(class: DeploymentClass) -> LearningConfig {
        let common = LearningConfig {
            enabled: true,
            learning_rate: Scalar::from_bits(0x3D4C_CCCD),
            decay_half_life_hours: Scalar::from_bits(0x4328_0000),
            exploration_temperature: Scalar::from_bits(0x3E19_999A),
            min_temperature: Scalar::from_bits(0x3CA3_D70A),
            receipt_window_secs: 30,
            min_weight: Scalar::from_bits(0x3A83_126F),
            max_weight: Scalar::from_bits(ONE),
            max_total_outbound_weight: Scalar::from_bits(0x4100_0000),
            influence_cap_per_peer: Scalar::from_bits(0x3E4C_CCCD),
            influence_window_secs: 3_600,
            signature_failure_penalty: Scalar::from_bits(0x3F00_0000),
            signature_failure_prune_threshold: 5,
            signature_failure_cooldown_secs: 3_600,
        };
        match class {
            DeploymentClass::Edge => common,
            DeploymentClass::FullNode => LearningConfig {
                learning_rate: Scalar::from_bits(0x3CA3_D70A),
                decay_half_life_hours: Scalar::from_bits(0x4290_0000),
                exploration_temperature: Scalar::from_bits(0x3DCC_CCCD),
                receipt_window_secs: 15,
                max_total_outbound_weight: Scalar::from_bits(0x4200_0000),
                influence_cap_per_peer: Scalar::from_bits(0x3DCC_CCCD),
                ..common
            },
            DeploymentClass::HighTraffic => LearningConfig {
                learning_rate: Scalar::from_bits(0x3C23_D70A),
                decay_half_life_hours: Scalar::from_bits(0x41C0_0000),
                exploration_temperature: Scalar::from_bits(0x3D4C_CCCD),
                min_temperature: Scalar::from_bits(0x3C23_D70A),
                receipt_window_secs: 5,
                max_total_outbound_weight: Scalar::from_bits(0x4300_0000),
                influence_cap_per_peer: Scalar::from_bits(0x3D4C_CCCD),
                ..common
            },
        }
    }

    /// The first field that is invalid, if one is.
    pub open spec fn fault(self) -> Option<ConfigError> {
        let zero = Scalar::from_bits(ZERO);
        let one = Scalar::from_bits(ONE);
        if !(zero.below(self.learning_rate) && self.learning_rate.at_most(one)) {
            Some(ConfigError::LearningRate(self.learning_rate))
        } else if self.decay_half_life_hours.at_most(zero) {
            Some(ConfigError::DecayHalfLife(self.decay_half_life_hours))
        } else if self.min_temperature.at_most(zero) {
            Some(ConfigError::MinTemperature)
        } else if self.min_weight.at_most(zero) || self.max_weight.at_most(self.min_weight) {
            Some(ConfigError::WeightBounds(self.min_weight, self.max_weight))
        } else if self.max_total_outbound_weight.at_most(self.max_weight) {
            Some(ConfigError::OutboundBudget(self.max_total_outbound_weight, self.max_weight))
        } else if self.influence_cap_per_peer.at_most(zero) {
            Some(ConfigError::InfluenceCap)
        } else if !(zero.below(self.signature_failure_penalty)
            && self.signature_failure_penalty.at_most(one)) {
            Some(ConfigError::SignaturePenalty(self.signature_failure_penalty))
        } else {
            None
        }
    }

    /// The instant a number of seconds before another.
    pub open spec fn window_start(now_ns: u64, secs: u64) -> u64 {
        let length = saturated(secs * NANOS_PER_SEC);
        if now_ns < length {
            0
        } else {
            (now_ns - length) as u64
        }
    }

    /// Defaults for a deployment class.
    pub fn for_class(class: DeploymentClass) -> (r: LearningConfig)
        ensures
            r == LearningConfig::class_defaults(class),
    {
        let common = LearningConfig {
            enabled: true,
            learning_rate: Scalar::from_bits(0x3D4C_CCCD),
            decay_half_life_hours: Scalar::from_bits(0x4328_0000),
            exploration_temperature: Scalar::from_bits(0x3E19_999A),
            min_temperature: Scalar::from_bits(0x3CA3_D70A),
            receipt_window_secs: 30,
            min_weight: Scalar::from_bits(0x3A83_126F),
            max_weight: Scalar::from_bits(ONE),
            max_total_outbound_weight: Scalar::from_bits(0x4100_0000),
            influence_cap_per_peer: Scalar::from_bits(0x3E4C_CCCD),
            influence_window_secs: 3_600,
            signature_failure_penalty: Scalar::from_bits(0x3F00_0000),
            signature_failure_prune_threshold: 5,
            signature_failure_cooldown_secs: 3_600,
        };
        match class {
            DeploymentClass::Edge => common,
            DeploymentClass::FullNode => LearningConfig {
                learning_rate: Scalar::from_bits(0x3CA3_D70A),
                decay_half_life_hours: Scalar::from_bits(0x4290_0000),
                exploration_temperature: Scalar::from_bits(0x3DCC_CCCD),
                receipt_window_secs: 15,
                max_total_outbound_weight: Scalar::from_bits(0x4200_0000),
                influence_cap_per_peer: Scalar::from_bits(0x3DCC_CCCD),
                ..common
            },
            DeploymentClass::HighTraffic => LearningConfig {
                learning_rate: Scalar::from_bits(0x3C23_D70A),
                decay_half_life_hours: Scalar::from_bits(0x41C0_0000),
                exploration_temperature: Scalar::from_bits(0x3D4C_CCCD),
                min_temperature: Scalar::from_bits(0x3C23_D70A),
                receipt_window_secs: 5,
                max_total_outbound_weight: Scalar::from_bits(0x4300_0000),
                influence_cap_per_peer: Scalar::from_bits(0x3D4C_CCCD),
                ..common
            },
        }
    }

    /// The temperature, never below the floor.
    pub open spec fn temperature(self) -> Scalar {
        self.exploration_temperature.larger(self.min_temperature)
    }

    /// Effective temperature, never below the floor.
    pub fn effective_temperature(&self) -> (r: Scalar)
        ensures
            r == self.temperature(),
    {
        self.exploration_temperature.max(self.min_temperature)
    }

    /// Start of the influence window that ends at `now_ns`.
    pub fn influence_window_start(&self, now_ns: u64) -> (r: u64)
        ensures
            r == LearningConfig::window_start(now_ns, self.influence_window_secs),
            now_ns >= self.influence_window_secs * 1_000_000_000 ==> r == now_ns
                - self.influence_window_secs * 1_000_000_000,
            now_ns < self.influence_window_secs * 1_000_000_000 ==> r == 0,
    {
        now_ns.saturating_sub(saturating_product(self.influence_window_secs, NANOS_PER_SEC))
    }

    /// The instant before which a decision must have been made to be overdue.
    pub fn receipt_deadline(&self, now_ns: u64) -> (r: u64)
        ensures
            r == LearningConfig::window_start(now_ns, self.receipt_window_secs),
            now_ns >= self.receipt_window_secs * 1_000_000_000 ==> r == now_ns
                - self.receipt_window_secs * 1_000_000_000,
            now_ns < self.receipt_window_secs * 1_000_000_000 ==> r == 0,
    {
        now_ns.saturating_sub(saturating_product(self.receipt_window_secs, NANOS_PER_SEC))
    }

    /// Validate the configuration.
    pub fn validate(&self) -> (r: Result<(), ConfigError>)
        ensures
            r == (match self.fault() {
                Some(e) => Err(e),
                None => Ok(()),
            }),
    {
        let zero = Scalar::from_bits(ZERO);
        let one = Scalar::from_bits(ONE);
        if !(zero.lt(self.learning_rate) && self.learning_rate.le(one)) {
            return Err(ConfigError::LearningRate(self.learning_rate));
        }
        if self.decay_half_life_hours.le(zero) {
            return Err(ConfigError::DecayHalfLife(self.decay_half_life_hours));
        }
        if self.min_temperature.le(zero) {
            return Err(ConfigError::MinTemperature);
        }
        if self.min_weight.le(zero) || self.max_weight.le(self.min_weight) {
            return Err(ConfigError::WeightBounds(self.min_weight, self.max_weight));
        }
        if self.max_total_outbound_weight.le(self.max_weight) {
            return Err(
                ConfigError::OutboundBudget(self.max_total_outbound_weight, self.max_weight),
            );
        }
        if self.influence_cap_per_peer.le(zero) {
            return Err(ConfigError::InfluenceCap);
        }
        if !(zero.lt(self.signature_failure_penalty) && self.signature_failure_penalty.le(one)) {
            return Err(ConfigError::SignaturePenalty(self.signature_failure_penalty));
        }
        Ok(())
    }
}

impl Default for LearningConfig {
    fn default() -> (r: Self)
        ensures
            r == LearningConfig::class_defaults(DeploymentClass::Edge),
    {
        LearningConfig::for_class(DeploymentClass::Edge)
    }
}

/// The defaults of every class are valid.
pub proof fn lemma_class_defaults_validate(class: DeploymentClass)
    ensures
        LearningConfig::class_defaults(class).fault() is None,
{
}

/// The outcome of applying one learning update.
#[derive(Clone, Copy, Debug, PartialEq, Eq, Structural)]
pub struct WeightUpdate {
    /// Weight before the update.
    pub before: Scalar,
    /// Weight after the update.
    pub after: Scalar,
    /// The difference that was applied, after clamping and capping.
    pub applied_delta: Scalar,
    /// Whether the influence cap reduced or suppressed the update.
    pub capped: bool,
}

impl WeightUpdate {
    /// An update that changes nothing.
    pub open spec fn nothing() -> WeightUpdate {
        let zero = Scalar::from_bits(ZERO);
        WeightUpdate { before: zero, after: zero, applied_delta: zero, capped: false }
    }

    /// Whether the update changed anything worth speaking of.
    pub fn is_noop(&self) -> (r: bool)
        ensures
            r == self.after.difference(self.before).absolute().below(Scalar::from_bits(EPSILON)),
    {
        self.after.minus(self.before).abs().lt(Scalar::from_bits(EPSILON))
    }
}

/// How far a resolved decision would move a weight, before the cap: rate times
/// reward times the weight of the signal that was carried.
pub open spec fn raw_delta(
    outcome: Outcome,
    signal_weight: Scalar,
    config: LearningConfig,
) -> Scalar {
    config.learning_rate.product(Scalar::from_bits(outcome.reward_bits())).product(
        signal_weight.clamped(Scalar::from_bits(ZERO), Scalar::from_bits(ONE)),
    )
}

/// What the cap leaves of a move, and whether it took anything. Only a move
/// upward is capped, at what is left of the peer's budget.
pub open spec fn capped_delta(raw: Scalar, used: Scalar, cap: Scalar) -> (Scalar, bool) {
    let zero = Scalar::from_bits(ZERO);
    if !zero.below(raw) {
        (raw, false)
    } else if cap.at_most(used) {
        (zero, true)
    } else if cap.difference(used).below(raw) {
        (cap.difference(used), true)
    } else {
        (raw, false)
    }
}

/// The update for one resolved decision.
pub open spec fn rewarded(
    weight: Scalar,
    outcome: Outcome,
    signal_weight: Scalar,
    peer_influence_used: Scalar,
    config: LearningConfig,
) -> WeightUpdate {
    let (delta, capped) = capped_delta(
        raw_delta(outcome, signal_weight, config),
        peer_influence_used,
        config.influence_cap_per_peer,
    );
    let after = weight.sum(delta).clamped(config.min_weight, config.max_weight);
    WeightUpdate { before: weight, after, applied_delta: after.difference(weight), capped }
}

/// Apply the update for one resolved decision.
///
/// A light signal teaches less, so influence cannot be bought cheaply by
/// flooding. When the peer's budget is spent, upward moves are suppressed while
/// downward ones still apply.
pub fn apply_reward(
    weight: Scalar,
    outcome: Outcome,
    signal_weight: Scalar,
    peer_influence_used: Scalar,
    config: &LearningConfig,
) -> (r: WeightUpdate)
    ensures
        r == rewarded(weight, outcome, signal_weight, peer_influence_used, *config),
{
    let zero = Scalar::from_bits(ZERO);
    let raw = config.learning_rate.times(outcome.reward()).times(
        signal_weight.clamp(zero, Scalar::from_bits(ONE)),
    );
    let mut capped: bool = false;
    let mut delta = raw;
    if zero.lt(raw) {
        if config.influence_cap_per_peer.le(peer_influence_used) {
            capped = true;
            delta = zero;
        } else {
            let headroom = config.influence_cap_per_peer.minus(peer_influence_used);
            if headroom.lt(raw) {
                capped = true;
                delta = headroom;
            }
        }
    }
    let after = weight.plus(delta).clamp(config.min_weight, config.max_weight);
    WeightUpdate { before: weight, after, applied_delta: after.minus(weight), capped }
}

/// The cap is asymmetric: whatever budget a peer has used, a move that is not
/// upward applies in full and is not marked capped.
pub proof fn lemma_negatives_always_apply(
    weight: Scalar,
    outcome: Outcome,
    signal_weight: Scalar,
    used: Scalar,
    config: LearningConfig,
)
    requires
        !Scalar::from_bits(ZERO).below(raw_delta(outcome, signal_weight, config)),
    ensures
        !rewarded(weight, outcome, signal_weight, used, config).capped,
        rewarded(weight, outcome, signal_weight, used, config).after == weight.sum(
            raw_delta(outcome, signal_weight, config),
        ).clamped(config.min_weight, config.max_weight),
{
}

/// A peer whose budget is spent gains nothing: the weight only returns to its
/// bounds.
pub proof fn lemma_spent_budget_gives_nothing(
    weight: Scalar,
    outcome: Outcome,
    signal_weight: Scalar,
    used: Scalar,
    config: LearningConfig,
)
    requires
        Scalar::from_bits(ZERO).below(raw_delta(outcome, signal_weight, config)),
        config.influence_cap_per_peer.at_most(used),
        weight.finite(),
        !weight.negative(),
        weight.between(config.min_weight, config.max_weight),
    ensures
        rewarded(weight, outcome, signal_weight, used, config).capped,
        rewarded(weight, outcome, signal_weight, used, config).after == weight,
{
    lemma_adding_zero(weight);
}

/// Adding zero changes nothing.
pub proof fn lemma_adding_zero(weight: Scalar)
    requires
        weight.finite(),
        !weight.negative(),
    ensures
        weight.sum(Scalar::from_bits(ZERO)) == weight,
{
    let m = weight.magnitude();
    crate::arith::lemma_rounding_is_exact(m, 1);
    assert(crate::arith::units(0) == 0);
    assert(crate::arith::units(m) * 1 == crate::arith::units(m));
    if m > 0 {
        crate::arith::lemma_units_increase(0, m);
    }
}

/// Whether what an update is computed from are numbers: a weight within bounds,
/// the weight of a signal, and what a peer has used of its influence.
pub open spec fn sound(
    weight: Scalar,
    signal_weight: Scalar,
    used: Scalar,
    config: LearningConfig,
) -> bool {
    &&& config.fault() is None
    &&& config.max_weight.finite()
    &&& config.influence_cap_per_peer.finite()
    &&& weight.between(config.min_weight, config.max_weight)
    &&& !signal_weight.nan()
    &&& !signal_weight.negative()
    &&& used.finite()
    &&& !used.negative()
}

/// The move that an outcome asks for is a number, upward only for a delivery.
proof fn lemma_raw_delta(outcome: Outcome, signal_weight: Scalar, config: LearningConfig)
    requires
        config.fault() is None,
        !signal_weight.nan(),
        !signal_weight.negative(),
    ensures
        raw_delta(outcome, signal_weight, config).finite(),
        outcome is Delivered ==> !raw_delta(outcome, signal_weight, config).negative(),
        !(outcome is Delivered) ==> raw_delta(outcome, signal_weight, config).negative()
            || raw_delta(outcome, signal_weight, config).is_zero(),
{
    let reward = Scalar::from_bits(outcome.reward_bits());
    let carried = signal_weight.clamped(Scalar::from_bits(ZERO), Scalar::from_bits(ONE));
    let rate = config.learning_rate;
    crate::arith::lemma_shrinking(rate, reward);
    crate::arith::lemma_shrinking(rate.product(reward), carried);
    if outcome is Pending {
        assert(crate::arith::units(0) == 0);
        let d = crate::arith::unit_scale();
        vstd::arithmetic::power2::lemma_pow2_pos(149);
        crate::arith::lemma_rounding_is_exact(0, d);
        assert(crate::arith::units(rate.magnitude()) * 0 == 0);
        assert(0 * d == 0);
        assert(rate.product(reward).is_zero());
    }
}

/// What the cap leaves of a move upward is a number and not negative.
proof fn lemma_capped_delta(raw: Scalar, used: Scalar, cap: Scalar)
    requires
        raw.finite(),
        cap.finite(),
        used.finite(),
        !used.negative(),
    ensures
        capped_delta(raw, used, cap).0.finite(),
        !raw.negative() ==> !capped_delta(raw, used, cap).0.negative(),
        capped_delta(raw, used, cap).0.at_most(raw),
        Scalar::from_bits(ZERO).below(raw) && used.below(cap) ==> capped_delta(
            raw,
            used,
            cap,
        ).0.at_most(cap.difference(used)),
{
    if Scalar::from_bits(ZERO).below(raw) && !cap.at_most(used) {
        crate::arith::lemma_taking_away(cap, used.negated());
    }
}

/// An update keeps the weight within the bounds.
pub proof fn lemma_update_respects_bounds(
    weight: Scalar,
    outcome: Outcome,
    signal_weight: Scalar,
    used: Scalar,
    config: LearningConfig,
)
    requires
        sound(weight, signal_weight, used, config),
    ensures
        rewarded(weight, outcome, signal_weight, used, config).after.between(
            config.min_weight,
            config.max_weight,
        ),
{
    let raw = raw_delta(outcome, signal_weight, config);
    let delta = capped_delta(raw, used, config.influence_cap_per_peer).0;
    lemma_raw_delta(outcome, signal_weight, config);
    lemma_capped_delta(raw, used, config.influence_cap_per_peer);
    if delta.negative() || delta.is_zero() {
        crate::arith::lemma_taking_away(weight, delta);
    } else {
        crate::arith::lemma_adding_up(weight, delta);
    }
}

/// A delivery never lowers a weight.
pub proof fn lemma_a_delivery_does_not_weaken(
    weight: Scalar,
    signal_weight: Scalar,
    used: Scalar,
    config: LearningConfig,
)
    requires
        sound(weight, signal_weight, used, config),
    ensures
        weight.at_most(
            rewarded(weight, Outcome::Delivered, signal_weight, used, config).after,
        ),
{
    let raw = raw_delta(Outcome::Delivered, signal_weight, config);
    let delta = capped_delta(raw, used, config.influence_cap_per_peer).0;
    lemma_raw_delta(Outcome::Delivered, signal_weight, config);
    lemma_capped_delta(raw, used, config.influence_cap_per_peer);
    crate::arith::lemma_adding_up(weight, delta);
}

/// Nothing but a delivery raises a weight.
pub proof fn lemma_only_a_delivery_strengthens(
    weight: Scalar,
    outcome: Outcome,
    signal_weight: Scalar,
    used: Scalar,
    config: LearningConfig,
)
    requires
        sound(weight, signal_weight, used, config),
        !(outcome is Delivered),
    ensures
        rewarded(weight, outcome, signal_weight, used, config).after.at_most(weight),
        !rewarded(weight, outcome, signal_weight, used, config).capped,
{
    let raw = raw_delta(outcome, signal_weight, config);
    lemma_raw_delta(outcome, signal_weight, config);
    crate::arith::lemma_taking_away(weight, raw);
}

/// A delivery raises a weight by no more than what is left of the peer's
/// influence: the move that is added is within the cap less what was used.
pub proof fn lemma_influence_is_capped(
    signal_weight: Scalar,
    used: Scalar,
    config: LearningConfig,
)
    requires
        config.fault() is None,
        config.influence_cap_per_peer.finite(),
        !signal_weight.nan(),
        !signal_weight.negative(),
        used.finite(),
        !used.negative(),
    ensures
        ({
            let raw = raw_delta(Outcome::Delivered, signal_weight, config);
            let cap = config.influence_cap_per_peer;
            let (delta, capped) = capped_delta(raw, used, cap);
            &&& delta.at_most(raw)
            &&& cap.at_most(used) ==> delta.is_zero()
            &&& used.below(cap) && Scalar::from_bits(ZERO).below(raw) ==> delta.at_most(
                cap.difference(used),
            )
            &&& capped <==> delta != raw || cap.at_most(used) && Scalar::from_bits(ZERO).below(raw)
        }),
{
    let raw = raw_delta(Outcome::Delivered, signal_weight, config);
    lemma_raw_delta(Outcome::Delivered, signal_weight, config);
    lemma_capped_delta(raw, used, config.influence_cap_per_peer);
}

/// A weight that decays does not rise, nor does it fall through the lower bound.
pub proof fn lemma_decay_does_not_strengthen(
    weight: Scalar,
    remaining: Scalar,
    config: LearningConfig,
)
    requires
        weight.finite(),
        !weight.negative(),
        config.min_weight.at_most(weight),
        remaining.between(Scalar::from_bits(ZERO), Scalar::from_bits(ONE)),
    ensures
        decayed(weight, remaining, config).at_most(weight),
        config.min_weight.at_most(decayed(weight, remaining, config)),
{
    crate::arith::lemma_shrinking(weight, remaining);
}

/// The signature-failure penalty does not raise a weight, nor does it take it
/// through the lower bound.
pub proof fn lemma_a_penalty_does_not_strengthen(weight: Scalar, config: LearningConfig)
    requires
        config.fault() is None,
        weight.finite(),
        !weight.negative(),
        config.min_weight.at_most(weight),
    ensures
        penalised(weight, config).at_most(weight),
        config.min_weight.at_most(penalised(weight, config)),
{
    let one = Scalar::from_bits(ONE);
    let penalty = config.signature_failure_penalty;
    crate::arith::lemma_taking_away(one, penalty.negated());
    crate::arith::lemma_shrinking(weight, one.difference(penalty));
}

/// The temperature is never below its floor, so a node never stops exploring.
pub proof fn lemma_temperature_has_a_floor(config: LearningConfig)
    requires
        !config.min_temperature.nan(),
    ensures
        config.min_temperature.at_most(config.temperature()),
{
}

/// A decision that is still pending moves no weight that is within its bounds.
pub proof fn lemma_pending_moves_nothing(
    weight: Scalar,
    signal_weight: Scalar,
    used: Scalar,
    config: LearningConfig,
)
    requires
        weight.finite(),
        !weight.negative(),
        weight.between(config.min_weight, config.max_weight),
        config.learning_rate.finite(),
        !config.learning_rate.negative(),
        !signal_weight.nan(),
        !signal_weight.negative(),
    ensures
        rewarded(weight, Outcome::Pending, signal_weight, used, config).after == weight,
        !rewarded(weight, Outcome::Pending, signal_weight, used, config).capped,
{
    let zero = Scalar::from_bits(ZERO);
    let limited = signal_weight.clamped(zero, Scalar::from_bits(ONE));
    let rate = config.learning_rate;
    let d = crate::arith::unit_scale();
    vstd::arithmetic::power2::lemma_pow2_pos(149);
    assert(crate::arith::units(0) == 0);
    crate::arith::lemma_rounding_is_exact(0, d);
    assert(0 * d == 0);
    assert(crate::arith::units(rate.magnitude()) * 0 == 0);
    assert(rate.product(zero) == zero);
    assert(0 * crate::arith::units(limited.magnitude()) == 0);
    assert(zero.product(limited) == zero);
    lemma_adding_zero(weight);
}

/// The weight after the signature-failure penalty.
pub open spec fn penalised(weight: Scalar, config: LearningConfig) -> Scalar {
    weight.product(
        Scalar::from_bits(ONE).difference(config.signature_failure_penalty),
    ).larger(config.min_weight)
}

/// Apply the signature-failure penalty: the weight loses a fraction, down to
/// the lower bound. Recovery is by ordinary learning only.
pub fn apply_signature_penalty(weight: Scalar, config: &LearningConfig) -> (r: Scalar)
    ensures
        r == penalised(weight, *config),
{
    weight.times(Scalar::from_bits(ONE).minus(config.signature_failure_penalty)).max(
        config.min_weight,
    )
}

/// A type's affinity score after an outcome.
pub open spec fn affinity_after(
    affinity: Scalar,
    outcome: Outcome,
    config: LearningConfig,
) -> Scalar {
    affinity.sum(
        config.learning_rate.product(Scalar::from_bits(outcome.reward_bits())),
    ).clamped(Scalar::from_bits(ZERO), Scalar::from_bits(ONE))
}

/// Update a type's affinity score from an outcome.
pub fn apply_affinity_update(affinity: Scalar, outcome: Outcome, config: &LearningConfig) -> (r:
    Scalar)
    ensures
        r == affinity_after(affinity, outcome, *config),
{
    affinity.plus(config.learning_rate.times(outcome.reward())).clamp(
        Scalar::from_bits(ZERO),
        Scalar::from_bits(ONE),
    )
}

/// A weight of which a fraction remains, down to the lower bound.
pub open spec fn decayed(weight: Scalar, remaining: Scalar, config: LearningConfig) -> Scalar {
    weight.product(remaining).larger(config.min_weight)
}

/// Leave a fraction of a weight, down to the lower bound.
pub fn decay_by(weight: Scalar, remaining: Scalar, config: &LearningConfig) -> (r: Scalar)
    ensures
        r == decayed(weight, remaining, *config),
{
    weight.times(remaining).max(config.min_weight)
}

/// Decay a weight from its last activity to now, by half-life. A clock that
/// went backwards changes nothing.
pub fn decayed_weight<M: Curves>(
    weight: Scalar,
    last_active_ns: u64,
    now_ns: u64,
    config: &LearningConfig,
    curves: &M,
) -> (r: Scalar)
    ensures
        decays(*curves, *config, weight, last_active_ns, now_ns, r),
        leaves_fractions(*curves, *config) && weight.finite() && !weight.negative()
            && config.min_weight.at_most(weight) ==> r.between(config.min_weight, weight),
{
    if now_ns <= last_active_ns {
        return weight;
    }
    let hours = curves.ns_to_hours(now_ns - last_active_ns);
    let remaining = curves.exp2(hours.negate().over(config.decay_half_life_hours));
    assert(call_ensures(M::ns_to_hours, (curves, (now_ns - last_active_ns) as u64), hours));
    assert(leaves(
        *curves,
        (now_ns - last_active_ns) as u64,
        config.decay_half_life_hours,
        remaining,
    ));
    proof {
        if leaves_fractions(*curves, *config) && weight.finite() && !weight.negative()
            && config.min_weight.at_most(weight) {
            lemma_decay_does_not_strengthen(weight, remaining, *config);
        }
    }
    decay_by(weight, remaining, config)
}

/// Elapsed time after which a weight decays to `target`, in nanoseconds. There
/// is none to a target that is not positive or that the weight is not above.
pub fn time_to_decay_to<M: Curves>(
    weight: Scalar,
    target: Scalar,
    config: &LearningConfig,
    curves: &M,
) -> (r: Option<u64>)
    ensures
        r is None <==> target.at_most(Scalar::from_bits(ZERO)) || weight.at_most(target),
        r matches Some(time_ns) ==> falls_in(
            *curves,
            weight.quotient(target),
            config.decay_half_life_hours,
            time_ns,
        ),
{
    if target.le(Scalar::from_bits(ZERO)) || weight.le(target) {
        return None;
    }
    let halvings = curves.log2(weight.over(target));
    assert(call_ensures(M::log2, (curves, weight.quotient(target)), halvings));
    Some(curves.hours_to_ns(halvings.times(config.decay_half_life_hours)))
}

/// The sum of values, from the front.
pub open spec fn running_sum(values: Seq<Scalar>) -> Scalar
    decreases values.len(),
{
    if values.len() == 0 {
        Scalar::from_bits(ZERO)
    } else {
        running_sum(values.drop_last()).sum(values.last())
    }
}

/// Computes [`running_sum`].
pub fn sum_of(values: &Vec<Scalar>) -> (r: Scalar)
    ensures
        r == running_sum(values@),
{
    let mut total = Scalar::from_bits(ZERO);
    let mut i: usize = 0;
    assert(values@.take(0) =~= Seq::<Scalar>::empty());
    while i < values.len()
        invariant
            i <= values@.len(),
            total == running_sum(values@.take(i as int)),
        decreases values@.len() - i,
    {
        assert(values@.take(i + 1).drop_last() =~= values@.take(i as int));
        total = total.plus(values[i]);
        i = i + 1;
    }
    assert(values@.take(values@.len() as int) =~= values@);
    total
}

/// The factor that brings weights within the budget, if they exceed it.
pub open spec fn excess_factor(weights: Seq<Scalar>, config: LearningConfig) -> Option<Scalar> {
    let total = running_sum(weights);
    if total.at_most(config.max_total_outbound_weight) || total.at_most(Scalar::from_bits(ZERO)) {
        None
    } else {
        Some(config.max_total_outbound_weight.quotient(total))
    }
}

/// The lower bounds of `n` weights together.
pub open spec fn floor_total(n: nat, config: LearningConfig) -> Scalar {
    config.min_weight.product(Scalar::natural(n as int))
}

/// A weight scaled by a factor, but not through a lower bound.
pub open spec fn scaled(weight: Scalar, factor: Scalar, floor: Scalar) -> Scalar {
    weight.product(factor).larger(floor)
}

/// What a weight has above a lower bound.
pub open spec fn surplus(weight: Scalar, floor: Scalar) -> Scalar {
    weight.larger(floor).difference(floor)
}

/// What weights have above a lower bound.
pub open spec fn surpluses(weights: Seq<Scalar>, floor: Scalar) -> Seq<Scalar> {
    weights.map_values(|w: Scalar| surplus(w, floor))
}

/// The factor by which parts share what there is of a pool.
pub open spec fn share(parts: Seq<Scalar>, pool: Scalar) -> Scalar {
    if running_sum(parts).at_most(pool) {
        Scalar::from_bits(ONE)
    } else {
        pool.quotient(running_sum(parts))
    }
}

/// A weight of which only the part above a lower bound is scaled.
pub open spec fn rebased(weight: Scalar, factor: Scalar, floor: Scalar) -> Scalar {
    floor.sum(surplus(weight, floor).product(factor)).smaller(weight.larger(floor))
}

/// Whether scaling by a factor takes no weight through a lower bound.
pub open spec fn stays_above(weights: Seq<Scalar>, factor: Scalar, floor: Scalar) -> bool {
    forall|i: int|
        0 <= i < weights.len() ==> !(#[trigger] weights[i]).product(factor).below(floor)
}

/// Weights after they have been brought within the budget. Where no weight
/// comes below the lower bound, all are scaled by one factor. Elsewhere what
/// the lower bounds leave of the budget is shared among the parts above them,
/// and where they leave nothing, every weight is at the lower bound.
pub open spec fn normalized(weights: Seq<Scalar>, config: LearningConfig) -> Seq<Scalar> {
    let floor = config.min_weight;
    let budget = config.max_total_outbound_weight;
    match excess_factor(weights, config) {
        None => weights,
        Some(factor) => if budget.at_most(floor_total(weights.len(), config)) {
            weights.map_values(|w: Scalar| floor)
        } else if stays_above(weights, factor, floor) {
            weights.map_values(|w: Scalar| scaled(w, factor, floor))
        } else {
            let part = share(
                surpluses(weights, floor),
                budget.difference(floor_total(weights.len(), config)),
            );
            weights.map_values(|w: Scalar| rebased(w, part, floor))
        },
    }
}

/// Rescale weights whose total exceeds the budget, and return the factor by
/// which it does.
///
/// The budget is what makes the weights compete. Without it every weight rises
/// to its bound and scores stop discriminating.
pub fn normalize_outbound(weights: &mut Vec<Scalar>, config: &LearningConfig) -> (r: Option<Scalar>)
    ensures
        r == excess_factor(old(weights)@, *config),
        final(weights)@ == normalized(old(weights)@, *config),
        final(weights)@.len() == old(weights)@.len(),
        accountable(old(weights)@, *config) && floors_fit(old(weights)@.len(), *config)
            ==> within_budget(final(weights)@, *config),
        accountable(old(weights)@, *config) && !floors_fit(old(weights)@.len(), *config) && r is Some
            ==> forall|i: int|
            0 <= i < final(weights)@.len() ==> #[trigger] final(weights)@[i] == config.min_weight,
        r is Some && budgets(*config) && weighable(old(weights)@) ==> {
            &&& forall|i: int|
                0 <= i < final(weights)@.len() ==> config.min_weight.at_most(
                    #[trigger] final(weights)@[i],
                ) && final(weights)@[i].at_most(old(weights)@[i].larger(config.min_weight))
            &&& forall|i: int, j: int|
                0 <= i < final(weights)@.len() && 0 <= j < final(weights)@.len()
                    && old(weights)@[i].at_most(old(weights)@[j]) ==> (
                #[trigger] final(weights)@[i]).at_most(#[trigger] final(weights)@[j])
        },
{
    let ghost before = weights@;
    let total = sum_of(weights);
    if total.le(config.max_total_outbound_weight) || total.le(Scalar::from_bits(ZERO)) {
        proof {
            if accountable(before, *config) && floors_fit(before.len(), *config) {
                lemma_the_budget_holds(before, *config);
            }
        }
        return None;
    }
    let factor = config.max_total_outbound_weight.over(total);
    rescale(weights, factor, config);
    proof {
        if accountable(before, *config) {
            if floors_fit(before.len(), *config) {
                lemma_the_budget_holds(before, *config);
            } else {
                lemma_the_floors_fill_the_budget(before, *config);
            }
        }
        if budgets(*config) && weighable(before) {
            assert forall|i: int| 0 <= i < weights@.len() implies config.min_weight.at_most(
                #[trigger] weights@[i],
            ) && weights@[i].at_most(before[i].larger(config.min_weight)) by {
                lemma_normalising_raises_none(before, *config, i);
            }
            assert forall|i: int, j: int|
                0 <= i < weights@.len() && 0 <= j < weights@.len() && before[i].at_most(
                    before[j],
                ) implies (#[trigger] weights@[i]).at_most(#[trigger] weights@[j]) by {
                lemma_normalising_keeps_order(before, *config, i, j);
            }
        }
    }
    Some(factor)
}

/// Bring weights that exceed the budget by a factor within it.
fn rescale(weights: &mut Vec<Scalar>, factor: Scalar, config: &LearningConfig)
    requires
        excess_factor(old(weights)@, *config) == Some(factor),
    ensures
        final(weights)@ == normalized(old(weights)@, *config),
{
    let ghost before = weights@;
    let floor = config.min_weight;
    let budget = config.max_total_outbound_weight;
    let floors = floor.times(Scalar::from_u64(weights.len() as u64));
    let none_left: bool = budget.le(floors);
    let mut clear: bool = true;
    let mut parts: Vec<Scalar> = Vec::new();
    let mut k: usize = 0;
    while k < weights.len()
        invariant
            k <= weights@.len(),
            weights@ == before,
            floor == config.min_weight,
            parts@.len() == k,
            forall|j: int| 0 <= j < k ==> #[trigger] parts@[j] == surplus(before[j], floor),
            clear == forall|j: int|
                0 <= j < k ==> !(#[trigger] before[j]).product(factor).below(floor),
        decreases weights@.len() - k,
    {
        if weights[k].times(factor).lt(floor) {
            clear = false;
        }
        parts.push(weights[k].max(floor).minus(floor));
        k = k + 1;
    }
    assert(parts@ =~= surpluses(before, floor));
    let pool = budget.minus(floors);
    let sum = sum_of(&parts);
    let part = if sum.le(pool) {
        Scalar::from_bits(ONE)
    } else {
        pool.over(sum)
    };
    let mut i: usize = 0;
    while i < weights.len()
        invariant
            i <= weights@.len(),
            weights@.len() == before.len(),
            floor == config.min_weight,
            forall|k: int|
                0 <= k < i ==> #[trigger] weights@[k] == (if none_left {
                    floor
                } else if clear {
                    scaled(before[k], factor, floor)
                } else {
                    rebased(before[k], part, floor)
                }),
            forall|k: int| i <= k < before.len() ==> #[trigger] weights@[k] == before[k],
        decreases weights@.len() - i,
    {
        let weight = weights[i];
        let moved = if none_left {
            floor
        } else if clear {
            weight.times(factor).max(floor)
        } else {
            let bound = weight.max(floor);
            floor.plus(bound.minus(floor).times(part)).min(bound)
        };
        weights.set(i, moved);
        i = i + 1;
    }
    assert(weights@ =~= normalized(before, *config));
}

/// Which policy selects among scored candidates.
#[derive(Clone, Copy, Debug, PartialEq, Eq, Structural)]
pub enum ExplorationPolicy {
    /// Softmax over scores with temperature.
    Softmax,
    /// The best, with one slot occasionally replaced by a uniform draw.
    EpsilonGreedy {
        /// Probability of substituting an exploratory pick.
        epsilon: Scalar,
    },
}

impl Default for ExplorationPolicy {
    fn default() -> (r: Self)
        ensures
            r == ExplorationPolicy::Softmax,
    {
        ExplorationPolicy::Softmax
    }
}

/// One selected candidate.
#[derive(Clone, Copy, Debug, PartialEq, Eq, Structural)]
pub struct Selection {
    /// Index into the scores.
    pub index: usize,
    /// The score it was selected on.
    pub score: Scalar,
    /// Whether this pick came from exploration rather than exploitation.
    pub explored: bool,
}

impl Placed for Selection {
    open spec fn before(self, other: Self) -> bool {
        self.score.sort_key() > other.score.sort_key()
    }

    proof fn lemma_places(a: Self, b: Self, c: Self) {
    }

    fn goes_before(&self, other: &Self) -> (r: bool) {
        self.score.key() > other.score.key()
    }
}

/// Index of the maximum of the first `n` scores: the first of those that are
/// equally large.
pub open spec fn best_of(scores: Seq<Scalar>, n: int) -> int
    decreases n,
{
    if n <= 1 {
        0
    } else {
        let best = best_of(scores, n - 1);
        if scores[n - 1].at_most(scores[best]) {
            best
        } else {
            n - 1
        }
    }
}

/// Index of the maximum score, or `None` when there is none.
pub fn argmax(scores: &Vec<Scalar>) -> (r: Option<usize>)
    ensures
        r is None <==> scores@.len() == 0,
        r matches Some(i) ==> i == best_of(scores@, scores@.len() as int) && i < scores@.len(),
{
    if scores.len() == 0 {
        return None;
    }
    let mut best: usize = 0;
    let mut n: usize = 1;
    while n < scores.len()
        invariant
            1 <= n <= scores@.len(),
            best < n,
            best == best_of(scores@, n as int),
        decreases scores@.len() - n,
    {
        if !scores[n].le(scores[best]) {
            best = n;
        }
        n = n + 1;
    }
    Some(best)
}

/// Whether `slot` is the first at which the sum of the weights up to it reaches
/// a target, or the last slot where none does.
pub open spec fn reaches(weights: Seq<Scalar>, target: Scalar, slot: int) -> bool {
    &&& 0 <= slot < weights.len()
    &&& forall|i: int|
        0 <= i < slot ==> !target.at_most(running_sum(#[trigger] weights.take(i + 1)))
    &&& target.at_most(running_sum(weights.take(slot + 1))) || slot == weights.len() - 1
}

/// Whether a slot is the one that a generator picks among weights: by the share
/// of the total that the next draw stands for, or by a uniform draw where the
/// weights have no total to speak of.
pub open spec fn picked<R: Rng>(weights: Seq<Scalar>, before: R, after: R, slot: int) -> bool {
    let total = running_sum(weights);
    if Scalar::from_bits(ZERO).below(total) && total.finite() {
        exists|u: Scalar| #[trigger]
            fraction_drawn(before, u, after) && reaches(weights, u.product(total), slot)
    } else {
        drawn_or_zero(before, weights.len() as u64, slot as u64, after)
    }
}

/// Pick a slot at random, each as often as its weight says. Where the weights
/// have no total to speak of, every slot is as likely as another.
pub fn pick_weighted<R: Rng>(weights: &Vec<Scalar>, rng: &mut R) -> (r: usize)
    requires
        weights@.len() > 0,
    ensures
        r < weights@.len(),
        picked(weights@, *old(rng), *final(rng), r as int),
{
    let total = sum_of(weights);
    if Scalar::from_bits(ZERO).lt(total) && total.is_finite() {
        let u = rng.next_f32();
        let target = u.times(total);
        let mut acc = Scalar::from_bits(ZERO);
        let mut slot: usize = 0;
        assert(weights@.take(0) =~= Seq::<Scalar>::empty());
        while slot < weights.len()
            invariant
                slot <= weights@.len(),
                weights@.len() > 0,
                acc == running_sum(weights@.take(slot as int)),
                forall|i: int|
                    0 <= i < slot ==> !target.at_most(running_sum(#[trigger] weights@.take(i + 1))),
                fraction_drawn(*old(rng), u, *rng),
                total == running_sum(weights@),
                target == u.product(total),
                Scalar::from_bits(ZERO).below(total) && total.finite(),
            decreases weights@.len() - slot,
        {
            assert(weights@.take(slot + 1).drop_last() =~= weights@.take(slot as int));
            acc = acc.plus(weights[slot]);
            if target.le(acc) {
                assert(reaches(weights@, target, slot as int));
                return slot;
            }
            slot = slot + 1;
        }
        assert(reaches(weights@, target, weights@.len() - 1));
        weights.len() - 1
    } else {
        match rng.next_below(weights.len() as u64) {
            Some(slot) => slot as usize,
            None => 0,
        }
    }
}

/// Whether selections are of distinct candidates, each with its own score.
pub open spec fn selects(scores: Seq<Scalar>, picks: Seq<Selection>) -> bool {
    &&& forall|i: int|
        0 <= i < picks.len() ==> (#[trigger] picks[i]).index < scores.len() && picks[i].score
            == scores[picks[i].index as int]
    &&& forall|i: int, j: int|
        0 <= i < j < picks.len() ==> (#[trigger] picks[i]).index != (#[trigger] picks[j]).index
}

/// The number of candidates taken.
pub open spec fn taken(k: usize, n: nat) -> nat {
    if k < n {
        k as nat
    } else {
        n
    }
}

/// The largest score among candidates.
pub open spec fn top_of(scores: Seq<Scalar>, left: Seq<usize>) -> Scalar
    decreases left.len(),
{
    if left.len() == 0 {
        Scalar::from_bits(NEGATIVE_INFINITY)
    } else {
        top_of(scores, left.drop_last()).larger(scores[left.last() as int])
    }
}

/// Whether weights are those of a softmax over candidates: the exponentials of
/// how far each score lies below the largest, in units of the temperature.
pub open spec fn softmax_weights<M: Curves>(
    curves: M,
    scores: Seq<Scalar>,
    left: Seq<usize>,
    temperature: Scalar,
    weights: Seq<Scalar>,
) -> bool {
    &&& weights.len() == left.len()
    &&& forall|i: int|
        0 <= i < weights.len() ==> exp_gives(
            curves,
            scores[left[i] as int].difference(top_of(scores, left)).quotient(temperature),
            #[trigger] weights[i],
        )
}

/// Candidates without the one in a slot, which the last one fills.
pub open spec fn vacated(left: Seq<usize>, slot: int) -> Seq<usize> {
    left.update(slot, left.last()).drop_last()
}

/// The selection of a candidate. One other than the best is exploration.
pub open spec fn selection_of(scores: Seq<Scalar>, index: usize) -> Selection {
    Selection {
        index,
        score: scores[index as int],
        explored: index != best_of(scores, scores.len() as int),
    }
}

/// Whether one round of softmax sampling picks a candidate out of those left.
pub open spec fn softmax_round<R: Rng, M: Curves>(
    curves: M,
    scores: Seq<Scalar>,
    temperature: Scalar,
    left: Seq<usize>,
    before: R,
    pick: Selection,
    left_after: Seq<usize>,
    after: R,
) -> bool {
    exists|weights: Seq<Scalar>, slot: int|
        {
            &&& #[trigger] softmax_weights(curves, scores, left, temperature, weights)
            &&& #[trigger] picked(weights, before, after, slot)
            &&& 0 <= slot < left.len()
            &&& pick == selection_of(scores, left[slot])
            &&& left_after == vacated(left, slot)
        }
}

/// Whether rounds of softmax sampling follow one another: what was left and the
/// generator's state, before each round and after the last.
pub open spec fn softmax_rounds<R: Rng, M: Curves>(
    curves: M,
    scores: Seq<Scalar>,
    temperature: Scalar,
    picks: Seq<Selection>,
    lefts: Seq<Seq<usize>>,
    states: Seq<R>,
) -> bool {
    &&& lefts.len() == picks.len() + 1
    &&& states.len() == picks.len() + 1
    &&& lefts[0] == Seq::new(scores.len(), |i: int| i as usize)
    &&& forall|i: int|
        0 <= i < picks.len() ==> softmax_round(
            curves,
            scores,
            temperature,
            lefts[i],
            states[i],
            #[trigger] picks[i],
            lefts[i + 1],
            states[i + 1],
        )
}

/// What a softmax selection is, before it is put in order.
pub open spec fn softmax_selection<R: Rng, M: Curves>(
    curves: M,
    scores: Seq<Scalar>,
    k: usize,
    temperature: Scalar,
    before: R,
    after: R,
    picks: Seq<Selection>,
) -> bool {
    &&& picks.len() == taken(k, scores.len())
    &&& exists|lefts: Seq<Seq<usize>>, states: Seq<R>| #[trigger]
        softmax_rounds(curves, scores, temperature, picks, lefts, states) && states[0] == before
            && states.last() == after
}

/// Softmax sampling without replacement. A pick other than the best candidate
/// is exploration.
fn softmax_sample<R: Rng, M: Curves>(
    scores: &Vec<Scalar>,
    k: usize,
    temperature: Scalar,
    rng: &mut R,
    curves: &M,
) -> (r: Vec<Selection>)
    ensures
        selects(scores@, r@),
        softmax_selection(*curves, scores@, k, temperature, *old(rng), *final(rng), r@),
{
    let want: usize = if k < scores.len() {
        k
    } else {
        scores.len()
    };
    let mut left: Vec<usize> = Vec::new();
    let mut n: usize = 0;
    while n < scores.len()
        invariant
            n <= scores@.len(),
            left@.len() == n,
            forall|i: int| 0 <= i < n ==> #[trigger] left@[i] == i,
        decreases scores@.len() - n,
    {
        left.push(n);
        n = n + 1;
    }
    let mut chosen: Vec<Selection> = Vec::new();
    let best = argmax(scores);
    let ghost mut lefts: Seq<Seq<usize>> = seq![left@];
    let ghost mut states: Seq<R> = seq![*rng];
    assert(left@ =~= Seq::new(scores@.len(), |i: int| i as usize));
    while chosen.len() < want
        invariant
            want == taken(k, scores@.len()),
                left@.len() + chosen@.len() == scores@.len(),
            chosen@.len() <= want,
            forall|i: int| 0 <= i < left@.len() ==> #[trigger] left@[i] < scores@.len(),
            forall|i: int, j: int|
                0 <= i < j < left@.len() ==> #[trigger] left@[i] != #[trigger] left@[j],
            forall|i: int, j: int|
                0 <= i < left@.len() && 0 <= j < chosen@.len() ==> #[trigger] left@[i] != (
                #[trigger] chosen@[j]).index,
            selects(scores@, chosen@),
            best is None <==> scores@.len() == 0,
            best matches Some(b) ==> b == best_of(scores@, scores@.len() as int),
            softmax_rounds(*curves, scores@, temperature, chosen@, lefts, states),
            states[0] == *old(rng),
            states.last() == *rng,
            lefts.last() == left@,
        decreases want - chosen@.len(),
    {
        let mut top = Scalar::from_bits(NEGATIVE_INFINITY);
        let mut i: usize = 0;
        assert(left@.take(0) =~= Seq::<usize>::empty());
        while i < left.len()
            invariant
                i <= left@.len(),
                top == top_of(scores@, left@.take(i as int)),
                forall|j: int| 0 <= j < left@.len() ==> #[trigger] left@[j] < scores@.len(),
            decreases left@.len() - i,
        {
            assert(left@.take(i + 1).drop_last() =~= left@.take(i as int));
            top = top.max(scores[left[i]]);
            i = i + 1;
        }
        assert(left@.take(left@.len() as int) =~= left@);
        let mut weights: Vec<Scalar> = Vec::new();
        let mut j: usize = 0;
        while j < left.len()
            invariant
                j <= left@.len(),
                weights@.len() == j,
                top == top_of(scores@, left@),
                forall|i: int| 0 <= i < left@.len() ==> #[trigger] left@[i] < scores@.len(),
                forall|i: int|
                    0 <= i < j ==> exp_gives(
                        *curves,
                        scores@[left@[i] as int].difference(top).quotient(temperature),
                        #[trigger] weights@[i],
                    ),
            decreases left@.len() - j,
        {
            let x = scores[left[j]].minus(top).over(temperature);
            weights.push(curves.exp(x));
            j = j + 1;
        }
        let ghost before_left = left@;
        let ghost before_chosen = chosen@;
        let ghost before_rng = *rng;
        let slot: usize = pick_weighted(&weights, rng);
        let index: usize = left.swap_remove(slot);
        let explored: bool = match best {
            Some(b) => b != index,
            None => true,
        };
        let pick = Selection { index, score: scores[index], explored };
        chosen.push(pick);
        proof {
            assert(before_left[slot as int] == index);
            assert(softmax_weights(*curves, scores@, before_left, temperature, weights@));
            assert(picked(weights@, before_rng, *rng, slot as int));
            assert(left@ =~= vacated(before_left, slot as int));
            assert(pick == selection_of(scores@, index));
            assert(softmax_round(
                *curves,
                scores@,
                temperature,
                before_left,
                before_rng,
                pick,
                left@,
                *rng,
            ));
            let before_lefts = lefts;
            let before_states = states;
            lefts = lefts.push(left@);
            states = states.push(*rng);
            assert forall|a: int| 0 <= a < chosen@.len() implies softmax_round(
                *curves,
                scores@,
                temperature,
                lefts[a],
                states[a],
                #[trigger] chosen@[a],
                lefts[a + 1],
                states[a + 1],
            ) by {
                if a < before_chosen.len() {
                    assert(chosen@[a] == before_chosen[a]);
                    assert(lefts[a] == before_lefts[a] && lefts[a + 1] == before_lefts[a + 1]);
                    assert(states[a] == before_states[a] && states[a + 1] == before_states[a + 1]);
                }
            }
            assert forall|a: int, b: int|
                0 <= a < left@.len() && 0 <= b < chosen@.len() implies #[trigger] left@[a] != (
            #[trigger] chosen@[b]).index by {
                let from = if a == slot {
                    before_left.len() - 1
                } else {
                    a
                };
                assert(left@[a] == before_left[from]);
                if b < before_chosen.len() {
                    assert(chosen@[b] == before_chosen[b]);
                    assert(before_left[from] != before_chosen[b].index);
                }
            }
            assert forall|a: int, b: int| 0 <= a < b < chosen@.len() implies (
            #[trigger] chosen@[a]).index != (#[trigger] chosen@[b]).index by {
                if b == before_chosen.len() {
                    assert(before_left[slot as int] != before_chosen[a].index);
                }
            }
        }
    }
    chosen
}

/// The candidates, in their order.
pub open spec fn candidates(scores: Seq<Scalar>) -> Seq<Selection> {
    Seq::new(
        scores.len(),
        |i: int| Selection { index: i as usize, score: scores[i], explored: false },
    )
}

/// What top-k selection gives for a ranking of the candidates: the first `k`,
/// the last of them replaced by the `substitute`-th after them if there is one.
pub open spec fn greedy(order: Seq<Selection>, k: int, substitute: Option<int>) -> Seq<Selection> {
    match substitute {
        None => order.take(k),
        Some(pick) => order.take(k).update(
            k - 1,
            Selection { explored: true, ..order[k + pick] },
        ),
    }
}

/// Whether top-k selection takes a substitute, and which.
pub open spec fn substitutes<R: Rng>(
    before: R,
    after: R,
    n: int,
    k: int,
    epsilon: Scalar,
    substitute: Option<int>,
) -> bool {
    exists|u: Scalar, middle: R|
        {
            &&& #[trigger] fraction_drawn(before, u, middle)
            &&& if u.below(epsilon) && n > k {
                match substitute {
                    Some(pick) => 0 <= pick < n - k && number_drawn(
                        middle,
                        (n - k) as u64,
                        Some(pick as u64),
                        after,
                    ),
                    None => number_drawn(middle, (n - k) as u64, None, after),
                }
            } else {
                substitute is None && after == middle
            }
        }
}

/// Top-k with an occasional uniform substitution.
fn epsilon_greedy_sample<R: Rng>(scores: &Vec<Scalar>, k: usize, epsilon: Scalar, rng: &mut R) -> (r:
    Vec<Selection>)
    requires
        0 < k,
        scores@.len() > 0,
    ensures
        r@.len() == taken(k, scores@.len()),
        selects(scores@, r@),
        exists|order: Seq<Selection>, substitute: Option<int>|
            sorts(candidates(scores@), order) && substitutes(
                *old(rng),
                *final(rng),
                scores@.len() as int,
                taken(k, scores@.len()) as int,
                epsilon,
                substitute,
            ) && r@ == #[trigger] greedy(order, taken(k, scores@.len()) as int, substitute),
{
    let want: usize = if k < scores.len() {
        k
    } else {
        scores.len()
    };
    let mut order: Vec<Selection> = Vec::new();
    let mut n: usize = 0;
    while n < scores.len()
        invariant
            n <= scores@.len(),
            order@.len() == n,
            forall|i: int| 0 <= i < n ==> #[trigger] order@[i] == candidates(scores@)[i],
        decreases scores@.len() - n,
    {
        order.push(Selection { index: n, score: scores[n], explored: false });
        n = n + 1;
    }
    assert(order@ =~= candidates(scores@));
    sort_stably(&mut order);
    let ghost all = order@;
    proof {
        let at = choose|at: Seq<int>| #[trigger] arranges(candidates(scores@), all, at);
        assert forall|i: int| 0 <= i < all.len() implies (#[trigger] all[i]).index < scores@.len()
            && all[i].score == scores@[all[i].index as int] && all[i].index == at[i] by {
            assert(all[i] == candidates(scores@)[at[i]]);
        }
        assert(selects(scores@, all)) by {
            assert forall|i: int, j: int| 0 <= i < j < all.len() implies (#[trigger] all[i]).index
                != (#[trigger] all[j]).index by {
                assert(at[i] != at[j]);
            }
        }
    }
    let ghost start = *rng;
    let u = rng.next_f32();
    let ghost middle = *rng;
    let pick: Option<u64> = if u.lt(epsilon) && order.len() > want {
        rng.next_below((order.len() - want) as u64)
    } else {
        None
    };
    if let Some(p) = pick {
        let pick: usize = p as usize;
        let swapped = order[want + pick];
        order.truncate(want);
        order.set(want - 1, Selection { index: swapped.index, score: swapped.score, explored: true });
        proof {
            let k_taken = taken(k, scores@.len()) as int;
            assert(k_taken == want);
            assert(sorts(candidates(scores@), all));
            assert(order@ =~= greedy(all, k_taken, Some(pick as int)));
            assert(fraction_drawn(start, u, middle));
            assert(substitutes(
                start,
                *rng,
                scores@.len() as int,
                want as int,
                epsilon,
                Some(pick as int),
            ));
        }
        order
    } else {
        order.truncate(want);
        proof {
            let k_taken = taken(k, scores@.len()) as int;
            assert(k_taken == want);
            assert(sorts(candidates(scores@), all));
            assert(order@ =~= greedy(all, k_taken, None));
            assert(fraction_drawn(start, u, middle));
            assert(substitutes(start, *rng, scores@.len() as int, want as int, epsilon, None));
        }
        order
    }
}

/// What a selection by top-k is, before it is put in order.
pub open spec fn greedy_selection<R: Rng>(
    scores: Seq<Scalar>,
    k: usize,
    epsilon: Scalar,
    before: R,
    after: R,
    picks: Seq<Selection>,
) -> bool {
    exists|order: Seq<Selection>, substitute: Option<int>|
        sorts(candidates(scores), order) && substitutes(
            before,
            after,
            scores.len() as int,
            taken(k, scores.len()) as int,
            epsilon,
            substitute,
        ) && picks == #[trigger] greedy(order, taken(k, scores.len()) as int, substitute)
}

/// Whether selections are a sample of up to `k` candidates under a policy, best
/// score first.
pub open spec fn sampled<R: Rng, M: Curves>(
    curves: M,
    scores: Seq<Scalar>,
    k: usize,
    policy: ExplorationPolicy,
    temperature: Scalar,
    before: R,
    after: R,
    selected: Seq<Selection>,
) -> bool {
    &&& selected.len() == taken(k, scores.len())
    &&& selects(scores, selected)
    &&& forall|i: int, j: int|
        0 <= i < j < selected.len() ==> (#[trigger] selected[i]).score.sort_key() >= (
        #[trigger] selected[j]).score.sort_key()
    &&& scores.len() == 0 || k == 0 ==> after == before
    &&& scores.len() > 0 && k > 0 ==> exists|picks: Seq<Selection>| #[trigger]
        sorts(picks, selected) && match policy {
            ExplorationPolicy::Softmax => softmax_selection(
                curves,
                scores,
                k,
                temperature,
                before,
                after,
                picks,
            ),
            ExplorationPolicy::EpsilonGreedy { epsilon } => greedy_selection(
                scores,
                k,
                epsilon,
                before,
                after,
                picks,
            ),
        }
}

/// Sorting keeps selections what they are.
proof fn lemma_sorted_selection(scores: Seq<Scalar>, from: Seq<Selection>, to: Seq<Selection>)
    requires
        selects(scores, from),
        sorts(from, to),
    ensures
        selects(scores, to),
        to.len() == from.len(),
{
    let at = choose|at: Seq<int>| #[trigger] arranges(from, to, at);
    assert forall|i: int| 0 <= i < to.len() implies (#[trigger] to[i]).index < scores.len()
        && to[i].score == scores[to[i].index as int] by {
        assert(to[i] == from[at[i]]);
    }
    assert forall|i: int, j: int| 0 <= i < j < to.len() implies (#[trigger] to[i]).index != (
    #[trigger] to[j]).index by {
        assert(to[i] == from[at[i]] && to[j] == from[at[j]]);
        assert(at[i] != at[j]);
    }
}

/// Sample up to `k` candidates without replacement, best score first among
/// those chosen.
///
/// Selection is stochastic: a synapse that is never selected is never rewarded,
/// so its weight only decays, so it is never selected.
pub fn sample_paths<R: Rng, M: Curves>(
    scores: &Vec<Scalar>,
    k: usize,
    policy: ExplorationPolicy,
    config: &LearningConfig,
    rng: &mut R,
    curves: &M,
) -> (r: Vec<Selection>)
    ensures
        sampled(
            *curves,
            scores@,
            k,
            policy,
            config.temperature(),
            *old(rng),
            *final(rng),
            r@,
        ),
{
    if scores.len() == 0 || k == 0 {
        return Vec::new();
    }
    let mut out: Vec<Selection> = match policy {
        ExplorationPolicy::Softmax => softmax_sample(
            scores,
            k,
            config.effective_temperature(),
            rng,
            curves,
        ),
        ExplorationPolicy::EpsilonGreedy { epsilon } => epsilon_greedy_sample(
            scores,
            k,
            epsilon,
            rng,
        ),
    };
    let ghost picks = out@;
    sort_stably(&mut out);
    proof {
        crate::order::lemma_sorted(picks, out@);
        lemma_sorted_selection(scores@, picks, out@);
    }
    out
}

/// Without exploration top-k selection is the best candidates in order, the
/// first of equally good ones first.
pub proof fn lemma_no_exploration_takes_the_best<R: Rng>(
    scores: Seq<Scalar>,
    k: usize,
    epsilon: Scalar,
    before: R,
    after: R,
    picks: Seq<Selection>,
)
    requires
        epsilon.at_most(Scalar::from_bits(ZERO)),
        greedy_selection(scores, k, epsilon, before, after, picks),
    ensures
        exists|order: Seq<Selection>| #[trigger]
            sorts(candidates(scores), order) && picks == order.take(
                taken(k, scores.len()) as int,
            ),
{
    let (order, substitute) = choose|order: Seq<Selection>, substitute: Option<int>|
        sorts(candidates(scores), order) && substitutes(
            before,
            after,
            scores.len() as int,
            taken(k, scores.len()) as int,
            epsilon,
            substitute,
        ) && picks == #[trigger] greedy(order, taken(k, scores.len()) as int, substitute);
    assert(substitute is None);
}

} // verus!
