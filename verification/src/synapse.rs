//! Synapses and their lifecycle.
//!
//! A synapse is a persistent, weighted connection between two nodes. It
//! strengthens when it delivers and weakens when it does not.

use vstd::prelude::*;

use crate::curves::Curves;
use crate::decay::decays;
use crate::learning::{
    affinity_after, apply_affinity_update, apply_reward, apply_signature_penalty,
    decayed_weight, penalised, rewarded, LearningConfig, WeightUpdate,
};
use crate::order::same_text;
use crate::rng::{absorbed, Rng, SplitMix64};
use crate::scalar::{Scalar, ONE, ZERO};
use crate::signal::{base32_text, randomness_of, ulid_of, NodeId, SignalId};
use crate::store::{
    bumped, count_of, count_total, Affinity, AffinityModel, Outcome, SynapseRecord, SynapseRow,
};
use crate::time::{host_tells, saturated, Clock, SystemClock};

verus! {

/// Unique identifier of a synapse.
#[derive(Debug, PartialEq, Eq, Hash)]
pub struct SynapseId(pub String);

impl View for SynapseId {
    type V = Seq<char>;

    open spec fn view(&self) -> Seq<char> {
        self.0@
    }
}

impl Clone for SynapseId {
    fn clone(&self) -> (r: Self)
        ensures
            r@ == self@,
    {
        SynapseId(self.0.clone())
    }
}

impl SynapseId {
    /// Whether two identifiers are the same.
    pub fn same(&self, other: &SynapseId) -> (r: bool)
        ensures
            r == (self@ == other@),
    {
        same_text(self.0.as_str(), other.0.as_str())
    }

    /// The identifier for people: its first eight characters.
    pub fn to_string(&self) -> (r: String)
        ensures
            r@ == "syn:"@ + self@.take(if 8 < self@.len() {
                8
            } else {
                self@.len() as int
            }),
    {
        let text = self.0.as_str();
        let len: usize = text.unicode_len();
        let end: usize = if 8 < len {
            8
        } else {
            len
        };
        let mut out: String = String::from_str("syn:");
        out.append(text.substring_char(0, end));
        out
    }
}

/// What a signature failure did to a synapse.
#[derive(Clone, Copy, Debug, PartialEq, Eq, Structural)]
pub struct SignatureFailureOutcome {
    /// Failures counted in the current window, including this one.
    pub failures_in_window: u32,
    /// Whether this failure crossed the threshold and pruned the synapse.
    pub pruned: bool,
}

/// The lifecycle state of a synapse.
#[derive(Clone, Copy, Debug, PartialEq, Eq, Structural, Hash)]
pub enum SynapseState {
    /// Handshake in progress.
    Forming,
    /// Actively transmitting signals.
    Active,
    /// Weight below the active threshold, still connected.
    Weakening,
    /// Weight below the dormancy threshold, connection idle.
    Dormant,
    /// Connection terminated, state archived.
    Pruned,
}

impl SynapseState {
    /// Whether a synapse in this state may be chosen to carry a signal.
    pub open spec fn carries(self) -> bool {
        self is Active || self is Weakening
    }

    /// Whether a synapse in this state may be chosen to carry a signal.
    ///
    /// A weakening synapse may: it recovers weight only by carrying traffic
    /// that succeeds, so excluding it would be a one-way trap.
    pub fn can_carry(self) -> (r: bool)
        ensures
            r == self.carries(),
    {
        match self {
            SynapseState::Active | SynapseState::Weakening => true,
            _ => false,
        }
    }

    /// Whether this state is terminal.
    pub fn is_terminal(self) -> (r: bool)
        ensures
            r == (self is Pruned),
    {
        match self {
            SynapseState::Pruned => true,
            _ => false,
        }
    }

    /// The state that a weight gives. A pruned synapse stays pruned, and a
    /// forming one forming: a weight is no evidence that the handshake is
    /// complete.
    pub open spec fn at_weight(
        self,
        weight: Scalar,
        active_threshold: Scalar,
        dormancy_threshold: Scalar,
    ) -> SynapseState {
        if self is Pruned || self is Forming {
            self
        } else if active_threshold.at_most(weight) {
            SynapseState::Active
        } else if dormancy_threshold.at_most(weight) {
            SynapseState::Weakening
        } else {
            SynapseState::Dormant
        }
    }
}

/// A weight update does not complete a handshake, nor does it bring back a
/// pruned synapse.
pub proof fn lemma_weight_does_not_complete_a_handshake(
    state: SynapseState,
    weight: Scalar,
    active_threshold: Scalar,
    dormancy_threshold: Scalar,
)
    requires
        state is Forming || state is Pruned,
    ensures
        state.at_weight(weight, active_threshold, dormancy_threshold) == state,
        !state.at_weight(weight, active_threshold, dormancy_threshold).carries(),
{
}

/// An active synapse whose weight stays at or above the dormancy threshold can
/// still carry traffic, so one bad outcome does not exclude it.
pub proof fn lemma_weakening_is_not_exclusion(
    state: SynapseState,
    weight: Scalar,
    active_threshold: Scalar,
    dormancy_threshold: Scalar,
)
    requires
        !(state is Forming) && !(state is Pruned),
        dormancy_threshold.at_most(weight),
    ensures
        state.at_weight(weight, active_threshold, dormancy_threshold).carries(),
{
}

/// The underlying transport of a synapse.
#[derive(Debug, PartialEq, Eq)]
pub enum Transport {
    /// QUIC: multiplexed, encrypted. The default.
    Quic,
    /// TCP: fallback, widely supported.
    Tcp,
    /// Unix domain socket: nodes on one machine.
    Unix,
    /// Bluetooth Low Energy: proximity mesh.
    BluetoothLe,
    /// Application-defined transport.
    Custom(String),
}

/// A transport as a value.
pub enum TransportModel {
    /// QUIC.
    Quic,
    /// TCP.
    Tcp,
    /// Unix domain socket.
    Unix,
    /// Bluetooth Low Energy.
    BluetoothLe,
    /// Application-defined transport.
    Custom(Seq<char>),
}

impl View for Transport {
    type V = TransportModel;

    open spec fn view(&self) -> TransportModel {
        match self {
            Transport::Quic => TransportModel::Quic,
            Transport::Tcp => TransportModel::Tcp,
            Transport::Unix => TransportModel::Unix,
            Transport::BluetoothLe => TransportModel::BluetoothLe,
            Transport::Custom(name) => TransportModel::Custom(name@),
        }
    }
}

impl Clone for Transport {
    fn clone(&self) -> (r: Self)
        ensures
            r@ == self@,
    {
        match self {
            Transport::Quic => Transport::Quic,
            Transport::Tcp => Transport::Tcp,
            Transport::Unix => Transport::Unix,
            Transport::BluetoothLe => Transport::BluetoothLe,
            Transport::Custom(name) => Transport::Custom(name.clone()),
        }
    }
}

impl Default for Transport {
    fn default() -> (r: Self)
        ensures
            r == Transport::Quic,
    {
        Transport::Quic
    }
}

/// Configuration of synapse behaviour.
#[derive(Debug)]
pub struct SynapseConfig {
    /// Initial weight of new synapses.
    pub initial_weight: Scalar,
    /// Maximum weight that a synapse can reach.
    pub max_weight: Scalar,
    /// Weight decay rate per hour.
    pub decay_rate: Scalar,
    /// Weight at or above which a synapse is active.
    pub active_threshold: Scalar,
    /// Weight below which a synapse becomes dormant.
    pub dormancy_threshold: Scalar,
    /// Hours in the dormant state before pruning.
    pub prune_after_hours: u64,
    /// Maximum number of synapses per node.
    pub max_synapses: u32,
    /// Preferred transport.
    pub preferred_transport: Transport,
    /// Fallback transport.
    pub fallback_transport: Transport,
    /// Default attenuation factor.
    pub attenuation_factor: Scalar,
}

/// A synapse configuration as a value.
pub struct SynapseSetup {
    /// Initial weight of new synapses.
    pub initial_weight: Scalar,
    /// Maximum weight that a synapse can reach.
    pub max_weight: Scalar,
    /// Weight decay rate per hour.
    pub decay_rate: Scalar,
    /// Weight at or above which a synapse is active.
    pub active_threshold: Scalar,
    /// Weight below which a synapse becomes dormant.
    pub dormancy_threshold: Scalar,
    /// Hours in the dormant state before pruning.
    pub prune_after_hours: u64,
    /// Maximum number of synapses per node.
    pub max_synapses: u32,
    /// Preferred transport.
    pub preferred_transport: TransportModel,
    /// Fallback transport.
    pub fallback_transport: TransportModel,
    /// Default attenuation factor.
    pub attenuation_factor: Scalar,
}

impl View for SynapseConfig {
    type V = SynapseSetup;

    open spec fn view(&self) -> SynapseSetup {
        SynapseSetup {
            initial_weight: self.initial_weight,
            max_weight: self.max_weight,
            decay_rate: self.decay_rate,
            active_threshold: self.active_threshold,
            dormancy_threshold: self.dormancy_threshold,
            prune_after_hours: self.prune_after_hours,
            max_synapses: self.max_synapses,
            preferred_transport: self.preferred_transport@,
            fallback_transport: self.fallback_transport@,
            attenuation_factor: self.attenuation_factor,
        }
    }
}

impl Clone for SynapseConfig {
    fn clone(&self) -> (r: Self)
        ensures
            r@ == self@,
    {
        SynapseConfig {
            initial_weight: self.initial_weight,
            max_weight: self.max_weight,
            decay_rate: self.decay_rate,
            active_threshold: self.active_threshold,
            dormancy_threshold: self.dormancy_threshold,
            prune_after_hours: self.prune_after_hours,
            max_synapses: self.max_synapses,
            preferred_transport: self.preferred_transport.clone(),
            fallback_transport: self.fallback_transport.clone(),
            attenuation_factor: self.attenuation_factor,
        }
    }
}

impl SynapseSetup {
    /// The defaults: weights and thresholds of a tenth, a hundredth and nine
    /// tenths, by bit pattern.
    pub open spec fn defaults() -> SynapseSetup {
        SynapseSetup {
            initial_weight: Scalar::from_bits(0x3DCC_CCCD),
            max_weight: Scalar::from_bits(ONE),
            decay_rate: Scalar::from_bits(0x3C23_D70A),
            active_threshold: Scalar::from_bits(0x3DCC_CCCD),
            dormancy_threshold: Scalar::from_bits(0x3C23_D70A),
            prune_after_hours: 168,
            max_synapses: 1_000,
            preferred_transport: TransportModel::Quic,
            fallback_transport: TransportModel::Tcp,
            attenuation_factor: Scalar::from_bits(0x3F66_6666),
        }
    }
}

impl Default for SynapseConfig {
    fn default() -> (r: Self)
        ensures
            r@ == SynapseSetup::defaults(),
    {
        SynapseConfig {
            initial_weight: Scalar::from_bits(0x3DCC_CCCD),
            max_weight: Scalar::from_bits(ONE),
            decay_rate: Scalar::from_bits(0x3C23_D70A),
            active_threshold: Scalar::from_bits(0x3DCC_CCCD),
            dormancy_threshold: Scalar::from_bits(0x3C23_D70A),
            prune_after_hours: 168,
            max_synapses: 1_000,
            preferred_transport: Transport::Quic,
            fallback_transport: Transport::Tcp,
            attenuation_factor: Scalar::from_bits(0x3F66_6666),
        }
    }
}

/// A synapse: a persistent, weighted connection between nodes.
#[derive(Debug)]
pub struct Synapse {
    /// Unique synapse identifier.
    pub id: SynapseId,
    /// Local node in this synapse.
    pub local_node: NodeId,
    /// Remote node in this synapse.
    pub remote_node: NodeId,
    /// Current weight.
    pub weight: Scalar,
    /// Current lifecycle state.
    pub state: SynapseState,
    /// Underlying transport.
    pub transport: Transport,
    /// When the synapse was established, in nanoseconds since the epoch.
    pub established_at_ns: u64,
    /// When a signal last crossed it.
    pub last_active_ns: u64,
    /// Total signals transmitted.
    pub signals_transmitted: u64,
    /// Total signals received.
    pub signals_received: u64,
    /// Average round-trip latency in nanoseconds.
    pub avg_latency_ns: u64,
    /// Ratio of failed transmissions.
    pub error_rate: Scalar,
    /// Maximum weight that this synapse can reach.
    pub max_weight: Scalar,
    /// Weight decay rate per interval.
    pub decay_rate: Scalar,
    /// Weight at or above which this synapse is active.
    pub active_threshold: Scalar,
    /// Weight below which this synapse becomes dormant.
    pub dormancy_threshold: Scalar,
    /// Weight attenuation of signals passing through.
    pub attenuation_factor: Scalar,
    /// Signature failures counted in the current window.
    pub signature_failures: u32,
    /// When the current signature-failure window began.
    pub failure_window_start_ns: u64,
    /// Success counts by signal type name.
    pub type_affinity: Affinity,
}

/// How often one of the carried signals was of a type.
pub open spec fn affinity_share(m: AffinityModel, name: Seq<char>) -> Scalar {
    if count_total(m) == 0 {
        Scalar::from_bits(ZERO)
    } else {
        Scalar::natural(count_of(m, name) as int).quotient(Scalar::natural(count_total(m) as int))
    }
}

impl SynapseRow {
    /// The row with another weight, and the state that the weight gives.
    pub open spec fn weighing(self, weight: Scalar, active: Scalar, dormancy: Scalar) -> SynapseRow {
        SynapseRow { weight, state: self.state.at_weight(weight, active, dormancy), ..self }
    }

    /// The row after a signal was transmitted.
    pub open spec fn transmitted(
        self,
        latency_ns: u64,
        signal_type: Seq<char>,
        now_ns: u64,
    ) -> SynapseRow {
        SynapseRow {
            signals_transmitted: saturated(self.signals_transmitted + 1),
            last_active_ns: now_ns,
            avg_latency_ns: if self.avg_latency_ns == 0 {
                latency_ns
            } else {
                ((self.avg_latency_ns * 9 + latency_ns) / 10) as u64
            },
            type_affinity: bumped(self.type_affinity, signal_type),
            error_rate: self.error_rate.product(Scalar::from_bits(0x3F7D_70A4)),
            ..self
        }
    }

    /// The row after an outcome has been learned from.
    pub open spec fn learned(
        self,
        outcome: Outcome,
        signal_weight: Scalar,
        signal_type: Seq<char>,
        used: Scalar,
        learning: LearningConfig,
        max_weight: Scalar,
        active: Scalar,
        dormancy: Scalar,
    ) -> SynapseRow {
        let update = rewarded(self.weight, outcome, signal_weight, used, learning);
        let share = affinity_share(self.type_affinity, signal_type);
        SynapseRow {
            type_affinity: if share.below(affinity_after(share, outcome, learning)) {
                bumped(self.type_affinity, signal_type)
            } else {
                self.type_affinity
            },
            ..self.weighing(update.after.smaller(max_weight), active, dormancy)
        }
    }

    /// The row after a signature failure: the weight is penalised where weights
    /// are updated at all, the failure counted in its window, and at the
    /// threshold the synapse is pruned.
    pub open spec fn distrusted(
        self,
        now_ns: u64,
        learning: LearningConfig,
        active: Scalar,
        dormancy: Scalar,
    ) -> SynapseRow {
        let fresh = self.failure_window_start_ns < LearningConfig::window_start(
            now_ns,
            learning.influence_window_secs,
        );
        let failures: u32 = if fresh {
            1
        } else if self.signature_failures == u32::MAX {
            u32::MAX
        } else {
            (self.signature_failures + 1) as u32
        };
        let counted = SynapseRow {
            weight: if learning.enabled {
                penalised(self.weight, learning)
            } else {
                self.weight
            },
            failure_window_start_ns: if fresh {
                now_ns
            } else {
                self.failure_window_start_ns
            },
            signature_failures: failures,
            ..self
        };
        if failures >= learning.signature_failure_prune_threshold {
            SynapseRow { state: SynapseState::Pruned, last_active_ns: now_ns, ..counted }
        } else {
            counted.weighing(counted.weight, active, dormancy)
        }
    }

    /// The record of a new synapse in the forming state.
    pub open spec fn formed(
        id: Seq<char>,
        peer: Seq<u8>,
        setup: SynapseSetup,
        now_ns: u64,
    ) -> SynapseRow {
        SynapseRow {
            id,
            peer,
            weight: setup.initial_weight,
            attenuation_factor: setup.attenuation_factor,
            state: SynapseState::Forming,
            type_affinity: AffinityModel::empty(),
            established_at_ns: now_ns,
            last_active_ns: now_ns,
            signals_transmitted: 0,
            signals_received: 0,
            avg_latency_ns: 0,
            error_rate: Scalar::from_bits(ZERO),
            signature_failures: 0,
            failure_window_start_ns: 0,
        }
    }
}

/// The identifier that a new synapse gets from two draws.
pub open spec fn fresh_synapse_id(now_ns: u64, first: u64, second: u64) -> Seq<char> {
    base32_text(ulid_of((now_ns / 1_000_000) as u64, randomness_of(first, second)) as u128)
}

impl Synapse {
    /// The persistent projection.
    pub open spec fn row(&self) -> SynapseRow {
        SynapseRow {
            id: self.id@,
            peer: self.remote_node@,
            weight: self.weight,
            attenuation_factor: self.attenuation_factor,
            state: self.state,
            type_affinity: self.type_affinity@,
            established_at_ns: self.established_at_ns,
            last_active_ns: self.last_active_ns,
            signals_transmitted: self.signals_transmitted,
            signals_received: self.signals_received,
            avg_latency_ns: self.avg_latency_ns,
            error_rate: self.error_rate,
            signature_failures: self.signature_failures,
            failure_window_start_ns: self.failure_window_start_ns,
        }
    }

    /// What is not part of the record: the local node, the transport and the
    /// bounds.
    pub open spec fn fixed(&self) -> (Seq<u8>, TransportModel, Scalar, Scalar, Scalar, Scalar) {
        (
            self.local_node@,
            self.transport@,
            self.max_weight,
            self.decay_rate,
            self.active_threshold,
            self.dormancy_threshold,
        )
    }

    /// What a configuration gives a synapse of a node.
    pub open spec fn fixed_by(local: Seq<u8>, setup: SynapseSetup) -> (
        Seq<u8>,
        TransportModel,
        Scalar,
        Scalar,
        Scalar,
        Scalar,
    ) {
        (
            local,
            setup.preferred_transport,
            setup.max_weight,
            setup.decay_rate,
            setup.active_threshold,
            setup.dormancy_threshold,
        )
    }

    /// Create a new synapse in the forming state.
    pub fn new_with<R: Rng>(
        local: NodeId,
        remote: NodeId,
        config: &SynapseConfig,
        now_ns: u64,
        rng: &mut R,
    ) -> (r: Synapse)
        ensures
            r.row() == SynapseRow::formed(
                fresh_synapse_id(now_ns, old(rng).draw(0), old(rng).draw(1)),
                remote@,
                config@,
                now_ns,
            ),
            r.fixed() == Synapse::fixed_by(local@, config@),
            forall|k: nat| #[trigger] final(rng).draw(k) == old(rng).draw(k + 2),
    {
        let id = SignalId::generate_at(now_ns, rng);
        Synapse {
            id: SynapseId(id.to_string()),
            local_node: local,
            remote_node: remote,
            weight: config.initial_weight,
            state: SynapseState::Forming,
            transport: config.preferred_transport.clone(),
            established_at_ns: now_ns,
            last_active_ns: now_ns,
            signals_transmitted: 0,
            signals_received: 0,
            avg_latency_ns: 0,
            error_rate: Scalar::from_bits(ZERO),
            max_weight: config.max_weight,
            decay_rate: config.decay_rate,
            active_threshold: config.active_threshold,
            dormancy_threshold: config.dormancy_threshold,
            attenuation_factor: config.attenuation_factor,
            signature_failures: 0,
            failure_window_start_ns: 0,
            type_affinity: Affinity::new(),
        }
    }

    /// Create a new synapse using the host clock and an identity-seeded
    /// generator.
    pub fn new(local: NodeId, remote: NodeId, config: &SynapseConfig) -> (r: Synapse)
        ensures
            exists|seeded: SplitMix64, now_ns: u64|
                host_tells(now_ns) && seeded@ == #[trigger] absorbed(now_ns, remote@) && r.row() == SynapseRow::formed(
                    #[trigger] fresh_synapse_id(now_ns, seeded.draw(0), seeded.draw(1)),
                    remote@,
                    config@,
                    now_ns,
                ),
            r.fixed() == Synapse::fixed_by(local@, config@),
    {
        let now: u64 = SystemClock.now_ns();
        let mut rng = SplitMix64::from_identity(remote.0.as_slice(), now);
        let ghost seeded = rng;
        assert(seeded@ == absorbed(now, remote@));
        Synapse::new_with(local, remote, config, now, &mut rng)
    }

    /// Update the state from the weight and the thresholds.
    pub fn update_state(&mut self)
        ensures
            final(self).row() == old(self).row().weighing(
                old(self).weight,
                old(self).active_threshold,
                old(self).dormancy_threshold,
            ),
            final(self).fixed() == old(self).fixed(),
    {
        match self.state {
            SynapseState::Pruned | SynapseState::Forming => {},
            _ => {
                if self.active_threshold.le(self.weight) {
                    self.state = SynapseState::Active;
                } else if self.dormancy_threshold.le(self.weight) {
                    self.state = SynapseState::Weakening;
                } else {
                    self.state = SynapseState::Dormant;
                }
            },
        }
    }

    /// Strengthen the synapse after a successful transmission.
    pub fn strengthen(&mut self, signal_weight: Scalar, strengthen_factor: Scalar)
        ensures
            final(self).row() == old(self).row().weighing(
                old(self).weight.sum(signal_weight.product(strengthen_factor)).smaller(
                    old(self).max_weight,
                ),
                old(self).active_threshold,
                old(self).dormancy_threshold,
            ),
            final(self).fixed() == old(self).fixed(),
            old(self).weight.finite() && !old(self).weight.negative() && signal_weight.finite()
                && !signal_weight.negative() && strengthen_factor.finite()
                && !strengthen_factor.negative() && old(self).weight.at_most(old(self).max_weight)
                ==> final(self).weight.between(old(self).weight, old(self).max_weight),
    {
        proof {
            if self.weight.finite() && !self.weight.negative() && signal_weight.finite()
                && !signal_weight.negative() && strengthen_factor.finite()
                && !strengthen_factor.negative() {
                let zero = Scalar::from_bits(ZERO);
                crate::laws::orders::lemma_products_keep_order(
                    signal_weight,
                    signal_weight,
                    strengthen_factor,
                    strengthen_factor,
                );
                crate::laws::orders::lemma_larger_sums(
                    self.weight,
                    self.weight,
                    zero,
                    signal_weight.product(strengthen_factor),
                );
                crate::learning::lemma_adding_zero(self.weight);
            }
        }
        let delta = signal_weight.times(strengthen_factor);
        self.weight = self.weight.plus(delta).min(self.max_weight);
        self.update_state();
    }

    /// Weaken the synapse after a failed transmission.
    pub fn weaken_failure(&mut self)
        ensures
            final(self).row() == (SynapseRow {
                error_rate: old(self).error_rate.product(Scalar::from_bits(0x3F66_6666)).sum(
                    Scalar::from_bits(0x3DCC_CCCD),
                ),
                ..old(self).row().weighing(
                    old(self).weight.product(Scalar::from_bits(0x3F66_6666)),
                    old(self).active_threshold,
                    old(self).dormancy_threshold,
                )
            }),
            final(self).fixed() == old(self).fixed(),
            old(self).weight.finite() && !old(self).weight.negative()
                ==> final(self).weight.at_most(old(self).weight),
    {
        proof {
            if self.weight.finite() {
                crate::arith::lemma_shrinking(self.weight, Scalar::from_bits(0x3F66_6666));
            }
        }
        let keep = Scalar::from_bits(0x3F66_6666);
        self.weight = self.weight.times(keep);
        self.error_rate = self.error_rate.times(keep).plus(Scalar::from_bits(0x3DCC_CCCD));
        self.update_state();
    }

    /// Apply weight decay for one interval.
    pub fn decay(&mut self)
        ensures
            final(self).row() == old(self).row().weighing(
                old(self).weight.product(
                    Scalar::from_bits(ONE).difference(old(self).decay_rate),
                ),
                old(self).active_threshold,
                old(self).dormancy_threshold,
            ),
            final(self).fixed() == old(self).fixed(),
            old(self).weight.finite() && !old(self).weight.negative() && !old(
                self,
            ).decay_rate.negative() && old(self).decay_rate.at_most(Scalar::from_bits(ONE))
                ==> final(self).weight.at_most(old(self).weight),
    {
        proof {
            let one = Scalar::from_bits(ONE);
            if self.weight.finite() && !self.weight.negative() && !self.decay_rate.negative()
                && self.decay_rate.at_most(one) {
                crate::arith::lemma_difference(one, self.decay_rate);
                crate::arith::lemma_shrinking(self.weight, one.difference(self.decay_rate));
            }
        }
        self.weight = self.weight.times(Scalar::from_bits(ONE).minus(self.decay_rate));
        self.update_state();
    }

    /// Record a successful transmission.
    pub fn record_transmission(&mut self, latency_ns: u64, signal_type: &str, now_ns: u64)
        ensures
            final(self).row() == old(self).row().transmitted(latency_ns, signal_type@, now_ns),
            final(self).fixed() == old(self).fixed(),
    {
        self.signals_transmitted = self.signals_transmitted.saturating_add(1);
        self.last_active_ns = now_ns;
        if self.avg_latency_ns == 0 {
            self.avg_latency_ns = latency_ns;
        } else {
            self.avg_latency_ns = ((self.avg_latency_ns as u128 * 9 + latency_ns as u128) / 10) as u64;
        }
        self.type_affinity.bump(signal_type);
        self.error_rate = self.error_rate.times(Scalar::from_bits(0x3F7D_70A4));
    }

    /// Record a received signal.
    pub fn record_reception(&mut self, now_ns: u64)
        ensures
            final(self).row() == (SynapseRow {
                signals_received: saturated(old(self).signals_received + 1),
                last_active_ns: now_ns,
                ..old(self).row()
            }),
            final(self).fixed() == old(self).fixed(),
    {
        self.signals_received = self.signals_received.saturating_add(1);
        self.last_active_ns = now_ns;
    }

    /// Get the affinity score for a signal type.
    pub fn affinity_for(&self, signal_type: &str) -> (r: Scalar)
        ensures
            r == affinity_share(self.type_affinity@, signal_type@),
    {
        let total: u64 = self.type_affinity.total();
        if total == 0 {
            return Scalar::from_bits(ZERO);
        }
        Scalar::from_u64(self.type_affinity.get(signal_type)).over(Scalar::from_u64(total))
    }

    /// Mark the handshake complete. This is the only way out of forming: the
    /// caller must have verified the peer's identity.
    pub fn activate(&mut self)
        ensures
            final(self).row() == (if old(self).state is Forming {
                SynapseRow { state: SynapseState::Active, ..old(self).row() }
            } else {
                old(self).row()
            }),
            final(self).fixed() == old(self).fixed(),
    {
        if self.state == SynapseState::Forming {
            self.state = SynapseState::Active;
        }
    }

    /// Activate a dormant synapse.
    pub fn reactivate(&mut self, config: &SynapseConfig)
        ensures
            final(self).row() == (if old(self).state is Dormant {
                SynapseRow {
                    weight: config.initial_weight,
                    state: SynapseState::Active,
                    ..old(self).row()
                }
            } else {
                old(self).row()
            }),
            final(self).fixed() == old(self).fixed(),
    {
        if self.state == SynapseState::Dormant {
            self.weight = config.initial_weight;
            self.state = SynapseState::Active;
        }
    }

    /// Project to the persistent record.
    pub fn to_record(&self) -> (r: SynapseRecord)
        ensures
            r@ == self.row(),
    {
        SynapseRecord {
            id: self.id.clone(),
            peer: self.remote_node.clone(),
            weight: self.weight,
            attenuation_factor: self.attenuation_factor,
            state: self.state,
            type_affinity: self.type_affinity.clone(),
            established_at_ns: self.established_at_ns,
            last_active_ns: self.last_active_ns,
            signals_transmitted: self.signals_transmitted,
            signals_received: self.signals_received,
            avg_latency_ns: self.avg_latency_ns,
            error_rate: self.error_rate,
            signature_failures: self.signature_failures,
            failure_window_start_ns: self.failure_window_start_ns,
        }
    }

    /// Rehydrate from a persistent record.
    ///
    /// The record carries the learned state; transport and bounds come from
    /// the configuration.
    pub fn from_record(record: &SynapseRecord, local: NodeId, config: &SynapseConfig) -> (r: Synapse)
        ensures
            r.row() == record@,
            r.fixed() == Synapse::fixed_by(local@, config@),
    {
        Synapse {
            id: record.id.clone(),
            local_node: local,
            remote_node: record.peer.clone(),
            weight: record.weight,
            state: record.state,
            transport: config.preferred_transport.clone(),
            established_at_ns: record.established_at_ns,
            last_active_ns: record.last_active_ns,
            signals_transmitted: record.signals_transmitted,
            signals_received: record.signals_received,
            avg_latency_ns: record.avg_latency_ns,
            error_rate: record.error_rate,
            max_weight: config.max_weight,
            decay_rate: config.decay_rate,
            active_threshold: config.active_threshold,
            dormancy_threshold: config.dormancy_threshold,
            attenuation_factor: record.attenuation_factor,
            signature_failures: record.signature_failures,
            failure_window_start_ns: record.failure_window_start_ns,
            type_affinity: record.type_affinity.clone(),
        }
    }

    /// Apply a learning update from a resolved routing outcome, and return it.
    pub fn apply_outcome(
        &mut self,
        outcome: Outcome,
        signal_weight: Scalar,
        signal_type: &str,
        peer_influence_used: Scalar,
        learning: &LearningConfig,
    ) -> (r: WeightUpdate)
        ensures
            r == rewarded(
                old(self).weight,
                outcome,
                signal_weight,
                peer_influence_used,
                *learning,
            ),
            final(self).row() == old(self).row().learned(
                outcome,
                signal_weight,
                signal_type@,
                peer_influence_used,
                *learning,
                old(self).max_weight,
                old(self).active_threshold,
                old(self).dormancy_threshold,
            ),
            final(self).fixed() == old(self).fixed(),
    {
        let update = apply_reward(
            self.weight,
            outcome,
            signal_weight,
            peer_influence_used,
            learning,
        );
        self.weight = update.after.min(self.max_weight);
        let affinity = self.affinity_for(signal_type);
        let updated = apply_affinity_update(affinity, outcome, learning);
        if affinity.lt(updated) {
            self.type_affinity.bump(signal_type);
        }
        self.update_state();
        update
    }

    /// Apply the signature-failure penalty, and prune the synapse when the
    /// failures within one window reach the threshold.
    pub fn apply_signature_failure(&mut self, now_ns: u64, learning: &LearningConfig) -> (r:
        SignatureFailureOutcome)
        ensures
            final(self).row() == old(self).row().distrusted(
                now_ns,
                *learning,
                old(self).active_threshold,
                old(self).dormancy_threshold,
            ),
            final(self).fixed() == old(self).fixed(),
            r.failures_in_window == final(self).signature_failures,
            r.pruned == (final(self).signature_failures
                >= learning.signature_failure_prune_threshold),
    {
        if learning.enabled {
            self.weight = apply_signature_penalty(self.weight, learning);
        }
        let window_start: u64 = learning.influence_window_start(now_ns);
        if self.failure_window_start_ns < window_start {
            self.failure_window_start_ns = now_ns;
            self.signature_failures = 1;
        } else {
            self.signature_failures = self.signature_failures.saturating_add(1);
        }
        if self.signature_failures >= learning.signature_failure_prune_threshold {
            // The instant gives the cooldown its start.
            self.state = SynapseState::Pruned;
            self.last_active_ns = now_ns;
            return SignatureFailureOutcome {
                failures_in_window: self.signature_failures,
                pruned: true,
            };
        }
        self.update_state();
        SignatureFailureOutcome { failures_in_window: self.signature_failures, pruned: false }
    }

    /// Weight after time-based decay, without changing the synapse.
    pub fn decayed_weight<M: Curves>(&self, now_ns: u64, learning: &LearningConfig, curves: &M) -> (r:
        Scalar)
        ensures
            decays(*curves, *learning, self.weight, self.last_active_ns, now_ns, r),
    {
        decayed_weight(self.weight, self.last_active_ns, now_ns, learning, curves)
    }

    /// Apply time-based decay by half-life.
    pub fn apply_decay<M: Curves>(&mut self, now_ns: u64, learning: &LearningConfig, curves: &M)
        ensures
            final(self).row() == old(self).row().weighing(
                final(self).weight,
                old(self).active_threshold,
                old(self).dormancy_threshold,
            ),
            final(self).fixed() == old(self).fixed(),
            decays(
                *curves,
                *learning,
                old(self).weight,
                old(self).last_active_ns,
                now_ns,
                final(self).weight,
            ),
    {
        self.weight = self.decayed_weight(now_ns, learning, curves);
        self.update_state();
    }
}

/// A record read back into a synapse and projected again is the record.
pub proof fn lemma_record_round_trip(record: SynapseRecord, synapse: Synapse, again: SynapseRecord)
    requires
        synapse.row() == record@,
        again@ == synapse.row(),
    ensures
        again@ == record@,
{
}

} // verus!
