//! Activation: admission control and backpressure.
//!
//! A threshold that rises under load, a bounded queue, and batched processing.
//! Firing drains a batch in weight order; the queue is bounded, and
//! [`OverflowPolicy`] says what happens when it fills.

use vstd::prelude::*;

use crate::config::ConfigError;
use crate::curves::{exp_gives, Curves};
use crate::delivery::{DeliveryClass, RejectReason};
use crate::order::{lemma_sorted_values, lemma_sorting_keeps_items, sort_stably, sorts_by, Placed};
use crate::rng::{fraction_drawn, Rng};
use crate::scalar::{Scalar, ONE, ZERO};
use crate::signal::{NodeId, SignalId};
use crate::store::ActivationSnapshot;
use crate::time::{saturated, saturating_product};

verus! {

/// The pattern of minus ten, the steepness of the smooth activation function.
pub const STEEPNESS: u32 = 0xC120_0000;

/// Activation function type.
#[derive(Clone, Copy, Debug, PartialEq, Eq, Structural)]
pub enum ActivationFunction {
    /// Binary: fires when the potential reaches the threshold.
    Step,
    /// Probabilistic: the firing probability rises smoothly through the
    /// threshold.
    Sigmoid,
    /// Like a step, but always passes a small fraction.
    Leaky,
}

impl Default for ActivationFunction {
    fn default() -> (r: Self)
        ensures
            r == ActivationFunction::Step,
    {
        ActivationFunction::Step
    }
}

/// Hardware class of a node, selecting activation defaults.
#[derive(Clone, Copy, Debug, PartialEq, Eq, Structural)]
pub enum NodeClass {
    /// Constrained device.
    Edge,
    /// General-purpose node.
    Standard,
    /// Server-class node; no artificial fire ceiling.
    Server,
    /// Bootstrap or infrastructure node.
    Infrastructure,
}

impl Default for NodeClass {
    fn default() -> (r: Self)
        ensures
            r == NodeClass::Edge,
    {
        NodeClass::Edge
    }
}

/// What happens when a signal arrives at a full queue.
#[derive(Clone, Copy, Debug, PartialEq, Eq, Structural)]
pub enum OverflowPolicy {
    /// Drop whichever of the arriving and the weakest queued signal is lighter.
    DropLowestWeight,
    /// Drop the arriving signal.
    DropNewest,
    /// Drop the oldest queued signal to admit the arriving one.
    DropOldest,
}

impl Default for OverflowPolicy {
    fn default() -> (r: Self)
        ensures
            r == OverflowPolicy::DropLowestWeight,
    {
        OverflowPolicy::DropLowestWeight
    }
}

/// Configuration of the activation model.
#[derive(Clone, Copy, Debug, PartialEq, Eq, Structural)]
pub struct ActivationConfig {
    /// Hardware class.
    pub node_class: NodeClass,
    /// Base activation threshold.
    pub base_threshold: Scalar,
    /// Activation function.
    pub activation_function: ActivationFunction,
    /// Refractory period in milliseconds. Zero disables it.
    pub refractory_period_ms: u64,
    /// Ceiling on accumulated potential.
    pub max_potential: Scalar,
    /// Whether the threshold rises with load.
    pub dynamic_threshold: bool,
    /// Signals drained per fire. At least one.
    pub fire_batch_size: usize,
    /// Queue bound.
    pub max_queue_depth: usize,
    /// What to drop when the queue is full.
    pub overflow_policy: OverflowPolicy,
    /// Leak probability of the leaky activation function.
    pub leak_rate: Scalar,
    /// Longest a signal may wait in the queue before the node fires anyway, in
    /// milliseconds. Zero disables the guard.
    ///
    /// The threshold is absolute, so without the guard a light signal over a
    /// new synapse could wait forever.
    pub max_queue_latency_ms: u64,
}

impl ActivationConfig {
    /// The defaults of a class.
    pub open spec fn class_defaults(class: NodeClass) -> ActivationConfig {
        let common = ActivationConfig {
            node_class: class,
            base_threshold: Scalar::from_bits(0x3F00_0000),
            activation_function: ActivationFunction::Step,
            refractory_period_ms: 0,
            max_potential: Scalar::from_bits(0x4120_0000),
            dynamic_threshold: true,
            fire_batch_size: 8,
            max_queue_depth: 256,
            overflow_policy: OverflowPolicy::DropLowestWeight,
            leak_rate: Scalar::from_bits(0x3C23_D70A),
            max_queue_latency_ms: 1_000,
        };
        match class {
            NodeClass::Edge => ActivationConfig { refractory_period_ms: 10, ..common },
            NodeClass::Standard => ActivationConfig {
                refractory_period_ms: 1,
                fire_batch_size: 16,
                max_queue_depth: 1_024,
                max_queue_latency_ms: 500,
                ..common
            },
            NodeClass::Server => ActivationConfig {
                max_potential: Scalar::from_bits(0x4248_0000),
                fire_batch_size: 64,
                max_queue_depth: 8_192,
                max_queue_latency_ms: 250,
                ..common
            },
            NodeClass::Infrastructure => ActivationConfig {
                max_potential: Scalar::from_bits(0x42C8_0000),
                fire_batch_size: 128,
                max_queue_depth: 32_768,
                max_queue_latency_ms: 100,
                ..common
            },
        }
    }

    /// The first field that is invalid, if one is.
    pub open spec fn fault(self) -> Option<ConfigError> {
        let zero = Scalar::from_bits(ZERO);
        if self.fire_batch_size == 0 {
            Some(ConfigError::FireBatchSize)
        } else if self.max_queue_depth == 0 {
            Some(ConfigError::MaxQueueDepth)
        } else if self.base_threshold.at_most(zero) {
            Some(ConfigError::BaseThreshold(self.base_threshold))
        } else if self.max_potential.below(self.base_threshold) {
            Some(ConfigError::MaxPotential(self.max_potential, self.base_threshold))
        } else if !self.leak_rate.between(zero, Scalar::from_bits(ONE)) {
            Some(ConfigError::LeakRate(self.leak_rate))
        } else if self.max_queue_latency_ms > 0 && self.max_queue_latency_ms
            < self.refractory_period_ms {
            Some(
                ConfigError::MaxQueueLatency(self.max_queue_latency_ms, self.refractory_period_ms),
            )
        } else {
            None
        }
    }

    /// Defaults for a node class.
    pub fn for_class(class: NodeClass) -> (r: ActivationConfig)
        ensures
            r == ActivationConfig::class_defaults(class),
    {
        let common = ActivationConfig {
            node_class: class,
            base_threshold: Scalar::from_bits(0x3F00_0000),
            activation_function: ActivationFunction::Step,
            refractory_period_ms: 0,
            max_potential: Scalar::from_bits(0x4120_0000),
            dynamic_threshold: true,
            fire_batch_size: 8,
            max_queue_depth: 256,
            overflow_policy: OverflowPolicy::DropLowestWeight,
            leak_rate: Scalar::from_bits(0x3C23_D70A),
            max_queue_latency_ms: 1_000,
        };
        match class {
            NodeClass::Edge => ActivationConfig { refractory_period_ms: 10, ..common },
            NodeClass::Standard => ActivationConfig {
                refractory_period_ms: 1,
                fire_batch_size: 16,
                max_queue_depth: 1_024,
                max_queue_latency_ms: 500,
                ..common
            },
            NodeClass::Server => ActivationConfig {
                max_potential: Scalar::from_bits(0x4248_0000),
                fire_batch_size: 64,
                max_queue_depth: 8_192,
                max_queue_latency_ms: 250,
                ..common
            },
            NodeClass::Infrastructure => ActivationConfig {
                max_potential: Scalar::from_bits(0x42C8_0000),
                fire_batch_size: 128,
                max_queue_depth: 32_768,
                max_queue_latency_ms: 100,
                ..common
            },
        }
    }

    /// Validate the configuration.
    pub fn validate(&self) -> (r: Result<(), ConfigError>)
        ensures
            r == (match self.fault() {
                Some(e) => Err(e),
                None => Ok(()),
            }),
    {
        let zero = Scalar::from_bits(ZERO);
        if self.fire_batch_size == 0 {
            return Err(ConfigError::FireBatchSize);
        }
        if self.max_queue_depth == 0 {
            return Err(ConfigError::MaxQueueDepth);
        }
        if self.base_threshold.le(zero) {
            return Err(ConfigError::BaseThreshold(self.base_threshold));
        }
        if self.max_potential.lt(self.base_threshold) {
            return Err(ConfigError::MaxPotential(self.max_potential, self.base_threshold));
        }
        if !self.leak_rate.within(zero, Scalar::from_bits(ONE)) {
            return Err(ConfigError::LeakRate(self.leak_rate));
        }
        if self.max_queue_latency_ms > 0 && self.max_queue_latency_ms < self.refractory_period_ms {
            return Err(
                ConfigError::MaxQueueLatency(self.max_queue_latency_ms, self.refractory_period_ms),
            );
        }
        Ok(())
    }
}

impl Default for ActivationConfig {
    fn default() -> (r: Self)
        ensures
            r == ActivationConfig::class_defaults(NodeClass::Edge),
    {
        ActivationConfig::for_class(NodeClass::Edge)
    }
}

/// The defaults of every class are valid.
pub proof fn lemma_class_defaults_validate(class: NodeClass)
    ensures
        ActivationConfig::class_defaults(class).fault() is None,
{
}

/// A signal waiting in the activation queue.
#[derive(Debug, PartialEq)]
pub struct QueuedSignal {
    /// Which signal.
    pub id: SignalId,
    /// Where it came from, so that it can still be acknowledged when it is
    /// released.
    pub origin: NodeId,
    /// Its weight, which orders both processing and overflow.
    pub weight: Scalar,
    /// Its delivery class, which decides whether a drop must be reported.
    pub delivery: DeliveryClass,
    /// When it was enqueued.
    pub enqueued_at_ns: u64,
}

/// A queued signal as a value.
pub struct QueuedRow {
    /// Which signal.
    pub id: SignalId,
    /// Where it came from.
    pub origin: Seq<u8>,
    /// Its weight.
    pub weight: Scalar,
    /// Its delivery class.
    pub delivery: DeliveryClass,
    /// When it was enqueued.
    pub enqueued_at_ns: u64,
}

impl View for QueuedSignal {
    type V = QueuedRow;

    open spec fn view(&self) -> QueuedRow {
        QueuedRow {
            id: self.id,
            origin: self.origin@,
            weight: self.weight,
            delivery: self.delivery,
            enqueued_at_ns: self.enqueued_at_ns,
        }
    }
}

impl Clone for QueuedSignal {
    fn clone(&self) -> (r: Self)
        ensures
            r@ == self@,
    {
        QueuedSignal {
            id: self.id,
            origin: self.origin.clone(),
            weight: self.weight,
            delivery: self.delivery,
            enqueued_at_ns: self.enqueued_at_ns,
        }
    }
}

/// The order of processing: the heavier signal first, and of equally heavy ones
/// the one with the smaller identifier.
pub open spec fn heavier(a: QueuedRow, b: QueuedRow) -> bool {
    a.weight.sort_key() > b.weight.sort_key() || (a.weight.sort_key() == b.weight.sort_key()
        && a.id@ < b.id@)
}

/// The order of processing as a relation.
pub open spec fn heaviest_first() -> spec_fn(QueuedRow, QueuedRow) -> bool {
    |a: QueuedRow, b: QueuedRow| heavier(a, b)
}

impl Placed for QueuedSignal {
    open spec fn before(self, other: Self) -> bool {
        heavier(self@, other@)
    }

    proof fn lemma_places(a: Self, b: Self, c: Self) {
    }

    fn goes_before(&self, other: &Self) -> (r: bool) {
        let a: i64 = self.weight.key();
        let b: i64 = other.weight.key();
        a > b || (a == b && self.id.precedes(other.id))
    }
}

/// The signals of a queue.
pub open spec fn queue_rows(queue: Seq<QueuedSignal>) -> Seq<QueuedRow> {
    queue.map_values(|s: QueuedSignal| s@)
}

/// What happened when a signal was offered to the activation gate.
#[derive(Debug, PartialEq)]
pub struct AdmitOutcome {
    /// Signals to process now. Empty if the node did not fire.
    pub fired: Vec<QueuedSignal>,
    /// A signal dropped to make room, if any. Where it was acknowledged, its
    /// sender is owed a negative receipt.
    pub dropped: Option<QueuedSignal>,
    /// Why the drop happened.
    pub drop_reason: Option<RejectReason>,
}

/// A queued signal that may be missing, as a value.
pub open spec fn maybe_row(s: Option<QueuedSignal>) -> Option<QueuedRow> {
    match s {
        Some(q) => Some(q@),
        None => None,
    }
}

impl AdmitOutcome {
    /// Whether the node fired.
    pub fn did_fire(&self) -> (r: bool)
        ensures
            r == (self.fired@.len() > 0),
    {
        self.fired.len() > 0
    }

    /// Whether a drop needs a negative receipt.
    pub fn needs_receipt(&self) -> (r: bool)
        ensures
            r == (self.dropped is Some && self.dropped->0.delivery is Acknowledged),
    {
        match &self.dropped {
            Some(d) => d.delivery.requires_receipt(),
            None => false,
        }
    }
}

/// The activation gate.
#[derive(Debug)]
pub struct ActivationState {
    potential: Scalar,
    threshold: Scalar,
    base_threshold: Scalar,
    refractory_until_ns: u64,
    refractory_period_ns: u64,
    function: ActivationFunction,
    max_potential: Scalar,
    dynamic: bool,
    fire_batch_size: usize,
    max_queue_depth: usize,
    overflow_policy: OverflowPolicy,
    leak_rate: Scalar,
    max_queue_latency_ns: u64,
    queue: Vec<QueuedSignal>,
    signals_fired: u64,
    signals_dropped: u64,
    overflow_events: u64,
}

/// The activation gate as a value.
pub struct GateModel {
    /// Accumulated potential.
    pub potential: Scalar,
    /// Effective threshold.
    pub threshold: Scalar,
    /// Threshold without load.
    pub base_threshold: Scalar,
    /// Until when the activation gate is refractory.
    pub refractory_until_ns: u64,
    /// How long it is refractory after a fire.
    pub refractory_period_ns: u64,
    /// Activation function.
    pub function: ActivationFunction,
    /// Ceiling on accumulated potential.
    pub max_potential: Scalar,
    /// Whether the threshold rises with load.
    pub dynamic: bool,
    /// Signals drained per fire.
    pub fire_batch_size: usize,
    /// Queue bound.
    pub max_queue_depth: usize,
    /// What to drop when the queue is full.
    pub overflow_policy: OverflowPolicy,
    /// Leak probability.
    pub leak_rate: Scalar,
    /// Longest a signal may wait.
    pub max_queue_latency_ns: u64,
    /// The queue.
    pub queue: Seq<QueuedRow>,
    /// Signals fired.
    pub signals_fired: u64,
    /// Signals dropped.
    pub signals_dropped: u64,
    /// Arrivals at a full queue.
    pub overflow_events: u64,
}

/// Index of the weakest of the first `n` queued signals: the first of those
/// that are equally weak.
pub open spec fn weakest_of(queue: Seq<QueuedRow>, n: int) -> int
    decreases n,
{
    if n <= 1 {
        0
    } else {
        let w = weakest_of(queue, n - 1);
        if queue[n - 1].weight.below(queue[w].weight) {
            n - 1
        } else {
            w
        }
    }
}

/// Whether a queued signal is older than another: enqueued earlier, or at the
/// same instant with a smaller identifier.
pub open spec fn older(a: QueuedRow, b: QueuedRow) -> bool {
    a.enqueued_at_ns < b.enqueued_at_ns || (a.enqueued_at_ns == b.enqueued_at_ns && a.id@ < b.id@)
}

/// Index of the oldest of the first `n` queued signals.
pub open spec fn oldest_of(queue: Seq<QueuedRow>, n: int) -> int
    decreases n,
{
    if n <= 1 {
        0
    } else {
        let o = oldest_of(queue, n - 1);
        if older(queue[n - 1], queue[o]) {
            n - 1
        } else {
            o
        }
    }
}

impl GateModel {
    /// Whether the queue is within its bound and something is drained per fire.
    pub open spec fn wf(self) -> bool {
        &&& self.fire_batch_size >= 1
        &&& self.max_queue_depth >= 1
        &&& self.queue.len() <= self.max_queue_depth
    }

    /// Whether the activation gate is refractory.
    pub open spec fn refractory(self, now_ns: u64) -> bool {
        now_ns < self.refractory_until_ns
    }

    /// Whether a queued signal has waited past the latency guard.
    pub open spec fn starving(self, now_ns: u64) -> bool {
        self.max_queue_latency_ns > 0 && exists|i: int|
            0 <= i < self.queue.len() && now_ns - (#[trigger] self.queue[i]).enqueued_at_ns
                >= self.max_queue_latency_ns
    }

    /// Queue occupancy as a fraction of the bound.
    pub open spec fn load(self) -> Scalar {
        Scalar::natural(self.queue.len() as int).quotient(
            Scalar::natural(self.max_queue_depth as int),
        ).clamped(Scalar::from_bits(ZERO), Scalar::from_bits(ONE))
    }

    /// The threshold under a load.
    pub open spec fn threshold_at(self, load: Scalar) -> Scalar {
        self.base_threshold.product(Scalar::from_bits(ONE).sum(load))
    }

    /// Which queued signal makes room for an arrival at a full queue: none
    /// where the arrival itself is dropped.
    pub open spec fn victim(self, arrival: QueuedRow) -> Option<int> {
        match self.overflow_policy {
            OverflowPolicy::DropNewest => None,
            OverflowPolicy::DropOldest => Some(oldest_of(self.queue, self.queue.len() as int)),
            OverflowPolicy::DropLowestWeight => {
                let w = weakest_of(self.queue, self.queue.len() as int);
                if self.queue[w].weight.below(arrival.weight) {
                    Some(w)
                } else {
                    None
                }
            },
        }
    }

    /// The signal dropped when a signal arrives.
    pub open spec fn dropped_for(self, arrival: QueuedRow) -> Option<QueuedRow> {
        if self.queue.len() < self.max_queue_depth {
            None
        } else {
            match self.victim(arrival) {
                Some(i) => Some(self.queue[i]),
                None => Some(arrival),
            }
        }
    }

    /// The activation gate after a signal has been enqueued or dropped.
    pub open spec fn enqueued(self, arrival: QueuedRow) -> GateModel {
        if self.queue.len() < self.max_queue_depth {
            GateModel { queue: self.queue.push(arrival), ..self }
        } else {
            GateModel {
                queue: match self.victim(arrival) {
                    Some(i) => self.queue.remove(i).push(arrival),
                    None => self.queue,
                },
                signals_dropped: saturated(self.signals_dropped + 1),
                overflow_events: saturated(self.overflow_events + 1),
                ..self
            }
        }
    }

    /// The activation gate with a signal's contribution added to the potential.
    pub open spec fn raised(self, weight: Scalar, synapse_weight: Scalar) -> GateModel {
        GateModel {
            potential: self.potential.sum(weight.product(synapse_weight)).smaller(
                self.max_potential,
            ),
            ..self
        }
    }

    /// The activation gate with the threshold that its load gives.
    pub open spec fn adjusted(self) -> GateModel {
        if self.dynamic {
            GateModel { threshold: self.threshold_at(self.load()), ..self }
        } else {
            self
        }
    }

    /// The activation gate after a signal has been offered, before it decides
    /// to fire.
    pub open spec fn offered(self, arrival: QueuedRow, synapse_weight: Scalar) -> GateModel {
        self.raised(arrival.weight, synapse_weight).enqueued(arrival).adjusted()
    }

    /// The number of signals that a fire drains.
    pub open spec fn batch_size(self) -> int {
        if self.fire_batch_size < self.queue.len() {
            self.fire_batch_size as int
        } else {
            self.queue.len() as int
        }
    }

    /// Whether a fire drains `batch` and leaves the activation gate as `after`:
    /// the heaviest signals go, heaviest first, the potential is spent, and the
    /// activation gate is refractory for its period.
    pub open spec fn fires(self, now_ns: u64, batch: Seq<QueuedRow>, after: GateModel) -> bool {
        exists|all: Seq<QueuedRow>|
            {
                &&& #[trigger] sorts_by(self.queue, all, heaviest_first())
                &&& batch == all.take(self.batch_size())
                &&& after == GateModel {
                    queue: all.skip(self.batch_size()),
                    potential: Scalar::from_bits(ZERO),
                    refractory_until_ns: saturated(now_ns + self.refractory_period_ns),
                    signals_fired: saturated(self.signals_fired + self.batch_size()),
                    ..self
                }
            }
    }

    /// Whether the activation function, with the draws between two states of a
    /// generator, says to fire.
    pub open spec fn evaluates<R: Rng, M: Curves>(
        self,
        curves: M,
        before: R,
        after: R,
        fire: bool,
    ) -> bool {
        let reached = self.threshold.at_most(self.potential);
        let one = Scalar::from_bits(ONE);
        if self.queue.len() == 0 {
            !fire && after == before
        } else {
            match self.function {
                ActivationFunction::Step => fire == reached && after == before,
                ActivationFunction::Sigmoid => exists|u: Scalar, e: Scalar|
                    #![trigger fraction_drawn(before, u, after), one.sum(e)]
                    fraction_drawn(before, u, after) && exp_gives(
                        curves,
                        Scalar::from_bits(STEEPNESS).product(
                            self.potential.difference(self.threshold),
                        ),
                        e,
                    ) && fire == u.below(one.quotient(one.sum(e))),
                ActivationFunction::Leaky => if reached {
                    fire && after == before
                } else {
                    exists|u: Scalar| #[trigger]
                        fraction_drawn(before, u, after) && fire == u.below(self.leak_rate)
                },
            }
        }
    }

    /// Whether offering a signal leaves the activation gate as `after` and
    /// fires `fired`.
    pub open spec fn admits<R: Rng, M: Curves>(
        self,
        curves: M,
        arrival: QueuedRow,
        synapse_weight: Scalar,
        now_ns: u64,
        rng_before: R,
        rng_after: R,
        fired: Seq<QueuedRow>,
        after: GateModel,
    ) -> bool {
        let offered = self.offered(arrival, synapse_weight);
        if offered.refractory(now_ns) {
            fired.len() == 0 && after == offered && rng_after == rng_before
        } else {
            exists|fire: bool| #[trigger]
                offered.evaluates(curves, rng_before, rng_after, fire) && if fire || offered.starving(
                    now_ns,
                ) {
                    offered.fires(now_ns, fired, after)
                } else {
                    fired.len() == 0 && after == offered
                }
        }
    }

    /// The activation gate of a configuration.
    pub open spec fn initial(config: ActivationConfig) -> GateModel {
        GateModel {
            potential: Scalar::from_bits(ZERO),
            threshold: config.base_threshold,
            base_threshold: config.base_threshold,
            refractory_until_ns: 0,
            refractory_period_ns: saturated(config.refractory_period_ms * 1_000_000),
            function: config.activation_function,
            max_potential: config.max_potential,
            dynamic: config.dynamic_threshold,
            fire_batch_size: if config.fire_batch_size < 1 {
                1
            } else {
                config.fire_batch_size
            },
            max_queue_depth: if config.max_queue_depth < 1 {
                1
            } else {
                config.max_queue_depth
            },
            overflow_policy: config.overflow_policy,
            leak_rate: config.leak_rate,
            max_queue_latency_ns: saturated(config.max_queue_latency_ms * 1_000_000),
            queue: Seq::empty(),
            signals_fired: 0,
            signals_dropped: 0,
            overflow_events: 0,
        }
    }

    /// The activation gate after a snapshot has been restored.
    pub open spec fn restored(self, snapshot: ActivationSnapshot) -> GateModel {
        GateModel {
            potential: snapshot.potential.clamped(Scalar::from_bits(ZERO), self.max_potential),
            threshold: snapshot.threshold,
            refractory_until_ns: snapshot.refractory_until_ns,
            signals_fired: snapshot.signals_fired,
            ..self
        }
    }
}

/// The index of the weakest signal is one of the queue.
proof fn lemma_weakest_in_range(queue: Seq<QueuedRow>, n: int)
    requires
        1 <= n,
    ensures
        0 <= weakest_of(queue, n) < n,
        0 <= oldest_of(queue, n) < n,
    decreases n,
{
    if n > 1 {
        lemma_weakest_in_range(queue, n - 1);
    }
}

impl View for ActivationState {
    type V = GateModel;

    closed spec fn view(&self) -> GateModel {
        GateModel {
            potential: self.potential,
            threshold: self.threshold,
            base_threshold: self.base_threshold,
            refractory_until_ns: self.refractory_until_ns,
            refractory_period_ns: self.refractory_period_ns,
            function: self.function,
            max_potential: self.max_potential,
            dynamic: self.dynamic,
            fire_batch_size: self.fire_batch_size,
            max_queue_depth: self.max_queue_depth,
            overflow_policy: self.overflow_policy,
            leak_rate: self.leak_rate,
            max_queue_latency_ns: self.max_queue_latency_ns,
            queue: queue_rows(self.queue@),
            signals_fired: self.signals_fired,
            signals_dropped: self.signals_dropped,
            overflow_events: self.overflow_events,
        }
    }
}

impl ActivationState {
    /// Create a gate from configuration.
    pub fn new(config: &ActivationConfig) -> (r: ActivationState)
        ensures
            r@ == GateModel::initial(*config),
            r@.wf(),
    {
        let r = ActivationState {
            potential: Scalar::from_bits(ZERO),
            threshold: config.base_threshold,
            base_threshold: config.base_threshold,
            refractory_until_ns: 0,
            refractory_period_ns: saturating_product(config.refractory_period_ms, 1_000_000),
            function: config.activation_function,
            max_potential: config.max_potential,
            dynamic: config.dynamic_threshold,
            fire_batch_size: if config.fire_batch_size < 1 {
                1
            } else {
                config.fire_batch_size
            },
            max_queue_depth: if config.max_queue_depth < 1 {
                1
            } else {
                config.max_queue_depth
            },
            overflow_policy: config.overflow_policy,
            leak_rate: config.leak_rate,
            max_queue_latency_ns: saturating_product(config.max_queue_latency_ms, 1_000_000),
            queue: Vec::new(),
            signals_fired: 0,
            signals_dropped: 0,
            overflow_events: 0,
        };
        assert(queue_rows(r.queue@) =~= Seq::<QueuedRow>::empty());
        r
    }

    /// Restore from a persisted snapshot.
    ///
    /// The queue is not restored: signals in flight are not durable. Potential,
    /// threshold and the refractory deadline are, or a restart would be a free
    /// reset of backpressure.
    pub fn restore(&mut self, snapshot: &ActivationSnapshot)
        ensures
            final(self)@ == old(self)@.restored(*snapshot),
            old(self)@.wf() ==> final(self)@.wf(),
    {
        self.potential = snapshot.potential.clamp(Scalar::from_bits(ZERO), self.max_potential);
        self.threshold = snapshot.threshold;
        self.refractory_until_ns = snapshot.refractory_until_ns;
        self.signals_fired = snapshot.signals_fired;
    }

    /// Capture a snapshot for persistence.
    pub fn snapshot(&self, now_ns: u64) -> (r: ActivationSnapshot)
        ensures
            r == (ActivationSnapshot {
                potential: self@.potential,
                threshold: self@.threshold,
                refractory_until_ns: self@.refractory_until_ns,
                signals_fired: self@.signals_fired,
                taken_at_ns: now_ns,
            }),
    {
        ActivationSnapshot {
            potential: self.potential,
            threshold: self.threshold,
            refractory_until_ns: self.refractory_until_ns,
            signals_fired: self.signals_fired,
            taken_at_ns: now_ns,
        }
    }

    /// Offer a signal to the activation gate.
    ///
    /// The signal is enqueued, subject to overflow, its contribution added to
    /// the potential, and, if the activation gate fires, a batch is drained and
    /// returned.
    pub fn offer<R: Rng, M: Curves>(
        &mut self,
        signal: QueuedSignal,
        synapse_weight: Scalar,
        now_ns: u64,
        rng: &mut R,
        curves: &M,
    ) -> (r: AdmitOutcome)
        requires
            old(self)@.wf(),
        ensures
            final(self)@.wf(),
            old(self)@.admits(
                *curves,
                signal@,
                synapse_weight,
                now_ns,
                *old(rng),
                *final(rng),
                queue_rows(r.fired@),
                final(self)@,
            ),
            maybe_row(r.dropped) == old(self)@.dropped_for(signal@),
            r.drop_reason == (if r.dropped is Some {
                Some(RejectReason::QueueFull)
            } else {
                None
            }),
    {
        let contribution = signal.weight.times(synapse_weight);
        self.potential = self.potential.plus(contribution).min(self.max_potential);
        let (dropped, drop_reason) = self.enqueue(signal);
        if self.dynamic {
            self.recompute_threshold();
        }
        let ghost offered = self@;
        assert(queue_rows(Seq::<QueuedSignal>::empty()) =~= Seq::<QueuedRow>::empty());
        let fired: Vec<QueuedSignal> = if self.in_refractory(now_ns) {
            Vec::new()
        } else {
            let fire: bool = self.evaluate(rng, curves);
            assert(offered.evaluates(*curves, *old(rng), *rng, fire));
            if fire || self.is_starving(now_ns) {
                self.fire(now_ns)
            } else {
                Vec::new()
            }
        };
        AdmitOutcome { fired, dropped, drop_reason }
    }

    /// Enqueue, applying the overflow policy if the queue is full.
    fn enqueue(&mut self, signal: QueuedSignal) -> (r: (Option<QueuedSignal>, Option<RejectReason>))
        requires
            old(self)@.wf(),
        ensures
            final(self)@ == old(self)@.enqueued(signal@),
            final(self)@.wf(),
            maybe_row(r.0) == old(self)@.dropped_for(signal@),
            r.1 == (if r.0 is Some {
                Some(RejectReason::QueueFull)
            } else {
                None
            }),
    {
        let ghost before = self@;
        let ghost rows = queue_rows(self.queue@);
        if self.queue.len() < self.max_queue_depth {
            self.queue.push(signal);
            assert(queue_rows(self.queue@) =~= rows.push(signal@));
            return (None, None);
        }
        self.overflow_events = self.overflow_events.saturating_add(1);
        self.signals_dropped = self.signals_dropped.saturating_add(1);
        proof {
            lemma_weakest_in_range(rows, rows.len() as int);
        }
        let dropped = match self.overflow_policy {
            OverflowPolicy::DropNewest => signal,
            OverflowPolicy::DropOldest => {
                let i: usize = self.oldest();
                let evicted = self.queue.remove(i);
                self.queue.push(signal);
                assert(queue_rows(self.queue@) =~= rows.remove(i as int).push(signal@));
                evicted
            },
            OverflowPolicy::DropLowestWeight => {
                let i: usize = self.weakest();
                if self.queue[i].weight.lt(signal.weight) {
                    let evicted = self.queue.remove(i);
                    self.queue.push(signal);
                    assert(queue_rows(self.queue@) =~= rows.remove(i as int).push(signal@));
                    evicted
                } else {
                    signal
                }
            },
        };
        (Some(dropped), Some(RejectReason::QueueFull))
    }

    /// Index of the weakest queued signal.
    fn weakest(&self) -> (r: usize)
        requires
            self.queue@.len() > 0,
        ensures
            r < self.queue@.len(),
            r == weakest_of(queue_rows(self.queue@), self.queue@.len() as int),
            (forall|j: int| 0 <= j < self.queue@.len() ==> !(#[trigger] self.queue@[j]).weight.nan())
                ==> forall|j: int|
                0 <= j < self.queue@.len() ==> !(#[trigger] self.queue@[j]).weight.below(
                    self.queue@[r as int].weight,
                ),
    {
        let mut w: usize = 0;
        let mut n: usize = 1;
        while n < self.queue.len()
            invariant
                1 <= n <= self.queue@.len(),
                w < n,
                w == weakest_of(queue_rows(self.queue@), n as int),
                (forall|j: int|
                    0 <= j < self.queue@.len() ==> !(#[trigger] self.queue@[j]).weight.nan())
                    ==> forall|j: int|
                    0 <= j < n ==> !(#[trigger] self.queue@[j]).weight.below(
                        self.queue@[w as int].weight,
                    ),
            decreases self.queue@.len() - n,
        {
            if self.queue[n].weight.lt(self.queue[w].weight) {
                w = n;
            }
            n = n + 1;
        }
        w
    }

    /// Index of the oldest queued signal, by the instant it was enqueued.
    fn oldest(&self) -> (r: usize)
        requires
            self.queue@.len() > 0,
        ensures
            r < self.queue@.len(),
            r == oldest_of(queue_rows(self.queue@), self.queue@.len() as int),
            forall|j: int|
                0 <= j < self.queue@.len() ==> self.queue@[r as int].enqueued_at_ns <= (
                #[trigger] self.queue@[j]).enqueued_at_ns,
    {
        let mut o: usize = 0;
        let mut n: usize = 1;
        while n < self.queue.len()
            invariant
                1 <= n <= self.queue@.len(),
                o < n,
                o == oldest_of(queue_rows(self.queue@), n as int),
                forall|j: int|
                    0 <= j < n ==> self.queue@[o as int].enqueued_at_ns <= (
                    #[trigger] self.queue@[j]).enqueued_at_ns,
            decreases self.queue@.len() - n,
        {
            let a = &self.queue[n];
            let b = &self.queue[o];
            if a.enqueued_at_ns < b.enqueued_at_ns || (a.enqueued_at_ns == b.enqueued_at_ns
                && a.id.precedes(b.id)) {
                o = n;
            }
            n = n + 1;
        }
        o
    }

    /// Drain a batch in weight order and reset the potential.
    ///
    /// The potential resets once per fire, not once per signal, so a large
    /// batch costs the same refractory period as a small one.
    fn fire(&mut self, now_ns: u64) -> (r: Vec<QueuedSignal>)
        requires
            old(self)@.wf(),
        ensures
            old(self)@.fires(now_ns, queue_rows(r@), final(self)@),
            final(self)@.wf(),
    {
        let ghost from = self.queue@;
        sort_stably(&mut self.queue);
        let ghost all = self.queue@;
        let ghost order = heaviest_first();
        proof {
            lemma_sorted_values(from, all, |s: QueuedSignal| s@, order);
            assert(sorts_by(queue_rows(from), queue_rows(all), order));
            lemma_sorting_keeps_items(queue_rows(from), queue_rows(all), order);
        }
        let take: usize = if self.fire_batch_size < self.queue.len() {
            self.fire_batch_size
        } else {
            self.queue.len()
        };
        let rest = self.queue.split_off(take);
        let mut batch: Vec<QueuedSignal> = rest;
        core::mem::swap(&mut batch, &mut self.queue);
        self.potential = Scalar::from_bits(ZERO);
        self.refractory_until_ns = now_ns.saturating_add(self.refractory_period_ns);
        self.signals_fired = self.signals_fired.saturating_add(batch.len() as u64);
        proof {
            assert(queue_rows(batch@) =~= queue_rows(all).take(take as int));
            assert(queue_rows(self.queue@) =~= queue_rows(all).skip(take as int));
        }
        batch
    }

    /// Evaluate the activation function.
    fn evaluate<R: Rng, M: Curves>(&self, rng: &mut R, curves: &M) -> (r: bool)
        ensures
            self@.evaluates(*curves, *old(rng), *final(rng), r),
    {
        assert(queue_rows(self.queue@).len() == self.queue@.len());
        if self.queue.len() == 0 {
            return false;
        }
        let ghost start = *rng;
        match self.function {
            ActivationFunction::Step => self.threshold.le(self.potential),
            ActivationFunction::Sigmoid => {
                let one = Scalar::from_bits(ONE);
                let x = Scalar::from_bits(STEEPNESS).times(self.potential.minus(self.threshold));
                let e = curves.exp(x);
                let probability = one.over(one.plus(e));
                let u = rng.next_f32();
                assert(fraction_drawn(start, u, *rng));
                u.lt(probability)
            },
            ActivationFunction::Leaky => {
                if self.threshold.le(self.potential) {
                    true
                } else {
                    let u = rng.next_f32();
                    assert(fraction_drawn(start, u, *rng));
                    u.lt(self.leak_rate)
                }
            },
        }
    }

    /// Recompute the threshold from the load.
    fn recompute_threshold(&mut self)
        ensures
            final(self)@ == (GateModel {
                threshold: old(self)@.threshold_at(old(self)@.load()),
                ..old(self)@
            }),
    {
        let load = self.load_factor();
        self.threshold = self.base_threshold.times(Scalar::from_bits(ONE).plus(load));
    }

    /// Whether a queued signal has waited past the latency guard.
    pub fn is_starving(&self, now_ns: u64) -> (r: bool)
        ensures
            r == self@.starving(now_ns),
    {
        if self.max_queue_latency_ns == 0 {
            return false;
        }
        let mut i: usize = 0;
        while i < self.queue.len()
            invariant
                i <= self.queue@.len(),
                self.max_queue_latency_ns > 0,
                forall|k: int|
                    0 <= k < i ==> now_ns - (#[trigger] self@.queue[k]).enqueued_at_ns
                        < self.max_queue_latency_ns,
            decreases self.queue@.len() - i,
        {
            let waited: u64 = now_ns.saturating_sub(self.queue[i].enqueued_at_ns);
            assert(self@.queue[i as int].enqueued_at_ns == self.queue@[i as int].enqueued_at_ns);
            if waited >= self.max_queue_latency_ns {
                return true;
            }
            i = i + 1;
        }
        false
    }

    /// Whether the activation gate is refractory.
    pub fn in_refractory(&self, now_ns: u64) -> (r: bool)
        ensures
            r == self@.refractory(now_ns),
    {
        now_ns < self.refractory_until_ns
    }

    /// Queue occupancy as a fraction of the bound, between zero and one.
    pub fn load_factor(&self) -> (r: Scalar)
        ensures
            r == self@.load(),
    {
        Scalar::from_u64(self.queue.len() as u64).over(
            Scalar::from_u64(self.max_queue_depth as u64),
        ).clamp(Scalar::from_bits(ZERO), Scalar::from_bits(ONE))
    }

    /// Adjust the threshold for a load that was measured elsewhere.
    pub fn adjust_for_load(&mut self, load_factor: Scalar)
        ensures
            final(self)@ == (if old(self)@.dynamic {
                GateModel {
                    threshold: old(self)@.threshold_at(
                        load_factor.clamped(Scalar::from_bits(ZERO), Scalar::from_bits(ONE)),
                    ),
                    ..old(self)@
                }
            } else {
                old(self)@
            }),
    {
        if self.dynamic {
            let load = load_factor.clamp(Scalar::from_bits(ZERO), Scalar::from_bits(ONE));
            self.threshold = self.base_threshold.times(Scalar::from_bits(ONE).plus(load));
        }
    }

    /// Drain a batch only if the queue is starving.
    ///
    /// Called from periodic maintenance: the guard in [`Self::offer`] can only
    /// act when another signal arrives.
    pub fn drain_if_starving(&mut self, now_ns: u64) -> (r: Vec<QueuedSignal>)
        requires
            old(self)@.wf(),
        ensures
            final(self)@.wf(),
            if old(self)@.refractory(now_ns) || !old(self)@.starving(now_ns) {
                r@.len() == 0 && final(self)@ == old(self)@
            } else {
                old(self)@.fires(now_ns, queue_rows(r@), final(self)@)
            },
    {
        if self.in_refractory(now_ns) || !self.is_starving(now_ns) {
            return Vec::new();
        }
        self.fire(now_ns)
    }

    /// Drain a batch without waiting for the threshold.
    pub fn drain_batch(&mut self, now_ns: u64) -> (r: Vec<QueuedSignal>)
        requires
            old(self)@.wf(),
        ensures
            final(self)@.wf(),
            if old(self)@.queue.len() == 0 {
                r@.len() == 0 && final(self)@ == old(self)@
            } else {
                old(self)@.fires(now_ns, queue_rows(r@), final(self)@)
            },
    {
        assert(queue_rows(self.queue@).len() == self.queue@.len());
        if self.queue.len() == 0 {
            return Vec::new();
        }
        self.fire(now_ns)
    }

    /// Accumulated potential.
    pub fn potential(&self) -> (r: Scalar)
        ensures
            r == self@.potential,
    {
        self.potential
    }

    /// Effective threshold.
    pub fn threshold(&self) -> (r: Scalar)
        ensures
            r == self@.threshold,
    {
        self.threshold
    }

    /// Signals waiting.
    pub fn queue_depth(&self) -> (r: usize)
        ensures
            r == self@.queue.len(),
    {
        self.queue.len()
    }

    /// Total signals processed.
    pub fn fire_count(&self) -> (r: u64)
        ensures
            r == self@.signals_fired,
    {
        self.signals_fired
    }

    /// Total signals dropped to overflow.
    pub fn dropped_count(&self) -> (r: u64)
        ensures
            r == self@.signals_dropped,
    {
        self.signals_dropped
    }

    /// Number of times the queue was full on arrival.
    pub fn overflow_count(&self) -> (r: u64)
        ensures
            r == self@.overflow_events,
    {
        self.overflow_events
    }

    /// Reset all state.
    pub fn reset(&mut self)
        ensures
            final(self)@ == (GateModel {
                potential: Scalar::from_bits(ZERO),
                threshold: old(self)@.base_threshold,
                refractory_until_ns: 0,
                queue: Seq::empty(),
                signals_fired: 0,
                signals_dropped: 0,
                overflow_events: 0,
                ..old(self)@
            }),
    {
        self.potential = Scalar::from_bits(ZERO);
        self.threshold = self.base_threshold;
        self.refractory_until_ns = 0;
        self.queue.clear();
        self.signals_fired = 0;
        self.signals_dropped = 0;
        self.overflow_events = 0;
        assert(queue_rows(self.queue@) =~= Seq::<QueuedRow>::empty());
    }
}

/// Removing one item from a sequence and appending another.
proof fn lemma_replace_items(queue: Seq<QueuedRow>, i: int, arrival: QueuedRow)
    requires
        0 <= i < queue.len(),
    ensures
        queue.remove(i).push(arrival).to_multiset().insert(queue[i])
            == queue.to_multiset().insert(arrival),
{
    queue.to_multiset_ensures();
    queue.remove(i).to_multiset_ensures();
    vstd::seq_lib::to_multiset_remove(queue, i);
    assert(queue.to_multiset().count(queue[i]) > 0);
    assert(queue.remove(i).push(arrival).to_multiset().insert(queue[i])
        =~= queue.to_multiset().insert(arrival));
}

/// What a fire drains and what it leaves are what was queued.
pub proof fn lemma_fire_conserves(
    gate: GateModel,
    now_ns: u64,
    batch: Seq<QueuedRow>,
    after: GateModel,
)
    requires
        gate.fires(now_ns, batch, after),
    ensures
        batch.to_multiset().add(after.queue.to_multiset()) == gate.queue.to_multiset(),
        batch.len() == gate.batch_size(),
        batch.len() + after.queue.len() == gate.queue.len(),
{
    let all = choose|all: Seq<QueuedRow>|
        {
            &&& #[trigger] sorts_by(gate.queue, all, heaviest_first())
            &&& batch == all.take(gate.batch_size())
            &&& after == GateModel {
                queue: all.skip(gate.batch_size()),
                potential: Scalar::from_bits(ZERO),
                refractory_until_ns: saturated(now_ns + gate.refractory_period_ns),
                signals_fired: saturated(gate.signals_fired + gate.batch_size()),
                ..gate
            }
        };
    lemma_sorting_keeps_items(gate.queue, all, heaviest_first());
    assert(all =~= batch + after.queue);
    vstd::seq_lib::lemma_multiset_commutative(batch, after.queue);
}

/// Nothing vanishes: after a signal has been offered, what was queued and the
/// arrival are what is still queued, what fired and what was dropped.
pub proof fn lemma_admission_conserves<R: Rng, M: Curves>(
    gate: GateModel,
    curves: M,
    arrival: QueuedRow,
    synapse_weight: Scalar,
    now_ns: u64,
    rng_before: R,
    rng_after: R,
    fired: Seq<QueuedRow>,
    after: GateModel,
)
    requires
        gate.wf(),
        gate.admits(curves, arrival, synapse_weight, now_ns, rng_before, rng_after, fired, after),
    ensures
        ({
            let kept = after.queue.to_multiset().add(fired.to_multiset());
            gate.queue.to_multiset().insert(arrival) == (match gate.dropped_for(arrival) {
                Some(dropped) => kept.insert(dropped),
                None => kept,
            })
        }),
{
    let offered = gate.offered(arrival, synapse_weight);
    let queue = gate.queue;
    queue.to_multiset_ensures();
    if queue.len() >= gate.max_queue_depth {
        lemma_weakest_in_range(queue, queue.len() as int);
        match gate.victim(arrival) {
            Some(i) => {
                lemma_replace_items(queue, i, arrival);
            },
            None => {},
        }
    }
    let starved = !offered.refractory(now_ns) && offered.fires(now_ns, fired, after);
    if starved {
        lemma_fire_conserves(offered, now_ns, fired, after);
        assert(after.queue.to_multiset().add(fired.to_multiset())
            =~= offered.queue.to_multiset());
    } else {
        assert(fired =~= Seq::<QueuedRow>::empty());
        fired.to_multiset_ensures();
        assert(after.queue.to_multiset().add(fired.to_multiset())
            =~= offered.queue.to_multiset());
    }
}

/// The queue stays within its bound, whatever is offered.
pub proof fn lemma_queue_is_bounded(gate: GateModel, arrival: QueuedRow, synapse_weight: Scalar)
    requires
        gate.wf(),
    ensures
        gate.offered(arrival, synapse_weight).queue.len() <= gate.max_queue_depth,
        gate.offered(arrival, synapse_weight).wf(),
{
    if gate.queue.len() >= 1 {
        lemma_weakest_in_range(gate.queue, gate.queue.len() as int);
    }
}

/// A batch is ordered heaviest first, and nothing that stays queued is heavier
/// than anything that fired.
pub proof fn lemma_batch_is_heaviest(
    gate: GateModel,
    now_ns: u64,
    batch: Seq<QueuedRow>,
    after: GateModel,
)
    requires
        gate.fires(now_ns, batch, after),
    ensures
        forall|i: int, j: int|
            0 <= i < j < batch.len() ==> !heavier(#[trigger] batch[j], #[trigger] batch[i]),
        forall|i: int, j: int|
            0 <= i < batch.len() && 0 <= j < after.queue.len() ==> !heavier(
                #[trigger] after.queue[j],
                #[trigger] batch[i],
            ),
{
    let order = heaviest_first();
    let all = choose|all: Seq<QueuedRow>|
        {
            &&& #[trigger] sorts_by(gate.queue, all, heaviest_first())
            &&& batch == all.take(gate.batch_size())
            &&& after == GateModel {
                queue: all.skip(gate.batch_size()),
                potential: Scalar::from_bits(ZERO),
                refractory_until_ns: saturated(now_ns + gate.refractory_period_ns),
                signals_fired: saturated(gate.signals_fired + gate.batch_size()),
                ..gate
            }
        };
    let at = choose|at: Seq<int>| #[trigger]
        crate::order::arranges_by(gate.queue, all, at, heaviest_first());
    let n = gate.batch_size();
    assert forall|i: int, j: int| 0 <= i < j < batch.len() implies !heavier(
        #[trigger] batch[j],
        #[trigger] batch[i],
    ) by {
        assert(batch[i] == all[i] && batch[j] == all[j]);
    }
    assert forall|i: int, j: int| 0 <= i < batch.len() && 0 <= j < after.queue.len() implies !heavier(
        #[trigger] after.queue[j],
        #[trigger] batch[i],
    ) by {
        assert(batch[i] == all[i] && after.queue[j] == all[n + j]);
    }
}

/// A refractory gate does not fire, however high its potential and however long
/// a signal has waited.
pub proof fn lemma_refractory_wins<R: Rng, M: Curves>(
    gate: GateModel,
    curves: M,
    arrival: QueuedRow,
    synapse_weight: Scalar,
    now_ns: u64,
    rng_before: R,
    rng_after: R,
    fired: Seq<QueuedRow>,
    after: GateModel,
)
    requires
        gate.refractory(now_ns),
        gate.admits(curves, arrival, synapse_weight, now_ns, rng_before, rng_after, fired, after),
    ensures
        fired.len() == 0,
{
}

/// At a full queue a signal that is not heavier than every queued one does not
/// displace any: a flood of equal weights cannot push out what is queued.
pub proof fn lemma_ties_drop_the_arrival(gate: GateModel, arrival: QueuedRow)
    requires
        gate.wf(),
        gate.queue.len() == gate.max_queue_depth,
        gate.overflow_policy is DropLowestWeight,
        forall|i: int|
            0 <= i < gate.queue.len() ==> !(#[trigger] gate.queue[i]).weight.below(arrival.weight),
    ensures
        gate.dropped_for(arrival) == Some(arrival),
        gate.enqueued(arrival).queue == gate.queue,
{
    lemma_weakest_in_range(gate.queue, gate.queue.len() as int);
}

/// A snapshot restored into a gate of the same configuration brings back its
/// refractory deadline, so a restart does not reset backpressure.
pub proof fn lemma_backpressure_survives_restart(
    gate: GateModel,
    snapshot: ActivationSnapshot,
    now_ns: u64,
)
    ensures
        gate.restored(snapshot).refractory(now_ns) == (now_ns < snapshot.refractory_until_ns),
        gate.restored(snapshot).threshold == snapshot.threshold,
{
}

/// A signal does not wait forever: once one has waited past the latency guard, a
/// gate that is not refractory fires when another is offered.
pub proof fn lemma_waiting_is_bounded<R: Rng, M: Curves>(
    gate: GateModel,
    curves: M,
    arrival: QueuedRow,
    synapse_weight: Scalar,
    now_ns: u64,
    rng_before: R,
    rng_after: R,
    fired: Seq<QueuedRow>,
    after: GateModel,
)
    requires
        gate.wf(),
        !gate.refractory(now_ns),
        gate.offered(arrival, synapse_weight).starving(now_ns),
        gate.admits(curves, arrival, synapse_weight, now_ns, rng_before, rng_after, fired, after),
    ensures
        fired.len() > 0,
{
    let offered = gate.offered(arrival, synapse_weight);
    lemma_fire_conserves(offered, now_ns, fired, after);
}

/// Load raises the threshold, and never lowers it below its base.
pub proof fn lemma_load_raises_the_threshold(gate: GateModel, load: Scalar)
    requires
        gate.base_threshold.finite(),
        !gate.base_threshold.negative(),
        load.between(Scalar::from_bits(ZERO), Scalar::from_bits(ONE)),
        !load.negative(),
    ensures
        gate.base_threshold.at_most(gate.threshold_at(load)),
{
    let one = Scalar::from_bits(ONE);
    crate::arith::lemma_adding_up(one, load);
    assert(one.sum(load).finite()) by {
        crate::arith::lemma_doubling_one(load);
    }
    crate::arith::lemma_growing(gate.base_threshold, one.sum(load));
}

} // verus!
