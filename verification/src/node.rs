//! The node: where storage, activation, propagation and learning meet.
//!
//! A node owns no transport and no threads. It decides what should happen to a
//! signal and records the consequences; its host does the input and output.

use vstd::prelude::*;

use crate::activation::{queue_rows, ActivationState, GateModel, QueuedRow, QueuedSignal};
use crate::budget::{accountable, floors_fit, lemma_the_budget_holds, within_budget};
use crate::config::{ConfigError, NodeConfig, NodeSetup};
use crate::curves::Curves;
use crate::decay::decays;
use crate::delivery::{DeliveryClass, Receipt, ReceiptStatus, RejectReason};
use crate::error::{Error, SerializationError};
use crate::learning::{
    excess_factor, normalize_outbound, normalized, rewarded, selects, LearningConfig,
    Selection, WeightUpdate, EPSILON,
};
use crate::propagation::{
    check_propagable, chooses, eligible, flood_depth_reached, flooded, obstacle, routes, scores_of,
    select_synapses,
};
use crate::rng::{absorbed, Rng, SplitMix64};
use crate::scalar::{Scalar, ONE, ZERO};
use crate::signal::{
    randomness_of, ulid_of, NodeId, Signal, SignalBuilder, SignalId, SignalModel, SignalType,
    TypeModel,
};
use crate::store::{
    chars_of, journal_rows, limited, lists_decisions, lists_synapses, rows, FilterModel,
    JournalEntry, JournalId, JournalRow, NodeStore, Outcome, PeerRecord, PeerRow, PeerSource,
    StoreModel, SynapseFilter, SynapseRecord, SynapseRow,
};
use crate::synapse::{fresh_synapse_id, SignatureFailureOutcome, Synapse, SynapseId, SynapseState};
use crate::text::{le_bytes, le_digits, lemma_le_digits_len};
use crate::time::{host_tells, saturated, saturating_product, Clock, SystemClock, NANOS_PER_SEC};

verus! {

/// The name of a signal type, by which affinity is counted.
pub open spec fn name_of_type(t: TypeModel) -> Seq<char> {
    if t.byte == 0 {
        "Data"@
    } else if t.byte == 1 {
        "Query"@
    } else if t.byte == 2 {
        "Event"@
    } else if t.byte == 3 {
        "Command"@
    } else if t.byte == 4 {
        "Heartbeat"@
    } else if t.byte == 5 {
        "Discovery"@
    } else if t.byte == 6 {
        "Receipt"@
    } else {
        t.name
    }
}

/// The name of a signal type, by which affinity is counted.
pub fn signal_type_name_of(t: &SignalType) -> (r: String)
    ensures
        r@ == name_of_type(t@),
{
    match t {
        SignalType::Data => "Data".to_string(),
        SignalType::Query => "Query".to_string(),
        SignalType::Event => "Event".to_string(),
        SignalType::Command => "Command".to_string(),
        SignalType::Heartbeat => "Heartbeat".to_string(),
        SignalType::Discovery => "Discovery".to_string(),
        SignalType::Receipt => "Receipt".to_string(),
        SignalType::Custom(name) => name.clone(),
    }
}

/// A queued signal displaced by a later arrival.
#[derive(Debug, PartialEq)]
pub struct Evicted {
    /// The signal that was dropped.
    pub signal: QueuedSignal,
    /// Why it was dropped.
    pub reason: RejectReason,
}

impl Evicted {
    /// Whether the displaced signal's sender must be told.
    pub fn needs_receipt(&self) -> (r: bool)
        ensures
            r == (self.signal.delivery is Acknowledged),
    {
        self.signal.delivery.requires_receipt()
    }
}

/// One forwarding decision.
#[derive(Debug, PartialEq)]
pub struct Forward {
    /// The synapse to send over.
    pub synapse: SynapseId,
    /// The peer on the far end.
    pub peer: NodeId,
    /// The journal entry that records this decision, so that its outcome can be
    /// attributed when a receipt arrives.
    pub journal_id: JournalId,
    /// Whether this was an exploratory choice.
    pub explored: bool,
}

/// A forwarding decision as a value.
pub struct ForwardRow {
    /// The synapse to send over.
    pub synapse: Seq<char>,
    /// The peer on the far end.
    pub peer: Seq<u8>,
    /// The journal entry.
    pub journal_id: JournalId,
    /// Whether this was an exploratory choice.
    pub explored: bool,
}

impl View for Forward {
    type V = ForwardRow;

    open spec fn view(&self) -> ForwardRow {
        ForwardRow {
            synapse: self.synapse@,
            peer: self.peer@,
            journal_id: self.journal_id,
            explored: self.explored,
        }
    }
}

impl Clone for Forward {
    fn clone(&self) -> (r: Self)
        ensures
            r@ == self@,
    {
        Forward {
            synapse: self.synapse.clone(),
            peer: self.peer.clone(),
            journal_id: self.journal_id,
            explored: self.explored,
        }
    }
}

/// The decisions of a list.
pub open spec fn forward_rows(list: Seq<Forward>) -> Seq<ForwardRow> {
    list.map_values(|f: Forward| f@)
}

/// What a node decided to do with a signal.
#[derive(Debug, PartialEq)]
pub struct Disposition {
    /// Peers that the signal should be forwarded to, each with the journal
    /// entry that records the decision.
    pub forward_to: Vec<Forward>,
    /// Signals that the activation gate released for local handling.
    pub handle_locally: Vec<QueuedSignal>,
    /// A receipt that the caller must emit, if the signal was refused and its
    /// class requires one.
    pub receipt: Option<Receipt>,
    /// Why the signal was refused, if it was.
    pub rejected: Option<RejectReason>,
    /// A different signal that this arrival displaced from the queue. Its
    /// receipt is owed to another sender than the arrival's.
    pub evicted: Option<Evicted>,
    /// Whether the activation gate is holding the signal. Its body is needed
    /// for as long.
    pub queued: bool,
}

/// A disposition as a value.
pub struct DispositionModel {
    /// The forwarding decisions.
    pub forward_to: Seq<ForwardRow>,
    /// The signals released.
    pub handle_locally: Seq<QueuedRow>,
    /// The receipt owed for the arrival.
    pub receipt: Option<Receipt>,
    /// Why the arrival was refused.
    pub rejected: Option<RejectReason>,
    /// The signal displaced, and why.
    pub evicted: Option<(QueuedRow, RejectReason)>,
    /// Whether the activation gate is holding the arrival.
    pub queued: bool,
}

/// A displaced signal that may be missing, as a value.
pub open spec fn evicted_row(e: Option<Evicted>) -> Option<(QueuedRow, RejectReason)> {
    match e {
        Some(e) => Some((e.signal@, e.reason)),
        None => None,
    }
}

impl View for Disposition {
    type V = DispositionModel;

    open spec fn view(&self) -> DispositionModel {
        DispositionModel {
            forward_to: forward_rows(self.forward_to@),
            handle_locally: queue_rows(self.handle_locally@),
            receipt: self.receipt,
            rejected: self.rejected,
            evicted: evicted_row(self.evicted),
            queued: self.queued,
        }
    }
}

/// The hops that a receipt reports.
pub open spec fn hops_of(signal: SignalModel) -> u16 {
    (signal.trace.len() as usize) as u16
}

impl DispositionModel {
    /// Nothing to do.
    pub open spec fn nothing() -> DispositionModel {
        DispositionModel {
            forward_to: Seq::empty(),
            handle_locally: Seq::empty(),
            receipt: None,
            rejected: None,
            evicted: None,
            queued: false,
        }
    }

    /// A refusal, with a receipt if the class demands one.
    pub open spec fn refusal(signal: SignalModel, reason: RejectReason) -> DispositionModel {
        DispositionModel {
            receipt: if signal.delivery is Acknowledged {
                Some(
                    Receipt {
                        correlation_id: signal.id,
                        status: ReceiptStatus::Rejected(reason),
                        hops: hops_of(signal),
                    },
                )
            } else {
                None
            },
            rejected: Some(reason),
            ..DispositionModel::nothing()
        }
    }
}

impl Disposition {
    /// Nothing to do.
    fn nothing() -> (r: Disposition)
        ensures
            r@ == DispositionModel::nothing(),
    {
        let r = Disposition {
            forward_to: Vec::new(),
            handle_locally: Vec::new(),
            receipt: None,
            rejected: None,
            evicted: None,
            queued: false,
        };
        assert(r@.forward_to =~= Seq::<ForwardRow>::empty());
        assert(r@.handle_locally =~= Seq::<QueuedRow>::empty());
        r
    }

    /// A refusal, with a receipt if the class demands one.
    fn refuse(signal: &Signal, reason: RejectReason, hops: u16) -> (r: Disposition)
        requires
            hops == hops_of(signal@),
        ensures
            r@ == DispositionModel::refusal(signal@, reason),
    {
        let mut r = Disposition::nothing();
        if signal.requires_receipt() {
            r.receipt = Some(Receipt::rejected(signal.id, reason, hops));
        }
        r.rejected = Some(reason);
        r
    }

    /// Whether the signal was refused.
    pub fn was_rejected(&self) -> (r: bool)
        ensures
            r == (self.rejected is Some),
    {
        self.rejected.is_some()
    }
}

/// Summary of the routing model for observability.
#[derive(Clone, Copy, Debug, PartialEq, Eq, Structural)]
pub struct LearningHealth {
    /// How many recent decisions were examined.
    pub decisions_sampled: usize,
    /// Fraction reached by exploration. Near zero means that learning stopped.
    pub exploration_ratio: Scalar,
    /// Fraction still awaiting an outcome. Near one means that no receipts are
    /// arriving, so the weights reflect nothing.
    pub pending_ratio: Scalar,
    /// Fraction that was delivered.
    pub delivery_ratio: Scalar,
}

impl LearningHealth {
    /// The summary of no decisions.
    pub open spec fn none() -> LearningHealth {
        LearningHealth {
            decisions_sampled: 0,
            exploration_ratio: Scalar::from_bits(ZERO),
            pending_ratio: Scalar::from_bits(ZERO),
            delivery_ratio: Scalar::from_bits(ZERO),
        }
    }

    /// The summary of decisions.
    pub open spec fn of(recent: Seq<JournalRow>) -> LearningHealth {
        let total = Scalar::natural(recent.len() as int);
        if recent.len() == 0 {
            LearningHealth::none()
        } else {
            LearningHealth {
                decisions_sampled: recent.len() as usize,
                exploration_ratio: Scalar::natural(
                    recent.filter(|e: JournalRow| e.explored).len() as int,
                ).quotient(total),
                pending_ratio: Scalar::natural(
                    recent.filter(|e: JournalRow| e.outcome is Pending).len() as int,
                ).quotient(total),
                delivery_ratio: Scalar::natural(
                    recent.filter(|e: JournalRow| e.outcome is Delivered).len() as int,
                ).quotient(total),
            }
        }
    }
}

impl Default for LearningHealth {
    fn default() -> (r: Self)
        ensures
            r == LearningHealth::none(),
    {
        LearningHealth {
            decisions_sampled: 0,
            exploration_ratio: Scalar::from_bits(ZERO),
            pending_ratio: Scalar::from_bits(ZERO),
            delivery_ratio: Scalar::from_bits(ZERO),
        }
    }
}

/// Whether a weight is what time leaves of a synapse's.
pub open spec fn weathered<M: Curves>(
    curves: M,
    row: SynapseRow,
    weight: Scalar,
    now_ns: u64,
    learning: LearningConfig,
) -> bool {
    decays(curves, learning, row.weight, row.last_active_ns, now_ns, weight)
}

/// Whether synapses are those of records, with their weights decayed.
pub open spec fn rehydrated<M: Curves>(
    curves: M,
    all: Seq<SynapseRow>,
    synapses: Seq<Synapse>,
    now_ns: u64,
    learning: LearningConfig,
) -> bool {
    &&& synapses.len() == all.len()
    &&& forall|i: int|
        0 <= i < all.len() ==> (#[trigger] synapses[i]).row() == (SynapseRow {
            weight: synapses[i].weight,
            ..all[i]
        }) && weathered(curves, all[i], synapses[i].weight, now_ns, learning)
}

/// The forwarding decisions for selected synapses, journalled from where a
/// journal stands.
pub open spec fn forwards_of(
    issued: u64,
    among: Seq<Synapse>,
    selected: Seq<Selection>,
) -> Seq<ForwardRow> {
    Seq::new(
        selected.len(),
        |i: int|
            ForwardRow {
                synapse: among[selected[i].index as int].id@,
                peer: among[selected[i].index as int].remote_node@,
                journal_id: JournalId((issued + 1 + i) as u64),
                explored: selected[i].explored,
            },
    )
}

/// The journal entries for selected synapses.
pub open spec fn decisions_of(
    signal: SignalModel,
    among: Seq<Synapse>,
    selected: Seq<Selection>,
    now_ns: u64,
) -> Seq<JournalRow> {
    Seq::new(
        selected.len(),
        |i: int|
            JournalRow {
                id: None,
                signal: signal.id,
                signal_type: signal.signal_type,
                synapse: among[selected[i].index as int].id@,
                peer: among[selected[i].index as int].remote_node@,
                score: selected[i].score,
                signal_weight: signal.weight,
                explored: selected[i].explored,
                decided_at_ns: now_ns,
                outcome: Outcome::Pending,
                resolved_at_ns: None,
            },
    )
}

/// A store after decisions have been journalled, in order.
pub open spec fn journalled(kept: StoreModel, decisions: Seq<JournalRow>) -> StoreModel
    decreases decisions.len(),
{
    if decisions.len() == 0 {
        kept
    } else {
        journalled(kept, decisions.drop_last()).with_decision(decisions.last())
    }
}

/// Whether a plan for a signal is made from these synapses and this selection.
pub open spec fn plans_with<R: Rng, M: Curves>(
    curves: M,
    kept: StoreModel,
    setup: NodeSetup,
    signal: SignalModel,
    arrival: Option<Seq<char>>,
    now_ns: u64,
    before: R,
    after: R,
    forwards: Seq<ForwardRow>,
    kept_after: StoreModel,
    all: Seq<SynapseRow>,
    synapses: Seq<Synapse>,
    selected: Seq<Selection>,
) -> bool {
    let among = eligible(synapses, signal.scope, arrival);
    let scores = scores_of(
        among,
        name_of_type(signal.signal_type),
        now_ns,
        setup.propagation.scoring,
    );
    &&& lists_synapses(kept.synapses, FilterModel::eligible(), all)
    &&& rehydrated(curves, all, synapses, now_ns, setup.learning)
    &&& selects(scores, selected)
    &&& routes(
        curves,
        among,
        scores,
        signal.scope,
        setup.propagation.max_fanout,
        setup.propagation.exploration,
        setup.learning.temperature(),
        before,
        after,
        selected,
    )
    &&& kept.issued + selected.len() <= u64::MAX
    &&& forwards == forwards_of(kept.issued, among, selected)
    &&& kept_after == journalled(kept, decisions_of(signal, among, selected, now_ns))
}

/// Whether forwarding decisions are a plan for a signal: synapses that may
/// carry it, with their weights decayed, selected as its scope asks and
/// journalled. A flood that has gone as deep as it may goes nowhere.
pub open spec fn plans<R: Rng, M: Curves>(
    curves: M,
    kept: StoreModel,
    setup: NodeSetup,
    signal: SignalModel,
    arrival: Option<Seq<char>>,
    now_ns: u64,
    before: R,
    after: R,
    forwards: Seq<ForwardRow>,
    kept_after: StoreModel,
) -> bool {
    if flooded(signal) {
        forwards.len() == 0 && kept_after == kept && after == before
    } else {
        exists|all: Seq<SynapseRow>, synapses: Seq<Synapse>, selected: Seq<Selection>| #[trigger]
            plans_with(
                curves,
                kept,
                setup,
                signal,
                arrival,
                now_ns,
                before,
                after,
                forwards,
                kept_after,
                all,
                synapses,
                selected,
            )
    }
}

/// The weights of synapses.
pub open spec fn weights_of(all: Seq<SynapseRow>) -> Seq<Scalar> {
    all.map_values(|r: SynapseRow| r.weight)
}

/// Synapses after the first `n` of a list have been given new weights.
pub open spec fn reweighted(
    synapses: Map<Seq<char>, SynapseRow>,
    all: Seq<SynapseRow>,
    weights: Seq<Scalar>,
    n: int,
) -> Map<Seq<char>, SynapseRow>
    decreases n,
{
    if n <= 0 {
        synapses
    } else {
        reweighted(synapses, all, weights, n - 1).insert(
            all[n - 1].id,
            SynapseRow { weight: weights[n - 1], ..all[n - 1] },
        )
    }
}

/// Whether a store is rebalanced from this list of its synapses.
pub open spec fn rebalances_from(
    kept: StoreModel,
    learning: LearningConfig,
    factor: Option<Scalar>,
    after: StoreModel,
    all: Seq<SynapseRow>,
) -> bool {
    &&& lists_synapses(kept.synapses, FilterModel::any(), all)
    &&& factor == (if learning.enabled {
        excess_factor(weights_of(all), learning)
    } else {
        None
    })
    &&& after == (if factor is None {
        kept
    } else {
        StoreModel {
            synapses: reweighted(
                kept.synapses,
                all,
                normalized(weights_of(all), learning),
                all.len() as int,
            ),
            settled: kept.settled && all.len() == 0,
            ..kept
        }
    })
}

/// Whether a store is rebalanced: where the outbound weights exceed the budget,
/// they are brought within it, unless the node does not learn.
pub open spec fn rebalances(
    kept: StoreModel,
    learning: LearningConfig,
    factor: Option<Scalar>,
    after: StoreModel,
) -> bool {
    exists|all: Seq<SynapseRow>| #[trigger] rebalances_from(kept, learning, factor, after, all)
}

/// Whether an outcome is learned from, within what is left of the peer's
/// influence, and the store rebalanced.
pub open spec fn learns<S: NodeStore>(
    kept: StoreModel,
    setup: NodeSetup,
    entry: JournalRow,
    outcome: Outcome,
    now_ns: u64,
    update: WeightUpdate,
    factor: Option<Scalar>,
    after: StoreModel,
) -> bool {
    let row = kept.synapses[entry.synapse];
    let used = S::influence_of(
        kept.influence,
        entry.peer,
        LearningConfig::window_start(now_ns, setup.learning.influence_window_secs),
    );
    let weight = entry.signal_weight.clamped(Scalar::from_bits(ZERO), Scalar::from_bits(ONE));
    let moved = SynapseRow {
        last_active_ns: now_ns,
        ..row.learned(
            outcome,
            weight,
            name_of_type(entry.signal_type),
            used,
            setup.learning,
            setup.synapse.max_weight,
            setup.synapse.active_threshold,
            setup.synapse.dormancy_threshold,
        )
    };
    let noted = if Scalar::from_bits(EPSILON).below(update.applied_delta.absolute()) {
        kept.with_influence(entry.peer, update.applied_delta, now_ns)
    } else {
        kept
    };
    &&& update == rewarded(row.weight, outcome, weight, used, setup.learning)
    &&& rebalances(noted.with_synapse(moved), setup.learning, factor, after)
}

/// Whether an outcome has been applied to the synapse of its decision. Where
/// the synapse is gone, or the node does not learn, nothing happens.
pub open spec fn outcome_applied<S: NodeStore>(
    kept: StoreModel,
    setup: NodeSetup,
    entry: JournalRow,
    outcome: Outcome,
    now_ns: u64,
    update: WeightUpdate,
    after: StoreModel,
) -> bool {
    if setup.learning.enabled && kept.synapses.dom().contains(entry.synapse) {
        exists|factor: Option<Scalar>| #[trigger]
            learns::<S>(kept, setup, entry, outcome, now_ns, update, factor, after)
    } else {
        update == WeightUpdate::nothing() && after == kept
    }
}

/// Whether a decision has been resolved and learned from. A decision that is
/// unknown, or that was resolved before, teaches nothing.
pub open spec fn resolves<S: NodeStore>(
    kept: StoreModel,
    setup: NodeSetup,
    id: JournalId,
    outcome: Outcome,
    now_ns: u64,
    update: Option<WeightUpdate>,
    after: StoreModel,
) -> bool {
    let marked = kept.with_outcome(id, outcome, now_ns);
    if !kept.has_decision(id) || !(kept.journal[kept.decision_at(id)].outcome is Pending) {
        update is None && after == kept
    } else {
        update is Some && outcome_applied::<S>(
            marked,
            setup,
            marked.journal[kept.decision_at(id)],
            outcome,
            now_ns,
            update->0,
            after,
        )
    }
}

/// Whether an entry of a journal awaits a receipt.
pub open spec fn awaited(kept: StoreModel, signal: SignalId, peer: Seq<u8>) -> bool {
    exists|i: int| 0 <= i < kept.journal.len() && (#[trigger] kept.journal[i]).awaits(signal, peer)
}

/// Whether a receipt has been applied. One that matches no pending decision is
/// discarded.
pub open spec fn receipt_applied<S: NodeStore>(
    kept: StoreModel,
    setup: NodeSetup,
    receipt: Receipt,
    from_peer: Seq<u8>,
    now_ns: u64,
    update: Option<WeightUpdate>,
    after: StoreModel,
) -> bool {
    if !awaited(kept, receipt.correlation_id, from_peer) {
        update is None && after == kept
    } else {
        exists|i: int|
            {
                &&& 0 <= i < kept.journal.len()
                &&& (#[trigger] kept.journal[i]).awaits(receipt.correlation_id, from_peer)
                &&& match kept.journal[i].id {
                    None => update is None && after == kept,
                    Some(id) => resolves::<S>(
                        kept,
                        setup,
                        id,
                        receipt.resolves_to(),
                        now_ns,
                        update,
                        after,
                    ),
                }
            }
    }
}

/// Whether one overdue decision has been swept, and whether it counts.
pub open spec fn swept_one<S: NodeStore>(
    kept: StoreModel,
    setup: NodeSetup,
    entry: JournalRow,
    now_ns: u64,
    counted: bool,
    after: StoreModel,
) -> bool {
    match entry.id {
        None => !counted && after == kept,
        Some(id) => exists|update: Option<WeightUpdate>|
            #[trigger] resolves::<S>(kept, setup, id, Outcome::TimedOut, now_ns, update, after) && counted
                == (update is Some),
    }
}

/// Whether overdue decisions have been swept one after another.
pub open spec fn swept<S: NodeStore>(
    setup: NodeSetup,
    entries: Seq<JournalRow>,
    now_ns: u64,
    stages: Seq<StoreModel>,
    counted: Seq<bool>,
) -> bool {
    &&& stages.len() == entries.len() + 1
    &&& counted.len() == entries.len()
    &&& forall|i: int|
        0 <= i < entries.len() ==> swept_one::<S>(
            stages[i],
            setup,
            #[trigger] entries[i],
            now_ns,
            counted[i],
            stages[i + 1],
        )
}

/// The weight that a signal's arrival synapse lends it: its own, or one where
/// there is none.
pub open spec fn arrival_weight(kept: StoreModel, arrival: Option<Seq<char>>) -> Scalar {
    match arrival {
        Some(id) => if kept.synapses.dom().contains(id) {
            kept.synapses[id].weight
        } else {
            Scalar::from_bits(ONE)
        },
        None => Scalar::from_bits(ONE),
    }
}

/// The place in the queue that a signal asks for.
pub open spec fn queue_row_of(signal: SignalModel, now_ns: u64) -> QueuedRow {
    QueuedRow {
        id: signal.id,
        origin: signal.origin,
        weight: signal.weight,
        delivery: signal.delivery,
        enqueued_at_ns: now_ns,
    }
}

/// Whether a signal is among those released.
pub open spec fn released(fired: Seq<QueuedRow>, id: SignalId) -> bool {
    exists|i: int| 0 <= i < fired.len() && (#[trigger] fired[i]).id == id
}

/// Those released but for one signal.
pub open spec fn without(fired: Seq<QueuedRow>, id: SignalId) -> Seq<QueuedRow> {
    fired.filter(|q: QueuedRow| q.id != id)
}

/// The signal that an arrival displaced, if it was another than itself.
pub open spec fn displaced(gate: GateModel, arrival: QueuedRow) -> Option<(QueuedRow, RejectReason)> {
    match gate.dropped_for(arrival) {
        Some(dropped) => Some((dropped, RejectReason::QueueFull)),
        None => None,
    }
}

/// Whether a signal that passed the activation gate has been disposed of:
/// dropped itself, held, or routed onward with what the activation gate
/// released.
pub open spec fn disposed<R: Rng, M: Curves>(
    curves: M,
    kept: StoreModel,
    gate: GateModel,
    setup: NodeSetup,
    signal: SignalModel,
    arrival: Option<Seq<char>>,
    now_ns: u64,
    fired: Seq<QueuedRow>,
    before: R,
    after: R,
    kept_after: StoreModel,
    d: DispositionModel,
) -> bool {
    let row = queue_row_of(signal, now_ns);
    let dropped = gate.dropped_for(row);
    if dropped is Some && dropped->0.id == signal.id {
        &&& d == (DispositionModel {
            handle_locally: fired,
            ..DispositionModel::refusal(signal, RejectReason::QueueFull)
        })
        &&& kept_after == kept
        &&& after == before
    } else if !released(fired, signal.id) {
        &&& d == (DispositionModel {
            handle_locally: fired,
            evicted: displaced(gate, row),
            queued: true,
            ..DispositionModel::nothing()
        })
        &&& kept_after == kept
        &&& after == before
    } else {
        exists|forwards: Seq<ForwardRow>|
            {
                &&& #[trigger] plans(
                    curves,
                    kept,
                    setup,
                    signal,
                    arrival,
                    now_ns,
                    before,
                    after,
                    forwards,
                    kept_after,
                )
                &&& d == (if forwards.len() == 0 && signal.delivery is Acknowledged && !flooded(
                    signal,
                ) {
                    DispositionModel {
                        handle_locally: without(fired, signal.id),
                        evicted: displaced(gate, row),
                        ..DispositionModel::refusal(signal, RejectReason::NoRoute)
                    }
                } else {
                    DispositionModel {
                        forward_to: forwards,
                        handle_locally: fired,
                        evicted: displaced(gate, row),
                        ..DispositionModel::nothing()
                    }
                })
            }
    }
}

/// Whether a signal that arrived has been received, with this weight lent to it
/// and these signals released by the activation gate.
pub open spec fn receives_with<R: Rng, M: Curves>(
    curves: M,
    kept: StoreModel,
    gate: GateModel,
    setup: NodeSetup,
    signal: SignalModel,
    arrival: Option<Seq<char>>,
    now_ns: u64,
    before: R,
    after: R,
    gate_after: GateModel,
    kept_after: StoreModel,
    d: DispositionModel,
    lent: Scalar,
    middle: R,
    fired: Seq<QueuedRow>,
) -> bool {
    &&& gate.admits(
        curves,
        queue_row_of(signal, now_ns),
        lent,
        now_ns,
        before,
        middle,
        fired,
        gate_after,
    )
    &&& disposed(
        curves,
        kept,
        gate,
        setup,
        signal,
        arrival,
        now_ns,
        fired,
        middle,
        after,
        kept_after,
        d,
    )
}

/// Whether a signal that arrived has been received.
///
/// A signal seen before is nothing. One that may not be propagated is refused.
/// Any other is offered to the activation gate, and disposed of as the
/// activation gate decides.
pub open spec fn receives<R: Rng, M: Curves>(
    curves: M,
    kept: StoreModel,
    answers: bool,
    gate: GateModel,
    setup: NodeSetup,
    local: Seq<u8>,
    signal: SignalModel,
    arrival: Option<Seq<char>>,
    now_ns: u64,
    before: R,
    after: R,
    gate_after: GateModel,
    kept_after: StoreModel,
    d: DispositionModel,
) -> bool {
    let marked = kept.marked(signal.id, now_ns, setup.propagation.dedup_cache_seconds);
    let reason = obstacle(signal, local, setup.propagation.min_propagation_weight);
    if kept.sees(signal.id, now_ns) {
        &&& d == DispositionModel::nothing()
        &&& kept_after == kept
        &&& gate_after == gate
        &&& after == before
    } else if reason is Some {
        &&& d == DispositionModel::refusal(signal, reason->0)
        &&& kept_after == marked
        &&& gate_after == gate
        &&& after == before
    } else {
        exists|lent: Scalar, middle: R, fired: Seq<QueuedRow>|
            {
                &&& lent == arrival_weight(marked, arrival) || (!answers && lent
                    == Scalar::from_bits(ONE))
                &&& #[trigger] receives_with(
                    curves,
                    marked,
                    gate,
                    setup,
                    signal,
                    arrival,
                    now_ns,
                    before,
                    after,
                    gate_after,
                    kept_after,
                    d,
                    lent,
                    middle,
                    fired,
                )
            }
    }
}

/// Whether a signal that the node emitted itself has been planned.
pub open spec fn receives_locally<R: Rng, M: Curves>(
    curves: M,
    kept: StoreModel,
    setup: NodeSetup,
    local: Seq<u8>,
    signal: SignalModel,
    now_ns: u64,
    before: R,
    after: R,
    kept_after: StoreModel,
    d: DispositionModel,
) -> bool {
    let reason = obstacle(signal, local, setup.propagation.min_propagation_weight);
    if reason is Some {
        &&& d == DispositionModel::refusal(signal, reason->0)
        &&& kept_after == kept
        &&& after == before
    } else {
        exists|forwards: Seq<ForwardRow>|
            {
                &&& #[trigger] plans(
                    curves,
                    kept,
                    setup,
                    signal,
                    None,
                    now_ns,
                    before,
                    after,
                    forwards,
                    kept_after,
                )
                &&& d == (if forwards.len() == 0 && signal.delivery is Acknowledged && !flooded(
                    signal,
                ) {
                    DispositionModel::refusal(signal, RejectReason::NoRoute)
                } else {
                    DispositionModel { forward_to: forwards, ..DispositionModel::nothing() }
                })
            }
    }
}

/// Whether a synapse was pruned too short a while ago to form again.
pub open spec fn cooling_down(row: SynapseRow, now_ns: u64, cooldown_secs: u64) -> bool {
    row.state is Pruned && now_ns < saturated(
        row.last_active_ns + saturated(cooldown_secs * NANOS_PER_SEC),
    )
}

/// What is remembered about a peer that a synapse was formed to.
pub open spec fn observed_peer(peer: Seq<u8>, now_ns: u64) -> PeerRow {
    PeerRow {
        id: peer,
        addresses: Seq::empty(),
        region: None,
        advertised_types: Seq::empty(),
        last_seen_ns: now_ns,
        source: PeerSource::Observed,
    }
}

/// The record of a synapse whose handshake is complete.
pub open spec fn connected(
    setup: NodeSetup,
    peer: Seq<u8>,
    now_ns: u64,
    first: u64,
    second: u64,
) -> SynapseRow {
    SynapseRow {
        state: SynapseState::Active,
        ..SynapseRow::formed(
            fresh_synapse_id(now_ns, first, second),
            peer,
            setup.synapse,
            now_ns,
        )
    }
}

/// Whether no synapse leads to a peer.
pub open spec fn unknown_peer(kept: StoreModel, peer: Seq<u8>) -> bool {
    forall|id: Seq<char>| #[trigger]
        kept.synapses.dom().contains(id) ==> kept.synapses[id].peer != peer
}

/// A signal that has been seen is not processed again: nothing is forwarded,
/// released or acknowledged, and neither store nor gate changes.
pub proof fn lemma_a_duplicate_is_nothing<R: Rng, M: Curves>(
    curves: M,
    kept: StoreModel,
    answers: bool,
    gate: GateModel,
    setup: NodeSetup,
    local: Seq<u8>,
    signal: SignalModel,
    arrival: Option<Seq<char>>,
    now_ns: u64,
    before: R,
    after: R,
    gate_after: GateModel,
    kept_after: StoreModel,
    d: DispositionModel,
)
    requires
        kept.sees(signal.id, now_ns),
        receives(
            curves,
            kept,
            answers,
            gate,
            setup,
            local,
            signal,
            arrival,
            now_ns,
            before,
            after,
            gate_after,
            kept_after,
            d,
        ),
    ensures
        d == DispositionModel::nothing(),
        kept_after == kept,
        gate_after == gate,
{
}

/// A refused signal whose class demands it is answered with a negative receipt
/// for it, and a signal is answered only when it is refused.
pub proof fn lemma_refusals_are_answered<R: Rng, M: Curves>(
    curves: M,
    kept: StoreModel,
    answers: bool,
    gate: GateModel,
    setup: NodeSetup,
    local: Seq<u8>,
    signal: SignalModel,
    arrival: Option<Seq<char>>,
    now_ns: u64,
    before: R,
    after: R,
    gate_after: GateModel,
    kept_after: StoreModel,
    d: DispositionModel,
)
    requires
        receives(
            curves,
            kept,
            answers,
            gate,
            setup,
            local,
            signal,
            arrival,
            now_ns,
            before,
            after,
            gate_after,
            kept_after,
            d,
        ),
    ensures
        d.rejected is Some && signal.delivery is Acknowledged <==> d.receipt is Some,
        d.receipt matches Some(receipt) ==> receipt == (Receipt {
            correlation_id: signal.id,
            status: ReceiptStatus::Rejected(d.rejected->0),
            hops: hops_of(signal),
        }),
        d.rejected is Some ==> d.forward_to.len() == 0,
        d.queued ==> d.rejected is None,
{
}

/// A receipt that no decision awaits, as a forged or repeated one, changes
/// nothing.
pub proof fn lemma_unmatched_receipts_change_nothing<S: NodeStore>(
    kept: StoreModel,
    setup: NodeSetup,
    receipt: Receipt,
    from_peer: Seq<u8>,
    now_ns: u64,
    update: Option<WeightUpdate>,
    after: StoreModel,
)
    requires
        !awaited(kept, receipt.correlation_id, from_peer),
        receipt_applied::<S>(kept, setup, receipt, from_peer, now_ns, update, after),
    ensures
        update is None,
        after == kept,
{
}

/// The first outcome of a decision wins: a later one changes nothing.
pub proof fn lemma_first_outcome_wins(
    kept: StoreModel,
    id: JournalId,
    first: Outcome,
    first_ns: u64,
    second: Outcome,
    second_ns: u64,
)
    requires
        !(first is Pending),
    ensures
        kept.with_outcome(id, first, first_ns).with_outcome(id, second, second_ns)
            == kept.with_outcome(id, first, first_ns),
{
    if kept.has_decision(id) {
        lemma_first_place(kept, id);
        let at = kept.decision_at(id);
        let once = kept.with_outcome(id, first, first_ns);
        assert forall|i: int| 0 <= i < kept.journal.len() implies (#[trigger] once.journal[i]).id
            == kept.journal[i].id by {}
        assert(once.journal[at].id == Some(id));
        assert(once.has_decision(id));
        lemma_first_place(once, id);
        let again = once.decision_at(id);
        assert(again == at) by {
            assert(once.journal[again].id == kept.journal[again].id);
            if again < at {
                assert(kept.journal[again].id != Some(id));
            } else if at < again {
                assert(once.journal[at].id != Some(id));
            }
        }
        assert(once.journal.update(at, once.journal[at].resolved(second, second_ns))
            =~= once.journal);
    }
}

/// A decision that is known has a first place.
proof fn lemma_first_place(kept: StoreModel, id: JournalId)
    requires
        kept.has_decision(id),
    ensures
        0 <= kept.decision_at(id) < kept.journal.len(),
        kept.journal[kept.decision_at(id)].id == Some(id),
        forall|j: int| 0 <= j < kept.decision_at(id) ==> (#[trigger] kept.journal[j]).id != Some(id),
{
    let i = choose|i: int| 0 <= i < kept.journal.len() && (#[trigger] kept.journal[i]).id == Some(id);
    lemma_least(kept.journal, id, i);
}

/// Among the first entries up to one with an identifier, one is the first with
/// it.
proof fn lemma_least(journal: Seq<JournalRow>, id: JournalId, i: int)
    requires
        0 <= i < journal.len(),
        journal[i].id == Some(id),
    ensures
        exists|k: int|
            0 <= k < journal.len() && (#[trigger] journal[k]).id == Some(id) && forall|j: int|
                0 <= j < k ==> (#[trigger] journal[j]).id != Some(id),
    decreases i,
{
    if exists|j: int| 0 <= j < i && (#[trigger] journal[j]).id == Some(id) {
        let j = choose|j: int| 0 <= j < i && (#[trigger] journal[j]).id == Some(id);
        lemma_least(journal, id, j);
    }
}

/// A synapse pruned for signature failures does not form again within its
/// cooldown, counted from the failure that pruned it.
pub proof fn lemma_pruned_synapses_cool_down(
    row: SynapseRow,
    learning: LearningConfig,
    active: Scalar,
    dormancy: Scalar,
    pruned_ns: u64,
    now_ns: u64,
)
    requires
        row.distrusted(pruned_ns, learning, active, dormancy).state is Pruned,
        !(row.state is Pruned),
        now_ns < saturated(
            pruned_ns + saturated(learning.signature_failure_cooldown_secs * NANOS_PER_SEC),
        ),
    ensures
        cooling_down(
            row.distrusted(pruned_ns, learning, active, dormancy),
            now_ns,
            learning.signature_failure_cooldown_secs,
        ),
{
}

/// A synapse identifier that may be missing, as a value.
pub open spec fn id_text(id: Option<&SynapseId>) -> Option<Seq<char>> {
    match id {
        Some(id) => Some(id@),
        None => None,
    }
}

/// Whether a signal is among those released.
fn was_released(fired: &Vec<QueuedSignal>, id: SignalId) -> (r: bool)
    ensures
        r == released(queue_rows(fired@), id),
{
    let mut i: usize = 0;
    while i < fired.len()
        invariant
            i <= fired@.len(),
            forall|k: int| 0 <= k < i ==> (#[trigger] queue_rows(fired@)[k]).id != id,
        decreases fired@.len() - i,
    {
        if fired[i].id == id {
            assert(queue_rows(fired@)[i as int].id == id);
            return true;
        }
        i = i + 1;
    }
    false
}

/// Those released but for one signal.
fn leave_out(fired: &Vec<QueuedSignal>, id: SignalId) -> (r: Vec<QueuedSignal>)
    ensures
        queue_rows(r@) == without(queue_rows(fired@), id),
{
    let ghost rows = queue_rows(fired@);
    let ghost keep = |q: QueuedRow| q.id != id;
    let mut out: Vec<QueuedSignal> = Vec::new();
    let mut i: usize = 0;
    proof {
        reveal(Seq::filter);
        assert(queue_rows(out@) =~= rows.take(0).filter(keep));
    }
    while i < fired.len()
        invariant
            i <= fired@.len(),
            rows == queue_rows(fired@),
            keep == (|q: QueuedRow| q.id != id),
            queue_rows(out@) == rows.take(i as int).filter(keep),
        decreases fired@.len() - i,
    {
        proof {
            reveal(Seq::filter);
            assert(rows.take(i + 1).drop_last() =~= rows.take(i as int));
            assert(rows.take(i + 1).last() == rows[i as int]);
        }
        let ghost before = out@;
        if fired[i].id != id {
            let copy = fired[i].clone();
            out.push(copy);
            assert(queue_rows(out@) =~= queue_rows(before).push(copy@));
        }
        i = i + 1;
    }
    assert(rows.take(rows.len() as int) =~= rows);
    out
}

/// A node.
#[derive(Debug)]
pub struct Node<S: NodeStore, C: Clock, R: Rng, M: Curves> {
    identity: NodeId,
    config: NodeConfig,
    store: S,
    clock: C,
    rng: R,
    curves: M,
    activation: ActivationState,
}

impl<S: NodeStore, C: Clock, R: Rng, M: Curves> Node<S, C, R, M> {
    /// The node's identity.
    pub closed spec fn me(&self) -> Seq<u8> {
        self.identity@
    }

    /// The node's configuration.
    pub closed spec fn setup(&self) -> NodeSetup {
        self.config@
    }

    /// What the node's store holds.
    pub closed spec fn kept(&self) -> StoreModel {
        self.store.model()
    }

    /// Whether the node's store serves every operation.
    pub closed spec fn dependable(&self) -> bool {
        self.store.reliable()
    }

    /// The node's activation gate.
    pub closed spec fn gate(&self) -> GateModel {
        self.activation@
    }

    /// The node's generator.
    pub closed spec fn random(&self) -> R {
        self.rng
    }

    /// The node's curves.
    pub closed spec fn host(&self) -> M {
        self.curves
    }

    /// The node's clock.
    pub closed spec fn ticker(&self) -> C {
        self.clock
    }

    /// Whether the node's clock may read an instant.
    pub open spec fn tells(&self, now_ns: u64) -> bool {
        call_ensures(C::now_ns, (&self.ticker(),), now_ns)
    }

    /// Whether the activation gate is within its bounds.
    pub open spec fn inv(&self) -> bool {
        self.gate().wf()
    }

    /// Whether another state of the node has the same identity, configuration,
    /// clock and curves, and a dependable store if this one has.
    pub open spec fn same_node(&self, other: &Self) -> bool {
        &&& self.me() == other.me()
        &&& self.setup() == other.setup()
        &&& self.host() == other.host()
        &&& self.ticker() == other.ticker()
        &&& other.inv()
        &&& self.dependable() ==> other.dependable()
    }

    /// Start building a node. The host supplies the curves.
    pub fn builder(curves: M) -> (r: NodeBuilder<S, C, R, M>)
        ensures
            r.setup() == NodeSetup::defaults(),
            r.given_identity() is None,
            r.given_store() is None,
            r.given_clock() is None,
            r.given_rng() is None,
            r.given_curves() == curves,
    {
        NodeBuilder::new(curves)
    }

    /// This node's identity.
    pub fn identity(&self) -> (r: &NodeId)
        ensures
            r@ == self.me(),
    {
        &self.identity
    }

    /// This node's configuration.
    pub fn config(&self) -> (r: &NodeConfig)
        ensures
            r@ == self.setup(),
    {
        &self.config
    }

    /// The backing store.
    pub fn store(&self) -> (r: &S)
        ensures
            r.model() == self.kept(),
            r.reliable() == self.dependable(),
    {
        &self.store
    }

    /// The backing store, to write to.
    pub fn store_mut(&mut self) -> (r: &mut S)
        ensures
            r.model() == old(self).kept(),
            r.reliable() == old(self).dependable(),
            final(self).kept() == final(r).model(),
            final(self).dependable() == final(r).reliable(),
            final(self).me() == old(self).me(),
            final(self).setup() == old(self).setup(),
            final(self).gate() == old(self).gate(),
            final(self).random() == old(self).random(),
            final(self).host() == old(self).host(),
            final(self).ticker() == old(self).ticker(),
    {
        &mut self.store
    }

    /// Current time according to this node's clock.
    pub fn now_ns(&self) -> (r: u64)
        ensures
            self.tells(r),
    {
        self.clock.now_ns()
    }

    /// Choose synapses for a signal and journal each decision.
    #[verifier::rlimit(40)]
    fn plan_forwarding(
        &mut self,
        signal: &Signal,
        arrival_synapse: Option<&SynapseId>,
        now_ns: u64,
    ) -> (r: Result<Vec<Forward>, Error>)
        requires
            old(self).inv(),
        ensures
            old(self).same_node(&*final(self)),
            final(self).gate() == old(self).gate(),
            r matches Ok(list) ==> plans(
                old(self).host(),
                old(self).kept(),
                old(self).setup(),
                signal@,
                id_text(arrival_synapse),
                now_ns,
                old(self).random(),
                final(self).random(),
                forward_rows(list@),
                final(self).kept(),
            ),
            r matches Err(e) ==> e is Serialization,
            old(self).dependable() && r is Err ==> final(self).kept().issued == u64::MAX,
    {
        let ghost kept = self.kept();
        let ghost setup = self.setup();
        let ghost arrival = id_text(arrival_synapse);
        if flood_depth_reached(signal) {
            let none: Vec<Forward> = Vec::new();
            assert(forward_rows(none@) =~= Seq::<ForwardRow>::empty());
            return Ok(none);
        }
        let records = match self.store.list_synapses(&SynapseFilter::eligible()) {
            Ok(list) => list,
            Err(e) => return Err(Error::Serialization(SerializationError::Store(e))),
        };
        let ghost all = rows(records@);
        assert(lists_synapses(kept.synapses, FilterModel::eligible(), all));
        let mut synapses: Vec<Synapse> = Vec::new();
        let mut i: usize = 0;
        while i < records.len()
            invariant
                i <= records@.len(),
                all == rows(records@),
                synapses@.len() == i,
                self.setup() == setup,
                self.host() == old(self).host(),
                self.ticker() == old(self).ticker(),
                forall|k: int|
                    0 <= k < i ==> (#[trigger] synapses@[k]).row() == (SynapseRow {
                        weight: synapses@[k].weight,
                        ..all[k]
                    }) && weathered(old(self).host(), all[k], synapses@[k].weight, now_ns, setup.learning),
            decreases records@.len() - i,
        {
            let mut s = Synapse::from_record(
                &records[i],
                self.identity.clone(),
                &self.config.synapse,
            );
            let ghost row = s.row();
            assert(row == all[i as int]);
            let weight = s.decayed_weight(now_ns, &self.config.learning, &self.curves);
            assert(row.weight == s.weight && row.last_active_ns == s.last_active_ns);
            assert(self.config@.learning == setup.learning);
            assert(weathered(old(self).host(), all[i as int], weight, now_ns, setup.learning));
            s.weight = weight;
            assert(s.row() == (SynapseRow { weight: s.weight, ..row }));
            synapses.push(s);
            i = i + 1;
        }
        assert(rehydrated(old(self).host(), all, synapses@, now_ns, setup.learning));
        let name = signal_type_name_of(&signal.signal_type);
        let came: Option<&str> = match arrival_synapse {
            Some(id) => Some(id.0.as_str()),
            None => None,
        };
        assert(chars_of(came) == arrival);
        let ghost before = self.rng;
        let chosen = select_synapses(
            &synapses,
            &signal.scope,
            name.as_str(),
            came,
            &self.config.propagation,
            &self.config.learning,
            now_ns,
            &mut self.rng,
            &self.curves,
        );
        let ghost among = eligible(synapses@, signal@.scope, arrival);
        let ghost scores = scores_of(
            among,
            name_of_type(signal@.signal_type),
            now_ns,
            setup.propagation.scoring,
        );
        let ghost selected = choose|selected: Seq<Selection>|
            #![trigger chooses(among, selected, chosen@)]
            chooses(among, selected, chosen@) && selects(scores, selected) && routes(
                old(self).host(),
                among,
                scores,
                signal@.scope,
                setup.propagation.max_fanout,
                setup.propagation.exploration,
                setup.learning.temperature(),
                before,
                self.rng,
                selected,
            );
        let ghost after = self.rng;
        let ghost decisions = decisions_of(signal@, among, selected, now_ns);
        let ghost wanted = forwards_of(kept.issued, among, selected);
        let mut out: Vec<Forward> = Vec::new();
        let mut j: usize = 0;
        assert(decisions.take(0) =~= Seq::<JournalRow>::empty());
        while j < chosen.len()
            invariant
                j <= chosen@.len(),
                chooses(among, selected, chosen@),
                decisions == decisions_of(signal@, among, selected, now_ns),
                wanted == forwards_of(kept.issued, among, selected),
                self.kept() == journalled(kept, decisions.take(j as int)),
                self.kept().issued == kept.issued + j,
                self.identity@ == old(self).me(),
                self.config@ == old(self).setup(),
                self.curves == old(self).host(),
                self.clock == old(self).ticker(),
                self.activation@ == old(self).gate(),
                self.rng == after,
                self.inv(),
                old(self).dependable() ==> self.dependable(),
                out@.len() == j,
                forall|k: int| 0 <= k < j ==> (#[trigger] out@[k])@ == wanted[k],
            decreases chosen@.len() - j,
        {
            let c = &chosen[j];
            let entry = JournalEntry {
                id: None,
                signal: signal.id,
                signal_type: signal.signal_type.clone(),
                synapse: c.synapse.id.clone(),
                peer: c.synapse.remote_node.clone(),
                score: c.score,
                signal_weight: signal.weight,
                explored: c.explored,
                decided_at_ns: now_ns,
                outcome: Outcome::Pending,
                resolved_at_ns: None,
            };
            assert(*chosen@[j as int].synapse == among[selected[j as int].index as int]);
            assert(entry@ == decisions[j as int]);
            let journal_id = match self.store.append_decision(&entry) {
                Ok(id) => id,
                Err(e) => return Err(Error::Serialization(SerializationError::Store(e))),
            };
            proof {
                assert(decisions.take(j + 1).drop_last() =~= decisions.take(j as int));
                assert(decisions.take(j + 1).last() == decisions[j as int]);
            }
            let forward = Forward {
                synapse: c.synapse.id.clone(),
                peer: c.synapse.remote_node.clone(),
                journal_id,
                explored: c.explored,
            };
            assert(forward@ == wanted[j as int]);
            out.push(forward);
            j = j + 1;
        }
        proof {
            assert(decisions.take(decisions.len() as int) =~= decisions);
            assert(forward_rows(out@) =~= wanted);
            assert(plans_with(
                old(self).host(),
                kept,
                setup,
                signal@,
                arrival,
                now_ns,
                before,
                self.rng,
                forward_rows(out@),
                self.kept(),
                all,
                synapses@,
                selected,
            ));
        }
        Ok(out)
    }

    /// Rescale outbound weights if they exceed the node's total budget.
    pub fn normalize_outbound_weights(&mut self) -> (r: Result<Option<Scalar>, Error>)
        requires
            old(self).inv(),
        ensures
            old(self).same_node(&*final(self)),
            final(self).gate() == old(self).gate(),
            final(self).random() == old(self).random(),
            r matches Ok(factor) ==> rebalances(
                old(self).kept(),
                old(self).setup().learning,
                factor,
                final(self).kept(),
            ),
            r matches Err(e) ==> e is Serialization,
            old(self).dependable() ==> r is Ok,
    {
        let ghost kept = self.kept();
        let ghost learning = self.setup().learning;
        let records = match self.store.list_synapses(&SynapseFilter::any()) {
            Ok(list) => list,
            Err(e) => return Err(Error::Serialization(SerializationError::Store(e))),
        };
        let ghost all = rows(records@);
        assert(lists_synapses(kept.synapses, FilterModel::any(), all));
        let mut weights: Vec<Scalar> = Vec::new();
        let mut i: usize = 0;
        while i < records.len()
            invariant
                i <= records@.len(),
                all == rows(records@),
                weights@.len() == i,
                forall|k: int| 0 <= k < i ==> #[trigger] weights@[k] == all[k].weight,
            decreases records@.len() - i,
        {
            weights.push(records[i].weight);
            i = i + 1;
        }
        assert(weights@ =~= weights_of(all));
        if !self.config.learning.enabled {
            assert(rebalances_from(kept, learning, None, self.kept(), all));
            return Ok(None);
        }
        let factor = match normalize_outbound(&mut weights, &self.config.learning) {
            Some(factor) => factor,
            None => {
                assert(rebalances_from(kept, learning, None, self.kept(), all));
                return Ok(None);
            },
        };
        let ghost scaled = normalized(weights_of(all), learning);
        let mut j: usize = 0;
        while j < records.len()
            invariant
                j <= records@.len(),
                all == rows(records@),
                weights@ == scaled,
                scaled.len() == all.len(),
                self.kept() == (StoreModel {
                    synapses: reweighted(kept.synapses, all, scaled, j as int),
                    settled: kept.settled && j == 0,
                    ..kept
                }),
                self.identity@ == old(self).me(),
                self.config@ == old(self).setup(),
                self.curves == old(self).host(),
                self.clock == old(self).ticker(),
                self.activation@ == old(self).gate(),
                self.rng == old(self).random(),
                self.inv(),
                old(self).dependable() ==> self.dependable(),
            decreases records@.len() - j,
        {
            let mut updated = records[j].clone();
            updated.weight = weights[j];
            assert(updated@ == (SynapseRow { weight: scaled[j as int], ..all[j as int] }));
            match self.store.put_synapse(&updated) {
                Ok(()) => {},
                Err(e) => return Err(Error::Serialization(SerializationError::Store(e))),
            }
            j = j + 1;
        }
        assert(rebalances_from(kept, learning, Some(factor), self.kept(), all));
        Ok(Some(factor))
    }

    /// Apply one resolved outcome to its synapse, within the influence cap, and
    /// rebalance afterwards.
    fn apply_outcome_to_synapse(&mut self, entry: &JournalEntry, outcome: Outcome, now_ns: u64) -> (r:
        Result<WeightUpdate, Error>)
        requires
            old(self).inv(),
        ensures
            old(self).same_node(&*final(self)),
            final(self).gate() == old(self).gate(),
            final(self).random() == old(self).random(),
            r matches Ok(update) ==> outcome_applied::<S>(
                old(self).kept(),
                old(self).setup(),
                entry@,
                outcome,
                now_ns,
                update,
                final(self).kept(),
            ),
            r matches Err(e) ==> e is Serialization,
            old(self).dependable() ==> r is Ok,
    {
        let ghost kept = self.kept();
        let ghost setup = self.setup();
        let zero = Scalar::from_bits(ZERO);
        if !self.config.learning.enabled {
            return Ok(
                WeightUpdate { before: zero, after: zero, applied_delta: zero, capped: false },
            );
        }
        let window_start: u64 = self.config.learning.influence_window_start(now_ns);
        let used = match self.store.influence_since(&entry.peer, window_start) {
            Ok(total) => total,
            Err(e) => return Err(Error::Serialization(SerializationError::Store(e))),
        };
        let record = match self.store.get_synapse(&entry.synapse) {
            Ok(Some(record)) => record,
            // The synapse went while the decision was in flight.
            Ok(None) => return Ok(
                WeightUpdate { before: zero, after: zero, applied_delta: zero, capped: false },
            ),
            Err(e) => return Err(Error::Serialization(SerializationError::Store(e))),
        };
        let mut synapse = Synapse::from_record(
            &record,
            self.identity.clone(),
            &self.config.synapse,
        );
        let name = signal_type_name_of(&entry.signal_type);
        let weight = entry.signal_weight.clamp(zero, Scalar::from_bits(ONE));
        let update = synapse.apply_outcome(
            outcome,
            weight,
            name.as_str(),
            used,
            &self.config.learning,
        );
        let ghost moved = synapse.row();
        if Scalar::from_bits(EPSILON).lt(update.applied_delta.abs()) {
            match self.store.record_influence(
                &entry.peer,
                update.applied_delta,
                now_ns,
                window_start,
            ) {
                Ok(_) => {},
                Err(e) => return Err(Error::Serialization(SerializationError::Store(e))),
            }
        }
        synapse.last_active_ns = now_ns;
        assert(synapse.row() == (SynapseRow { last_active_ns: now_ns, ..moved }));
        match self.store.put_synapse(&synapse.to_record()) {
            Ok(()) => {},
            Err(e) => return Err(Error::Serialization(SerializationError::Store(e))),
        }
        let factor = match self.normalize_outbound_weights() {
            Ok(factor) => factor,
            Err(e) => return Err(e),
        };
        assert(learns::<S>(kept, setup, entry@, outcome, now_ns, update, factor, self.kept()));
        Ok(update)
    }

    /// Resolve a decision, and learn from it if this is its first outcome.
    fn resolve(&mut self, id: JournalId, outcome: Outcome, now_ns: u64) -> (r: Result<
        Option<WeightUpdate>,
        Error,
    >)
        requires
            old(self).inv(),
        ensures
            old(self).same_node(&*final(self)),
            final(self).gate() == old(self).gate(),
            final(self).random() == old(self).random(),
            r matches Ok(update) ==> resolves::<S>(
                old(self).kept(),
                old(self).setup(),
                id,
                outcome,
                now_ns,
                update,
                final(self).kept(),
            ),
            r matches Err(e) ==> e is Serialization,
            old(self).dependable() ==> r is Ok,
    {
        match self.store.get_decision(id) {
            // The first outcome wins.
            Ok(Some(entry)) => if entry.outcome != Outcome::Pending {
                return Ok(None);
            },
            Ok(None) => return Ok(None),
            Err(e) => return Err(Error::Serialization(SerializationError::Store(e))),
        }
        let resolved = match self.store.resolve_decision(id, outcome, now_ns) {
            Ok(found) => found,
            Err(e) => return Err(Error::Serialization(SerializationError::Store(e))),
        };
        let entry = match resolved {
            Some(entry) => entry,
            None => return Ok(None),
        };
        match self.apply_outcome_to_synapse(&entry, outcome, now_ns) {
            Ok(update) => Ok(Some(update)),
            Err(e) => Err(e),
        }
    }
}

/// What a signature failure did to a synapse: its record is the distrusted one,
/// and an unknown synapse is none.
pub open spec fn penalises(
    kept: StoreModel,
    setup: NodeSetup,
    id: Seq<char>,
    now_ns: u64,
    result: Option<SignatureFailureOutcome>,
    after: StoreModel,
) -> bool {
    if kept.synapses.dom().contains(id) {
        let row = kept.synapses[id].distrusted(
            now_ns,
            setup.learning,
            setup.synapse.active_threshold,
            setup.synapse.dormancy_threshold,
        );
        &&& after == kept.with_synapse(row)
        &&& result == Some(
            SignatureFailureOutcome {
                failures_in_window: row.signature_failures,
                pruned: row.signature_failures
                    >= setup.learning.signature_failure_prune_threshold,
            },
        )
    } else {
        result is None && after == kept
    }
}

/// Whether a synapse to a peer is known under an identifier.
pub open spec fn leads(kept: StoreModel, id: Seq<char>, peer: Seq<u8>) -> bool {
    kept.synapses.dom().contains(id) && kept.synapses[id].peer == peer
}

/// Whether a synapse to a peer has been registered: an existing one is kept as
/// it is, one pruned long enough ago makes room for a new one.
pub open spec fn registers<R: Rng>(
    kept: StoreModel,
    setup: NodeSetup,
    peer: Seq<u8>,
    now_ns: u64,
    before: R,
    record: SynapseRow,
    after: StoreModel,
) -> bool {
    let fresh = connected(setup, peer, now_ns, before.draw(0), before.draw(1));
    if unknown_peer(kept, peer) {
        &&& record == fresh
        &&& after == kept.with_synapse(fresh).with_peer(observed_peer(peer, now_ns))
    } else {
        exists|id: Seq<char>|
            {
                &&& #[trigger] leads(kept, id, peer)
                &&& if kept.synapses[id].state is Pruned {
                    &&& !cooling_down(
                        kept.synapses[id],
                        now_ns,
                        setup.learning.signature_failure_cooldown_secs,
                    )
                    &&& record == fresh
                    &&& after == kept.without_synapse(id).with_synapse(fresh).with_peer(
                        observed_peer(peer, now_ns),
                    )
                } else {
                    record == kept.synapses[id] && after == kept
                }
            }
    }
}

/// Whether the generator has given what registering a synapse to a peer takes
/// of it: two draws for one that is formed, none for one that is kept.
pub open spec fn registering_draws<R: Rng>(
    kept: StoreModel,
    peer: Seq<u8>,
    before: R,
    after: R,
) -> bool {
    let drawn = forall|k: nat| #[trigger] after.draw(k) == before.draw(k + 2);
    if unknown_peer(kept, peer) {
        drawn
    } else {
        exists|id: Seq<char>|
            {
                &&& #[trigger] leads(kept, id, peer)
                &&& if kept.synapses[id].state is Pruned {
                    drawn
                } else {
                    after == before
                }
            }
    }
}

/// Whether registering a synapse to a peer is refused for its cooldown.
pub open spec fn registering_waits(
    kept: StoreModel,
    setup: NodeSetup,
    peer: Seq<u8>,
    now_ns: u64,
) -> bool {
    exists|id: Seq<char>| #[trigger]
        leads(kept, id, peer) && cooling_down(
            kept.synapses[id],
            now_ns,
            setup.learning.signature_failure_cooldown_secs,
        )
}

/// Whether overdue decisions, as many as a limit allows, have been swept, `n`
/// of them with effect.
pub open spec fn sweeps<S: NodeStore>(
    kept: StoreModel,
    setup: NodeSetup,
    now_ns: u64,
    limit: usize,
    n: int,
    after: StoreModel,
) -> bool {
    let deadline = LearningConfig::window_start(now_ns, setup.learning.receipt_window_secs);
    exists|all: Seq<JournalRow>, stages: Seq<StoreModel>, counted: Seq<bool>|
        {
            &&& #[trigger] swept::<S>(setup, limited(all, limit as int), now_ns, stages, counted)
            &&& all.to_multiset() == kept.journal.filter(
                |e: JournalRow| e.overdue(deadline),
            ).to_multiset()
            &&& stages[0] == kept
            &&& stages.last() == after
            &&& n == counted.filter(|b: bool| b).len()
        }
}

impl<S: NodeStore, C: Clock, R: Rng, M: Curves> Node<S, C, R, M> {
    /// Build and locally register a signal for emission at an instant.
    ///
    /// The signal is stamped with this node's identity and marked seen, so a
    /// node never processes its own emission as an arrival.
    pub fn emit_at(&mut self, builder: SignalBuilder, now_ns: u64) -> (r: Result<Signal, Error>)
        requires
            old(self).inv(),
        ensures
            old(self).same_node(&*final(self)),
            final(self).gate() == old(self).gate(),
            r matches Ok(signal) ==> {
                &&& signal@ == builder@.built(old(self).me(), now_ns, signal.id)
                &&& signal.id@ == ulid_of(
                    (now_ns / 1_000_000) as u64,
                    randomness_of(old(self).random().draw(0), old(self).random().draw(1)),
                )
                &&& final(self).kept() == old(self).kept().marked(
                    signal.id,
                    now_ns,
                    old(self).setup().propagation.dedup_cache_seconds,
                )
                &&& old(self).setup().propagation.dedup_cache_seconds > 0 && now_ns < u64::MAX
                    ==> final(self).kept().sees(signal.id, now_ns)
            },
            forall|k: nat| #[trigger]
                final(self).random().draw(k) == old(self).random().draw(k + 2),
            r matches Err(e) ==> e is Serialization,
            old(self).dependable() ==> r is Ok,
    {
        let id = SignalId::generate_at(now_ns, &mut self.rng);
        let signal = builder.build_at(self.identity.clone(), now_ns, id);
        match self.store.check_and_set_seen(
            &signal.id,
            now_ns,
            self.config.propagation.dedup_cache_seconds,
        ) {
            Ok(_) => Ok(signal),
            Err(e) => Err(Error::Serialization(SerializationError::Store(e))),
        }
    }

    /// Build and locally register a signal for emission.
    pub fn emit(&mut self, builder: SignalBuilder) -> (r: Result<Signal, Error>)
        requires
            old(self).inv(),
        ensures
            old(self).same_node(&*final(self)),
            final(self).gate() == old(self).gate(),
            r matches Ok(signal) ==> {
                &&& old(self).tells(signal.timestamp)
                &&& signal@ == builder@.built(old(self).me(), signal.timestamp, signal.id)
                &&& signal.id@ == ulid_of(
                    (signal.timestamp / 1_000_000) as u64,
                    randomness_of(old(self).random().draw(0), old(self).random().draw(1)),
                )
                &&& final(self).kept() == old(self).kept().marked(
                    signal.id,
                    signal.timestamp,
                    old(self).setup().propagation.dedup_cache_seconds,
                )
                &&& old(self).setup().propagation.dedup_cache_seconds > 0 && signal.timestamp < u64::MAX
                    ==> final(self).kept().sees(signal.id, signal.timestamp)
            },
            forall|k: nat| #[trigger]
                final(self).random().draw(k) == old(self).random().draw(k + 2),
            r matches Err(e) ==> e is Serialization,
            old(self).dependable() ==> r is Ok,
    {
        let now: u64 = self.clock.now_ns();
        self.emit_at(builder, now)
    }

    /// Plan forwarding, at an instant, for a signal that this node emitted.
    pub fn receive_local_at(&mut self, signal: &Signal, now_ns: u64) -> (r: Result<
        Disposition,
        Error,
    >)
        requires
            old(self).inv(),
        ensures
            old(self).same_node(&*final(self)),
            final(self).gate() == old(self).gate(),
            r matches Ok(d) ==> receives_locally(
                old(self).host(),
                old(self).kept(),
                old(self).setup(),
                old(self).me(),
                signal@,
                now_ns,
                old(self).random(),
                final(self).random(),
                final(self).kept(),
                d@,
            ),
            r matches Err(e) ==> e is Serialization,
            old(self).dependable() && r is Err ==> final(self).kept().issued == u64::MAX,
    {
        assert(signal@.trace.len() == signal.trace@.len());
        let hops: u16 = signal.trace.len() as u16;
        if let Err(reason) = check_propagable(signal, &self.identity, &self.config.propagation) {
            return Ok(Disposition::refuse(signal, reason, hops));
        }
        let ghost before = self.random();
        let ghost kept = self.kept();
        let forward_to = match self.plan_forwarding(signal, None, now_ns) {
            Ok(list) => list,
            Err(e) => return Err(e),
        };
        assert(forward_rows(forward_to@).len() == forward_to@.len());
        let ghost wanted = forward_rows(forward_to@);
        assert(plans(
            old(self).host(),
            kept,
            self.setup(),
            signal@,
            None,
            now_ns,
            before,
            self.random(),
            wanted,
            self.kept(),
        ));
        if forward_to.len() == 0 && signal.requires_receipt() && !flood_depth_reached(signal) {
            return Ok(Disposition::refuse(signal, RejectReason::NoRoute, hops));
        }
        let mut d = Disposition::nothing();
        d.forward_to = forward_to;
        Ok(d)
    }

    /// Plan forwarding for a signal that this node emitted itself.
    ///
    /// Apart from [`Self::receive`], which would find the signal claimed by its
    /// emission and drop it. There is no admission control either: a node does
    /// not throttle its own traffic.
    pub fn receive_local(&mut self, signal: &Signal) -> (r: Result<Disposition, Error>)
        requires
            old(self).inv(),
        ensures
            old(self).same_node(&*final(self)),
            final(self).gate() == old(self).gate(),
            r matches Ok(d) ==> exists|now_ns: u64|
                old(self).tells(now_ns) && #[trigger] receives_locally(
                    old(self).host(),
                    old(self).kept(),
                    old(self).setup(),
                    old(self).me(),
                    signal@,
                    now_ns,
                    old(self).random(),
                    final(self).random(),
                    final(self).kept(),
                    d@,
                ),
            r matches Err(e) ==> e is Serialization,
            old(self).dependable() && r is Err ==> final(self).kept().issued == u64::MAX,
    {
        let now: u64 = self.clock.now_ns();
        self.receive_local_at(signal, now)
    }

    /// Decide, at an instant, what to do with an arriving signal.
    #[verifier::rlimit(60)]
    pub fn receive_at(
        &mut self,
        signal: &Signal,
        arrival_synapse: Option<&SynapseId>,
        now_ns: u64,
    ) -> (r: Result<Disposition, Error>)
        requires
            old(self).inv(),
        ensures
            old(self).same_node(&*final(self)),
            r matches Ok(d) ==> receives(
                old(self).host(),
                old(self).kept(),
                old(self).dependable(),
                old(self).gate(),
                old(self).setup(),
                old(self).me(),
                signal@,
                id_text(arrival_synapse),
                now_ns,
                old(self).random(),
                final(self).random(),
                final(self).gate(),
                final(self).kept(),
                d@,
            ),
            r matches Err(e) ==> e is Serialization,
            old(self).dependable() && r is Err ==> final(self).kept().issued == u64::MAX,
    {
        let ghost arrival = id_text(arrival_synapse);
        let ghost gate = self.gate();
        let ghost setup = self.setup();
        let ghost before = self.random();
        assert(signal@.trace.len() == signal.trace@.len());
        let hops: u16 = signal.trace.len() as u16;
        let seen: bool = match self.store.check_and_set_seen(
            &signal.id,
            now_ns,
            self.config.propagation.dedup_cache_seconds,
        ) {
            Ok(seen) => seen,
            Err(e) => return Err(Error::Serialization(SerializationError::Store(e))),
        };
        let ghost marked = self.kept();
        if seen {
            return Ok(Disposition::nothing());
        }
        if let Err(reason) = check_propagable(signal, &self.identity, &self.config.propagation) {
            return Ok(Disposition::refuse(signal, reason, hops));
        }
        let one = Scalar::from_bits(ONE);
        let lent: Scalar = match arrival_synapse {
            Some(id) => match self.store.get_synapse(id) {
                Ok(Some(record)) => record.weight,
                _ => one,
            },
            None => one,
        };
        assert(lent == arrival_weight(marked, arrival) || (!old(self).dependable() && lent
            == Scalar::from_bits(ONE)));
        let queued = QueuedSignal {
            id: signal.id,
            origin: signal.origin.clone(),
            weight: signal.weight,
            delivery: signal.delivery,
            enqueued_at_ns: now_ns,
        };
        let ghost row = queue_row_of(signal@, now_ns);
        assert(queued@ == row);
        let outcome = self.activation.offer(queued, lent, now_ns, &mut self.rng, &self.curves);
        let ghost fired = queue_rows(outcome.fired@);
        let ghost middle = self.random();
        let mut evicted: Option<Evicted> = None;
        match outcome.dropped {
            Some(dropped) => {
                let reason = match outcome.drop_reason {
                    Some(reason) => reason,
                    None => RejectReason::QueueFull,
                };
                if dropped.id == signal.id {
                    let mut d = Disposition::refuse(signal, reason, hops);
                    d.handle_locally = outcome.fired;
                    assert(receives_with(
                        old(self).host(),
                        marked,
                        gate,
                        setup,
                        signal@,
                        arrival,
                        now_ns,
                        before,
                        self.random(),
                        self.gate(),
                        self.kept(),
                        d@,
                        lent,
                        middle,
                        fired,
                    ));
                    return Ok(d);
                }
                evicted = Some(Evicted { signal: dropped, reason });
            },
            None => {},
        }
        assert(evicted_row(evicted) == displaced(gate, row));
        if !was_released(&outcome.fired, signal.id) {
            // Held, not refused.
            let mut d = Disposition::nothing();
            d.handle_locally = outcome.fired;
            d.evicted = evicted;
            d.queued = true;
            assert(receives_with(
                old(self).host(),
                marked,
                gate,
                setup,
                signal@,
                arrival,
                now_ns,
                before,
                self.random(),
                self.gate(),
                self.kept(),
                d@,
                lent,
                middle,
                fired,
            ));
            return Ok(d);
        }
        let forward_to = match self.plan_forwarding(signal, arrival_synapse, now_ns) {
            Ok(list) => list,
            Err(e) => return Err(e),
        };
        let ghost wanted = forward_rows(forward_to@);
        assert(wanted.len() == forward_to@.len());
        assert(plans(
            old(self).host(),
            marked,
            setup,
            signal@,
            arrival,
            now_ns,
            middle,
            self.random(),
            wanted,
            self.kept(),
        ));
        let d = if forward_to.len() == 0 && signal.requires_receipt() && !flood_depth_reached(
            signal,
        ) {
            let mut d = Disposition::refuse(signal, RejectReason::NoRoute, hops);
            d.handle_locally = leave_out(&outcome.fired, signal.id);
            d.evicted = evicted;
            d
        } else {
            let mut d = Disposition::nothing();
            d.forward_to = forward_to;
            d.handle_locally = outcome.fired;
            d.evicted = evicted;
            d
        };
        assert(receives_with(
            old(self).host(),
            marked,
            gate,
            setup,
            signal@,
            arrival,
            now_ns,
            before,
            self.random(),
            self.gate(),
            self.kept(),
            d@,
            lent,
            middle,
            fired,
        ));
        Ok(d)
    }

    /// Decide what to do with an arriving signal.
    pub fn receive(&mut self, signal: &Signal, arrival_synapse: Option<&SynapseId>) -> (r: Result<
        Disposition,
        Error,
    >)
        requires
            old(self).inv(),
        ensures
            old(self).same_node(&*final(self)),
            r matches Ok(d) ==> exists|now_ns: u64|
                old(self).tells(now_ns) && #[trigger] receives(
                    old(self).host(),
                    old(self).kept(),
                    old(self).dependable(),
                    old(self).gate(),
                    old(self).setup(),
                    old(self).me(),
                    signal@,
                    id_text(arrival_synapse),
                    now_ns,
                    old(self).random(),
                    final(self).random(),
                    final(self).gate(),
                    final(self).kept(),
                    d@,
                ),
            r matches Err(e) ==> e is Serialization,
            old(self).dependable() && r is Err ==> final(self).kept().issued == u64::MAX,
    {
        let now: u64 = self.clock.now_ns();
        self.receive_at(signal, arrival_synapse, now)
    }

    /// Plan forwarding for a signal that the activation gate has released.
    ///
    /// The activation gate is a queue: a signal can be let in on one arrival
    /// and released later, and needs its route then. It has passed
    /// deduplication and admission already.
    pub fn plan_release(&mut self, signal: &Signal, arrival_synapse: Option<&SynapseId>) -> (r:
        Result<Vec<Forward>, Error>)
        requires
            old(self).inv(),
        ensures
            old(self).same_node(&*final(self)),
            final(self).gate() == old(self).gate(),
            r matches Ok(list) ==> exists|now_ns: u64|
                old(self).tells(now_ns) && #[trigger] plans(
                    old(self).host(),
                    old(self).kept(),
                    old(self).setup(),
                    signal@,
                    id_text(arrival_synapse),
                    now_ns,
                    old(self).random(),
                    final(self).random(),
                    forward_rows(list@),
                    final(self).kept(),
                ),
            r matches Err(e) ==> e is Serialization,
            old(self).dependable() && r is Err ==> final(self).kept().issued == u64::MAX,
    {
        let now: u64 = self.clock.now_ns();
        self.plan_forwarding(signal, arrival_synapse, now)
    }

    /// Record that a forwarding decision could not be transmitted.
    ///
    /// Left pending, it would time out later and be held against the path
    /// rather than the transport.
    pub fn fail_forward(&mut self, journal_id: JournalId) -> (r: Result<
        Option<WeightUpdate>,
        Error,
    >)
        requires
            old(self).inv(),
        ensures
            old(self).same_node(&*final(self)),
            final(self).gate() == old(self).gate(),
            final(self).random() == old(self).random(),
            r matches Ok(update) ==> exists|now_ns: u64|
                old(self).tells(now_ns) && #[trigger] resolves::<S>(
                    old(self).kept(),
                    old(self).setup(),
                    journal_id,
                    Outcome::TransportFailure,
                    now_ns,
                    update,
                    final(self).kept(),
                ),
            r matches Err(e) ==> e is Serialization,
            old(self).dependable() ==> r is Ok,
    {
        let now: u64 = self.clock.now_ns();
        self.resolve(journal_id, Outcome::TransportFailure, now)
    }

    /// Apply a receipt at an instant.
    pub fn apply_receipt_at(&mut self, receipt: &Receipt, from_peer: &NodeId, now_ns: u64) -> (r:
        Result<Option<WeightUpdate>, Error>)
        requires
            old(self).inv(),
        ensures
            old(self).same_node(&*final(self)),
            final(self).gate() == old(self).gate(),
            final(self).random() == old(self).random(),
            r matches Ok(update) ==> receipt_applied::<S>(
                old(self).kept(),
                old(self).setup(),
                *receipt,
                from_peer@,
                now_ns,
                update,
                final(self).kept(),
            ),
            r matches Err(e) ==> e is Serialization,
            old(self).dependable() ==> r is Ok,
    {
        let ghost kept = self.kept();
        let found = match self.store.pending_decision_for(&receipt.correlation_id, from_peer) {
            Ok(found) => found,
            Err(e) => return Err(Error::Serialization(SerializationError::Store(e))),
        };
        let pending = match found {
            Some(entry) => entry,
            None => return Ok(None),
        };
        proof {
            let i = kept.journal.index_of(pending@);
            assert(kept.journal[i] == pending@);
            assert(kept.journal[i].awaits(receipt.correlation_id, from_peer@));
        }
        match pending.id {
            Some(id) => self.resolve(id, receipt.outcome(), now_ns),
            None => Ok(None),
        }
    }

    /// Apply a receipt: resolve its decision and update the synapse weight.
    ///
    /// A receipt that matches no pending decision is discarded: forged receipts
    /// would otherwise be the cheapest way to mislead the routing model.
    pub fn apply_receipt(&mut self, receipt: &Receipt, from_peer: &NodeId) -> (r: Result<
        Option<WeightUpdate>,
        Error,
    >)
        requires
            old(self).inv(),
        ensures
            old(self).same_node(&*final(self)),
            final(self).gate() == old(self).gate(),
            final(self).random() == old(self).random(),
            r matches Ok(update) ==> exists|now_ns: u64|
                old(self).tells(now_ns) && #[trigger] receipt_applied::<S>(
                    old(self).kept(),
                    old(self).setup(),
                    *receipt,
                    from_peer@,
                    now_ns,
                    update,
                    final(self).kept(),
                ),
            r matches Err(e) ==> e is Serialization,
            old(self).dependable() ==> r is Ok,
    {
        let now: u64 = self.clock.now_ns();
        self.apply_receipt_at(receipt, from_peer, now)
    }

    /// Convert decisions past their deadline at an instant into timeouts.
    #[verifier::rlimit(60)]
    pub fn sweep_timeouts_at(&mut self, limit: usize, now_ns: u64) -> (r: Result<usize, Error>)
        requires
            old(self).inv(),
        ensures
            old(self).same_node(&*final(self)),
            final(self).gate() == old(self).gate(),
            final(self).random() == old(self).random(),
            r matches Ok(n) ==> sweeps::<S>(
                old(self).kept(),
                old(self).setup(),
                now_ns,
                limit,
                n as int,
                final(self).kept(),
            ),
            r matches Err(e) ==> e is Serialization,
            old(self).dependable() ==> r is Ok,
    {
        let ghost kept = self.kept();
        let ghost setup = self.setup();
        let deadline: u64 = self.config.learning.receipt_deadline(now_ns);
        let expired = match self.store.expired_decisions(deadline, limit) {
            Ok(list) => list,
            Err(e) => return Err(Error::Serialization(SerializationError::Store(e))),
        };
        let ghost all = choose|all: Seq<JournalRow>|
            #![trigger limited(all, limit as int)]
            journal_rows(expired@) == limited(all, limit as int) && all.to_multiset()
                == kept.journal.filter(|e: JournalRow| e.overdue(deadline)).to_multiset();
        let ghost entries = journal_rows(expired@);
        let ghost mut stages: Seq<StoreModel> = seq![kept];
        let ghost mut counted: Seq<bool> = Seq::empty();
        let mut done: usize = 0;
        let mut i: usize = 0;
        proof {
            reveal(Seq::filter);
            assert(counted.filter(|b: bool| b) =~= Seq::<bool>::empty());
        }
        while i < expired.len()
            invariant
                i <= expired@.len(),
                entries == journal_rows(expired@),
                stages.len() == i + 1,
                counted.len() == i,
                stages[0] == kept,
                stages[i as int] == self.kept(),
                forall|k: int|
                    0 <= k < i ==> swept_one::<S>(
                        stages[k],
                        setup,
                        #[trigger] entries[k],
                        now_ns,
                        counted[k],
                        stages[k + 1],
                    ),
                done == counted.filter(|b: bool| b).len(),
                done <= i,
                self.me() == old(self).me(),
                self.setup() == setup,
                self.host() == old(self).host(),
                self.ticker() == old(self).ticker(),
                setup == old(self).setup(),
                self.gate() == old(self).gate(),
                self.random() == old(self).random(),
                self.inv(),
                old(self).dependable() ==> self.dependable(),
            decreases expired@.len() - i,
        {
            let ghost stages_before = stages;
            let ghost counted_before = counted;
            let ghost now_kept = self.kept();
            let mut counts: bool = false;
            assert(entries[i as int] == expired@[i as int]@);
            if let Some(id) = expired[i].id {
                match self.resolve(id, Outcome::TimedOut, now_ns) {
                    Ok(update) => {
                        assert(resolves::<S>(
                            now_kept,
                            setup,
                            id,
                            Outcome::TimedOut,
                            now_ns,
                            update,
                            self.kept(),
                        ));
                        counts = update.is_some();
                    },
                    Err(e) => return Err(e),
                }
            }
            if counts {
                done = done + 1;
            }
            proof {
                assert(swept_one::<S>(
                    now_kept,
                    setup,
                    entries[i as int],
                    now_ns,
                    counts,
                    self.kept(),
                ));
                stages = stages.push(self.kept());
                counted = counted.push(counts);
                assert forall|k: int| 0 <= k < i + 1 implies swept_one::<S>(
                    stages[k],
                    setup,
                    #[trigger] entries[k],
                    now_ns,
                    counted[k],
                    stages[k + 1],
                ) by {
                    if k < i {
                        assert(stages[k] == stages_before[k]);
                        assert(stages[k + 1] == stages_before[k + 1]);
                        assert(counted[k] == counted_before[k]);
                    }
                }
                reveal(Seq::filter);
                assert(counted.drop_last() =~= counted_before);
            }
            i = i + 1;
        }
        proof {
            assert(swept::<S>(setup, limited(all, limit as int), now_ns, stages, counted));
        }
        Ok(done)
    }

    /// Convert decisions past their deadline into timeouts and learn from them,
    /// returning how many there were.
    ///
    /// This is what makes failure observable: a path that never delivers
    /// produces no receipt, and would look like one that was never tried.
    pub fn sweep_timeouts(&mut self, limit: usize) -> (r: Result<usize, Error>)
        requires
            old(self).inv(),
        ensures
            old(self).same_node(&*final(self)),
            final(self).gate() == old(self).gate(),
            final(self).random() == old(self).random(),
            r matches Ok(n) ==> exists|now_ns: u64|
                old(self).tells(now_ns) && #[trigger] sweeps::<S>(
                    old(self).kept(),
                    old(self).setup(),
                    now_ns,
                    limit,
                    n as int,
                    final(self).kept(),
                ),
            r matches Err(e) ==> e is Serialization,
            old(self).dependable() ==> r is Ok,
    {
        let now: u64 = self.clock.now_ns();
        self.sweep_timeouts_at(limit, now)
    }

    /// Penalise, at an instant, a synapse whose peer presented an unverifiable
    /// signature.
    pub fn penalize_signature_failure_at(&mut self, synapse_id: &SynapseId, now_ns: u64) -> (r:
        Result<Option<SignatureFailureOutcome>, Error>)
        requires
            old(self).inv(),
        ensures
            old(self).same_node(&*final(self)),
            final(self).gate() == old(self).gate(),
            final(self).random() == old(self).random(),
            r matches Ok(result) ==> penalises(
                old(self).kept(),
                old(self).setup(),
                synapse_id@,
                now_ns,
                result,
                final(self).kept(),
            ),
            r matches Err(e) ==> e is Serialization,
            old(self).dependable() ==> r is Ok,
    {
        let record = match self.store.get_synapse(synapse_id) {
            Ok(Some(record)) => record,
            Ok(None) => return Ok(None),
            Err(e) => return Err(Error::Serialization(SerializationError::Store(e))),
        };
        let mut synapse = Synapse::from_record(
            &record,
            self.identity.clone(),
            &self.config.synapse,
        );
        let result = synapse.apply_signature_failure(now_ns, &self.config.learning);
        match self.store.put_synapse(&synapse.to_record()) {
            Ok(()) => Ok(Some(result)),
            Err(e) => Err(Error::Serialization(SerializationError::Store(e))),
        }
    }

    /// Penalise a synapse whose peer presented an unverifiable signature.
    pub fn penalize_signature_failure(&mut self, synapse_id: &SynapseId) -> (r: Result<
        Option<SignatureFailureOutcome>,
        Error,
    >)
        requires
            old(self).inv(),
        ensures
            old(self).same_node(&*final(self)),
            final(self).gate() == old(self).gate(),
            final(self).random() == old(self).random(),
            r matches Ok(result) ==> exists|now_ns: u64|
                old(self).tells(now_ns) && #[trigger] penalises(
                    old(self).kept(),
                    old(self).setup(),
                    synapse_id@,
                    now_ns,
                    result,
                    final(self).kept(),
                ),
            r matches Err(e) ==> e is Serialization,
            old(self).dependable() ==> r is Ok,
    {
        let now: u64 = self.clock.now_ns();
        self.penalize_signature_failure_at(synapse_id, now)
    }

    /// Register a synapse to a peer at an instant.
    pub fn upsert_synapse_at(&mut self, peer: &NodeId, now_ns: u64) -> (r: Result<
        SynapseRecord,
        Error,
    >)
        requires
            old(self).inv(),
        ensures
            old(self).same_node(&*final(self)),
            final(self).gate() == old(self).gate(),
            r matches Ok(record) ==> registers(
                old(self).kept(),
                old(self).setup(),
                peer@,
                now_ns,
                old(self).random(),
                record@,
                final(self).kept(),
            ),
            r matches Err(e) ==> e is Serialization || (e is CoolingDown && registering_waits(
                old(self).kept(),
                old(self).setup(),
                peer@,
                now_ns,
            ) && final(self).kept() == old(self).kept() && final(self).random() == old(self).random()),
            r is Ok ==> registering_draws(old(self).kept(), peer@, old(self).random(), final(self).random()),
            old(self).dependable() ==> r is Ok || r->Err_0 is CoolingDown,
    {
        let ghost kept = self.kept();
        let ghost setup = self.setup();
        let ghost before = self.random();
        let found = match self.store.synapse_for_peer(peer) {
            Ok(found) => found,
            Err(e) => return Err(Error::Serialization(SerializationError::Store(e))),
        };
        match found {
            Some(existing) => {
                assert(leads(kept, existing@.id, peer@));
                if existing.state != SynapseState::Pruned {
                    return Ok(existing);
                }
                let until: u64 = existing.last_active_ns.saturating_add(
                    saturating_product(
                        self.config.learning.signature_failure_cooldown_secs,
                        NANOS_PER_SEC,
                    ),
                );
                if now_ns < until {
                    return Err(Error::CoolingDown);
                }
                match self.store.delete_synapse(&existing.id) {
                    Ok(()) => {},
                    Err(e) => return Err(Error::Serialization(SerializationError::Store(e))),
                }
            },
            None => {},
        }
        let mut synapse = Synapse::new_with(
            self.identity.clone(),
            peer.clone(),
            &self.config.synapse,
            now_ns,
            &mut self.rng,
        );
        // The handshake is the transport's, and is complete by now.
        synapse.activate();
        let record = synapse.to_record();
        assert(record@ == connected(setup, peer@, now_ns, before.draw(0), before.draw(1)));
        match self.store.put_synapse(&record) {
            Ok(()) => {},
            Err(e) => return Err(Error::Serialization(SerializationError::Store(e))),
        }
        let known = PeerRecord {
            id: peer.clone(),
            addresses: Vec::new(),
            region: None,
            advertised_types: Vec::new(),
            last_seen_ns: now_ns,
            source: PeerSource::Observed,
        };
        proof {
            assert(known@.addresses =~= Seq::<Seq<char>>::empty());
            assert(known@.advertised_types =~= Seq::<Seq<char>>::empty());
            assert(known@ == observed_peer(peer@, now_ns));
        }
        match self.store.put_peer(&known) {
            Ok(()) => {},
            Err(e) => return Err(Error::Serialization(SerializationError::Store(e))),
        }
        Ok(record)
    }

    /// Register a synapse to a peer, or return the one there is.
    ///
    /// A synapse pruned for signature failures does not form again until its
    /// cooldown has passed.
    pub fn upsert_synapse(&mut self, peer: &NodeId) -> (r: Result<SynapseRecord, Error>)
        requires
            old(self).inv(),
        ensures
            old(self).same_node(&*final(self)),
            final(self).gate() == old(self).gate(),
            r matches Ok(record) ==> exists|now_ns: u64|
                old(self).tells(now_ns) && #[trigger] registers(
                    old(self).kept(),
                    old(self).setup(),
                    peer@,
                    now_ns,
                    old(self).random(),
                    record@,
                    final(self).kept(),
                ),
            r matches Err(e) ==> e is Serialization || (e is CoolingDown && final(self).kept() == old(
                self,
            ).kept() && final(self).random() == old(self).random() && exists|now_ns: u64|
                old(self).tells(now_ns) && #[trigger] registering_waits(
                    old(self).kept(),
                    old(self).setup(),
                    peer@,
                    now_ns,
                )),
            r is Ok ==> registering_draws(old(self).kept(), peer@, old(self).random(), final(self).random()),
            old(self).dependable() ==> r is Ok || r->Err_0 is CoolingDown,
    {
        let now: u64 = self.clock.now_ns();
        self.upsert_synapse_at(peer, now)
    }

    /// Release any signals that the activation queue has held past its latency
    /// guard.
    ///
    /// The guard inside [`Self::receive`] can act only when another signal
    /// arrives, so a node whose traffic goes quiet needs this called now and
    /// then.
    pub fn poll_activation(&mut self) -> (r: Vec<QueuedSignal>)
        requires
            old(self).inv(),
        ensures
            old(self).same_node(&*final(self)),
            final(self).kept() == old(self).kept(),
            final(self).random() == old(self).random(),
            exists|now_ns: u64|
                old(self).tells(now_ns) && if old(self).gate().refractory(now_ns)
                    || !#[trigger] old(self).gate().starving(now_ns) {
                    r@.len() == 0 && final(self).gate() == old(self).gate()
                } else {
                    old(self).gate().fires(now_ns, queue_rows(r@), final(self).gate())
                },
    {
        let now: u64 = self.clock.now_ns();
        let ghost starved = self.gate().starving(now);
        self.activation.drain_if_starving(now)
    }

    /// Persist the activation snapshot at an instant, and drop what has expired.
    pub fn checkpoint_at(&mut self, now_ns: u64) -> (r: Result<(), Error>)
        requires
            old(self).inv(),
        ensures
            old(self).same_node(&*final(self)),
            final(self).gate() == old(self).gate(),
            final(self).random() == old(self).random(),
            r is Ok ==> final(self).kept() == old(self).kept().with_activation(
                crate::store::ActivationSnapshot {
                    potential: old(self).gate().potential,
                    threshold: old(self).gate().threshold,
                    refractory_until_ns: old(self).gate().refractory_until_ns,
                    signals_fired: old(self).gate().signals_fired,
                    taken_at_ns: now_ns,
                },
            ).purged(now_ns).flushed(),
            r matches Err(e) ==> e is Serialization,
            old(self).dependable() ==> r is Ok,
    {
        let snapshot = self.activation.snapshot(now_ns);
        match self.store.save_activation(&snapshot) {
            Ok(()) => {},
            Err(e) => return Err(Error::Serialization(SerializationError::Store(e))),
        }
        match self.store.purge_expired_seen(now_ns) {
            Ok(_) => {},
            Err(e) => return Err(Error::Serialization(SerializationError::Store(e))),
        }
        match self.store.flush() {
            Ok(()) => Ok(()),
            Err(e) => Err(Error::Serialization(SerializationError::Store(e))),
        }
    }

    /// Persist the activation snapshot.
    pub fn checkpoint(&mut self) -> (r: Result<(), Error>)
        requires
            old(self).inv(),
        ensures
            old(self).same_node(&*final(self)),
            final(self).gate() == old(self).gate(),
            final(self).random() == old(self).random(),
            r is Ok ==> final(self).kept().activation is Some && old(self).tells(
                final(self).kept().activation->0.taken_at_ns,
            ) && final(self).kept() == old(
                self,
            ).kept().with_activation(
                crate::store::ActivationSnapshot {
                    potential: old(self).gate().potential,
                    threshold: old(self).gate().threshold,
                    refractory_until_ns: old(self).gate().refractory_until_ns,
                    signals_fired: old(self).gate().signals_fired,
                    taken_at_ns: final(self).kept().activation->0.taken_at_ns,
                },
            ).purged(final(self).kept().activation->0.taken_at_ns).flushed(),
            r matches Err(e) ==> e is Serialization,
            old(self).dependable() ==> r is Ok,
    {
        let now: u64 = self.clock.now_ns();
        self.checkpoint_at(now)
    }

    /// Health of the routing model over its most recent decisions.
    ///
    /// Exploration near zero means that the node has stopped learning; a
    /// pending ratio near one, that it gets no receipts and its weights reflect
    /// nothing.
    pub fn learning_health(&self, sample: usize) -> (r: Result<LearningHealth, Error>)
        ensures
            r matches Ok(health) ==> exists|all: Seq<JournalRow>| #[trigger]
                lists_decisions(self.kept().journal, None, all) && health == LearningHealth::of(
                    limited(all, sample as int),
                ),
            r matches Err(e) ==> e is Serialization,
            self.dependable() ==> r is Ok,
    {
        let recent = match self.store.recent_decisions(None, sample) {
            Ok(list) => list,
            Err(e) => return Err(Error::Serialization(SerializationError::Store(e))),
        };
        let ghost all = choose|all: Seq<JournalRow>| #[trigger]
            lists_decisions(self.kept().journal, None, all) && journal_rows(recent@) == limited(
                all,
                sample as int,
            );
        assert(lists_decisions(self.kept().journal, None, all));
        let ghost entries = journal_rows(recent@);
        if recent.len() == 0 {
            return Ok(LearningHealth::default());
        }
        let mut explored: usize = 0;
        let mut pending: usize = 0;
        let mut delivered: usize = 0;
        let mut i: usize = 0;
        proof {
            reveal(Seq::filter);
        }
        while i < recent.len()
            invariant
                i <= recent@.len(),
                entries == journal_rows(recent@),
                explored <= i,
                pending <= i,
                delivered <= i,
                explored == entries.take(i as int).filter(|e: JournalRow| e.explored).len(),
                pending == entries.take(i as int).filter(
                    |e: JournalRow| e.outcome is Pending,
                ).len(),
                delivered == entries.take(i as int).filter(
                    |e: JournalRow| e.outcome is Delivered,
                ).len(),
            decreases recent@.len() - i,
        {
            proof {
                reveal(Seq::filter);
                assert(entries.take(i + 1).drop_last() =~= entries.take(i as int));
                assert(entries.take(i + 1).last() == entries[i as int]);
            }
            let e = &recent[i];
            if e.explored {
                explored = explored + 1;
            }
            if !e.outcome.is_resolved() {
                pending = pending + 1;
            }
            if e.outcome == Outcome::Delivered {
                delivered = delivered + 1;
            }
            i = i + 1;
        }
        assert(entries.take(entries.len() as int) =~= entries);
        let total = Scalar::from_u64(recent.len() as u64);
        Ok(
            LearningHealth {
                decisions_sampled: recent.len(),
                exploration_ratio: Scalar::from_u64(explored as u64).over(total),
                pending_ratio: Scalar::from_u64(pending as u64).over(total),
                delivery_ratio: Scalar::from_u64(delivered as u64).over(total),
            },
        )
    }
}

/// The clock of a node: the host's, or one that was given.
#[derive(Debug)]
pub enum NodeClock<C: Clock> {
    /// The host's clock.
    Host,
    /// A clock that was given.
    Given(C),
}

impl<C: Clock> Clock for NodeClock<C> {
    fn now_ns(&self) -> (r: u64)
        ensures
            self matches NodeClock::Given(clock) ==> call_ensures(C::now_ns, (&clock,), r),
            self is Host ==> host_tells(r),
    {
        match self {
            NodeClock::Host => SystemClock.now_ns(),
            NodeClock::Given(clock) => clock.now_ns(),
        }
    }
}

/// The generator of a node: one seeded from its identity, or one that was
/// given.
#[derive(Debug)]
pub enum NodeRng<R: Rng> {
    /// Seeded from the node's identity and the time.
    Seeded(SplitMix64),
    /// A generator that was given.
    Given(R),
}

impl<R: Rng> Rng for NodeRng<R> {
    open spec fn draw(&self, k: nat) -> u64 {
        match self {
            NodeRng::Seeded(rng) => rng.draw(k),
            NodeRng::Given(rng) => rng.draw(k),
        }
    }

    fn next_u64(&mut self) -> (r: u64) {
        let ghost before = *self;
        let r: u64 = match self {
            NodeRng::Seeded(rng) => rng.next_u64(),
            NodeRng::Given(rng) => rng.next_u64(),
        };
        assert forall|k: nat| #[trigger] self.draw(k) == before.draw(k + 1) by {
            match before {
                NodeRng::Seeded(was) => {
                    assert(self->Seeded_0.draw(k) == was.draw(k + 1));
                },
                NodeRng::Given(was) => {
                    assert(self->Given_0.draw(k) == was.draw(k + 1));
                },
            }
        }
        r
    }
}

/// The identity that a node without one takes at an instant: four draws of a
/// generator seeded with the instant.
pub open spec fn first_identity(seeded: SplitMix64) -> Seq<u8> {
    le_digits(seeded.draw(0) as int, 8) + le_digits(seeded.draw(1) as int, 8) + le_digits(
        seeded.draw(2) as int,
        8,
    ) + le_digits(seeded.draw(3) as int, 8)
}

/// Whether an identity is the one that a node without one takes at an instant.
pub open spec fn minted_at(now_ns: u64, me: Seq<u8>) -> bool {
    exists|seeded: SplitMix64| seeded@ == now_ns && me == #[trigger] first_identity(seeded)
}

/// The identity that a node without one takes at an instant.
///
/// It identifies, and proves nothing: an identity that is to be proved is
/// derived from a key.
pub fn mint_identity(now_ns: u64) -> (r: NodeId)
    ensures
        minted_at(now_ns, r@),
        r@.len() == 32,
{
    let mut rng = SplitMix64::seeded(now_ns);
    let ghost seeded = rng;
    let mut bytes: Vec<u8> = Vec::new();
    let mut n: usize = 0;
    let ghost parts = |k: int|
        if k == 0 {
            Seq::<u8>::empty()
        } else if k == 1 {
            le_digits(seeded.draw(0) as int, 8)
        } else if k == 2 {
            le_digits(seeded.draw(0) as int, 8) + le_digits(seeded.draw(1) as int, 8)
        } else if k == 3 {
            le_digits(seeded.draw(0) as int, 8) + le_digits(seeded.draw(1) as int, 8) + le_digits(
                seeded.draw(2) as int,
                8,
            )
        } else {
            first_identity(seeded)
        };
    while n < 4
        invariant
            n <= 4,
            bytes@ == parts(n as int),
            bytes@.len() == 8 * n,
            parts == (|k: int|
                if k == 0 {
                    Seq::<u8>::empty()
                } else if k == 1 {
                    le_digits(seeded.draw(0) as int, 8)
                } else if k == 2 {
                    le_digits(seeded.draw(0) as int, 8) + le_digits(seeded.draw(1) as int, 8)
                } else if k == 3 {
                    le_digits(seeded.draw(0) as int, 8) + le_digits(seeded.draw(1) as int, 8)
                        + le_digits(seeded.draw(2) as int, 8)
                } else {
                    first_identity(seeded)
                }),
            forall|k: nat| #[trigger] rng.draw(k) == seeded.draw(k + n as nat),
        decreases 4 - n,
    {
        let ghost before = rng;
        let ghost was = bytes@;
        let draw: u64 = rng.next_u64();
        assert(draw == seeded.draw(n as nat)) by {
            assert(before.draw(0) == seeded.draw(0 + n as nat));
        }
        let mut part = le_bytes(draw);
        proof {
            lemma_le_digits_len(draw as int, 8);
        }
        bytes.append(&mut part);
        proof {
            assert(bytes@ =~= was + le_digits(draw as int, 8));
            assert(was + le_digits(draw as int, 8) =~= parts(n + 1));
            assert forall|k: nat| #[trigger] rng.draw(k) == seeded.draw(k + (n + 1) as nat) by {
                assert(rng.draw(k) == before.draw(k + 1));
                assert(before.draw(k + 1) == seeded.draw(k + 1 + n as nat));
            }
        }
        n = n + 1;
    }
    assert(seeded@ == now_ns);
    NodeId(bytes)
}

/// Builder of a [`Node`].
#[derive(Debug)]
pub struct NodeBuilder<S: NodeStore, C: Clock, R: Rng, M: Curves> {
    config: Option<NodeConfig>,
    identity: Option<NodeId>,
    store: Option<S>,
    clock: Option<C>,
    rng: Option<R>,
    curves: M,
}

/// A node as a builder makes it.
pub type BuiltNode<S, C, R, M> = Node<S, NodeClock<C>, NodeRng<R>, M>;

impl<S: NodeStore, C: Clock, R: Rng, M: Curves> NodeBuilder<S, C, R, M> {
    /// The configuration to build with.
    pub closed spec fn setup(&self) -> NodeSetup {
        match self.config {
            Some(config) => config@,
            None => NodeSetup::defaults(),
        }
    }

    /// The identity to build with, if one was given.
    pub closed spec fn given_identity(&self) -> Option<Seq<u8>> {
        match self.identity {
            Some(id) => Some(id@),
            None => None,
        }
    }

    /// The store to build with, if one was given.
    pub closed spec fn given_store(&self) -> Option<S> {
        self.store
    }

    /// The clock to build with, if one was given.
    pub closed spec fn given_clock(&self) -> Option<C> {
        self.clock
    }

    /// The generator to build with, if one was given.
    pub closed spec fn given_rng(&self) -> Option<R> {
        self.rng
    }

    /// The curves to build with.
    pub closed spec fn given_curves(&self) -> M {
        self.curves
    }

    /// A builder with nothing configured. The host supplies the curves.
    pub fn new(curves: M) -> (r: Self)
        ensures
            r.setup() == NodeSetup::defaults(),
            r.given_identity() is None,
            r.given_store() is None,
            r.given_clock() is None,
            r.given_rng() is None,
            r.given_curves() == curves,
    {
        NodeBuilder { config: None, identity: None, store: None, clock: None, rng: None, curves }
    }

    /// Supply the configuration.
    pub fn with_config(self, config: NodeConfig) -> (r: Self)
        ensures
            r.setup() == config@,
            r.given_identity() == self.given_identity(),
            r.given_store() == self.given_store(),
            r.given_clock() == self.given_clock(),
            r.given_rng() == self.given_rng(),
            r.given_curves() == self.given_curves(),
    {
        let mut r = self;
        r.config = Some(config);
        r
    }

    /// Set this node's identity. Without it the node takes the one its store
    /// holds, or mints one.
    pub fn with_identity(self, identity: NodeId) -> (r: Self)
        ensures
            r.setup() == self.setup(),
            r.given_identity() == Some(identity@),
            r.given_store() == self.given_store(),
            r.given_clock() == self.given_clock(),
            r.given_rng() == self.given_rng(),
            r.given_curves() == self.given_curves(),
    {
        let mut r = self;
        r.identity = Some(identity);
        r
    }

    /// Set the storage backend.
    pub fn with_store(self, store: S) -> (r: Self)
        ensures
            r.setup() == self.setup(),
            r.given_identity() == self.given_identity(),
            r.given_store() == Some(store),
            r.given_clock() == self.given_clock(),
            r.given_rng() == self.given_rng(),
            r.given_curves() == self.given_curves(),
    {
        let mut r = self;
        r.store = Some(store);
        r
    }

    /// Set the clock. Without it the node reads the host's.
    pub fn with_clock(self, clock: C) -> (r: Self)
        ensures
            r.setup() == self.setup(),
            r.given_identity() == self.given_identity(),
            r.given_store() == self.given_store(),
            r.given_clock() == Some(clock),
            r.given_rng() == self.given_rng(),
            r.given_curves() == self.given_curves(),
    {
        let mut r = self;
        r.clock = Some(clock);
        r
    }

    /// Set the randomness source. Without it the node seeds one from its
    /// identity and the time.
    pub fn with_rng(self, rng: R) -> (r: Self)
        ensures
            r.setup() == self.setup(),
            r.given_identity() == self.given_identity(),
            r.given_store() == self.given_store(),
            r.given_clock() == self.given_clock(),
            r.given_rng() == Some(rng),
            r.given_curves() == self.given_curves(),
    {
        let mut r = self;
        r.rng = Some(rng);
        r
    }

    /// Build the node: validate the configuration, migrate the store, settle
    /// the identity, and restore the activation gate.
    pub fn build(self) -> (r: Result<BuiltNode<S, C, R, M>, Error>)
        ensures
            !self.setup().valid() ==> (r matches Err(Error::Config(e)) && self.setup().is_fault(e)),
            self.given_store() is None ==> (r matches Err(Error::Config(_))),
            self.setup().valid() && self.given_store() is None ==> (r matches Err(
                Error::Config(ConfigError::NoStore),
            )),
            self.setup().valid() && self.given_store() is Some
                && self.given_store()->0.reliable() ==> r is Ok,
            r matches Err(e) ==> e matches Error::Config(fault) && match fault {
                ConfigError::NoStore => self.setup().valid() && self.given_store() is None,
                ConfigError::Migration(_) => self.setup().valid() && self.given_store() is Some,
                ConfigError::Store(_) => self.setup().valid() && self.given_store() is Some,
                _ => !self.setup().valid() && self.setup().is_fault(fault),
            },
            r matches Ok(node) ==> self.given_store() is Some && self.setup().valid() && builds(
                self.given_store()->0.model(),
                self.setup(),
                self.given_identity(),
                node.me(),
                node.kept(),
                node.gate(),
            ) && node.inv() && node.setup() == self.setup() && (
            self.given_store()->0.reliable() ==> node.dependable()) && node.ticker() == (
            match self.given_clock() {
                Some(clock) => NodeClock::Given(clock),
                None => NodeClock::Host,
            }) && node.host() == self.given_curves() && exists|now_ns: u64| #[trigger]
                node.tells(now_ns) && (self.given_identity() is None
                    && !self.given_store()->0.model().meta.dom().contains("node-id"@)
                    ==> minted_at(now_ns, node.me())) && match self.given_rng() {
                    Some(rng) => node.random() == NodeRng::Given(rng),
                    None => node.random() is Seeded && node.random()->Seeded_0@ == absorbed(
                        now_ns,
                        node.me(),
                    ),
                },
    {
        let config = match self.config {
            Some(config) => config,
            None => NodeConfig::default(),
        };
        match config.validate() {
            Ok(()) => {},
            Err(e) => return Err(Error::Config(e)),
        }
        let mut store = match self.store {
            Some(store) => store,
            None => return Err(Error::Config(ConfigError::NoStore)),
        };
        match store.migrate() {
            Ok(()) => {},
            Err(e) => return Err(Error::Config(ConfigError::Migration(e))),
        }
        let clock: NodeClock<C> = match self.clock {
            Some(clock) => NodeClock::Given(clock),
            None => NodeClock::Host,
        };
        let now: u64 = clock.now_ns();
        let identity = match self.identity {
            Some(id) => {
                match store.put_meta("node-id", &id.0) {
                    Ok(()) => {},
                    Err(e) => return Err(Error::Config(ConfigError::Store(e))),
                }
                id
            },
            None => {
                let known = match store.get_meta("node-id") {
                    Ok(found) => found,
                    Err(e) => return Err(Error::Config(ConfigError::Store(e))),
                };
                match known {
                    Some(bytes) => NodeId(bytes),
                    None => {
                        let id = mint_identity(now);
                        match store.put_meta("node-id", &id.0) {
                            Ok(()) => {},
                            Err(e) => return Err(Error::Config(ConfigError::Store(e))),
                        }
                        id
                    },
                }
            },
        };
        let rng: NodeRng<R> = match self.rng {
            Some(rng) => NodeRng::Given(rng),
            None => NodeRng::Seeded(SplitMix64::from_identity(identity.0.as_slice(), now)),
        };
        let mut activation = ActivationState::new(&config.activation);
        match store.load_activation() {
            // Dropping it would make a restart a free reset of backpressure.
            Ok(Some(snapshot)) => activation.restore(&snapshot),
            Ok(None) => {},
            Err(e) => return Err(Error::Config(ConfigError::Store(e))),
        }
        let node = Node { identity, config, store, clock, rng, curves: self.curves, activation };
        assert(node.tells(now));
        Ok(node)
    }
}

/// Whether a node's identity, store and gate are what building it gives. The
/// store is brought up to date first, and the identity persists, so that a node keeps the synapses it has formed.
pub open spec fn builds(
    kept: StoreModel,
    setup: NodeSetup,
    given: Option<Seq<u8>>,
    me: Seq<u8>,
    after: StoreModel,
    gate: GateModel,
) -> bool {
    &&& match given {
        Some(id) => me == id && after == kept.up_to_date().with_meta("node-id"@, id),
        None => if kept.meta.dom().contains("node-id"@) {
            me == kept.meta["node-id"@] && after == kept.up_to_date()
        } else {
            &&& after == kept.up_to_date().with_meta("node-id"@, me)
            &&& exists|now_ns: u64| #[trigger] minted_at(now_ns, me)
        },
    }
    &&& gate == (match kept.activation {
        Some(snapshot) => GateModel::initial(setup.activation).restored(snapshot),
        None => GateModel::initial(setup.activation),
    })
}

/// A node rebuilt from its store without a given identity is the same node.
pub proof fn lemma_identity_survives_a_restart(
    kept: StoreModel,
    setup: NodeSetup,
    given: Option<Seq<u8>>,
    me: Seq<u8>,
    after: StoreModel,
    gate: GateModel,
    again: Seq<u8>,
    later: StoreModel,
    later_gate: GateModel,
)
    requires
        builds(kept, setup, given, me, after, gate),
        builds(after, setup, None, again, later, later_gate),
    ensures
        again == me,
        later == after,
{
}

/// The delivery class for a transactional emission.
pub fn transactional() -> (r: DeliveryClass)
    ensures
        r == DeliveryClass::Acknowledged,
{
    DeliveryClass::Acknowledged
}

/// Look up a signal in the deduplication cache without inserting it.
pub fn has_seen<S: NodeStore>(store: &S, id: &SignalId, now_ns: u64) -> (r: Result<bool, Error>)
    ensures
        r matches Ok(seen) ==> seen == store.model().sees(*id, now_ns),
        r matches Err(e) ==> e is Serialization,
        store.reliable() ==> r is Ok,
{
    match store.has_seen(id, now_ns) {
        Ok(seen) => Ok(seen),
        Err(e) => Err(Error::Serialization(SerializationError::Store(e))),
    }
}

/// Delivery is never silent: an acknowledged signal that a node has not seen
/// before is held, released for local handling, or answered; and another signal
/// that it displaced is named.
pub proof fn lemma_nothing_is_lost_silently<R: Rng, M: Curves>(
    curves: M,
    kept: StoreModel,
    answers: bool,
    gate: GateModel,
    setup: NodeSetup,
    local: Seq<u8>,
    signal: SignalModel,
    arrival: Option<Seq<char>>,
    now_ns: u64,
    before: R,
    after: R,
    gate_after: GateModel,
    kept_after: StoreModel,
    d: DispositionModel,
)
    requires
        signal.delivery is Acknowledged,
        !kept.sees(signal.id, now_ns),
        receives(
            curves,
            kept,
            answers,
            gate,
            setup,
            local,
            signal,
            arrival,
            now_ns,
            before,
            after,
            gate_after,
            kept_after,
            d,
        ),
    ensures
        d.queued || released(d.handle_locally, signal.id) || d.receipt is Some,
        ({
            let row = queue_row_of(signal, now_ns);
            let dropped = gate.dropped_for(row);
            obstacle(signal, local, setup.propagation.min_propagation_weight) is None && dropped
                is Some && dropped->0.id != signal.id ==> d.evicted == Some(
                (dropped->0, RejectReason::QueueFull),
            )
        }),
{
}

/// A node does not process its own emission as an arrival, for as long as it
/// remembers signals.
pub proof fn lemma_own_emissions_do_not_arrive<R: Rng, M: Curves>(
    curves: M,
    kept: StoreModel,
    answers: bool,
    gate: GateModel,
    setup: NodeSetup,
    local: Seq<u8>,
    signal: SignalModel,
    arrival: Option<Seq<char>>,
    emitted_ns: u64,
    now_ns: u64,
    before: R,
    after: R,
    gate_after: GateModel,
    kept_after: StoreModel,
    d: DispositionModel,
)
    requires
        !kept.sees(signal.id, emitted_ns),
        now_ns < crate::store::seen_until(emitted_ns, setup.propagation.dedup_cache_seconds),
        receives(
            curves,
            kept.marked(signal.id, emitted_ns, setup.propagation.dedup_cache_seconds),
            answers,
            gate,
            setup,
            local,
            signal,
            arrival,
            now_ns,
            before,
            after,
            gate_after,
            kept_after,
            d,
        ),
    ensures
        d == DispositionModel::nothing(),
{
    crate::store::lemma_marking_lasts_its_time(
        kept,
        signal.id,
        emitted_ns,
        setup.propagation.dedup_cache_seconds,
        now_ns,
    );
}

/// Journalling adds the decisions, in order and under the identifiers that
/// follow, and changes nothing else that is kept.
proof fn lemma_journalled(kept: StoreModel, decisions: Seq<JournalRow>)
    requires
        kept.issued + decisions.len() <= u64::MAX,
    ensures
        journalled(kept, decisions).issued == kept.issued + decisions.len(),
        journalled(kept, decisions).journal == kept.journal + Seq::new(
            decisions.len(),
            |i: int|
                JournalRow { id: Some(JournalId((kept.issued + 1 + i) as u64)), ..decisions[i] },
        ),
        journalled(kept, decisions) == (StoreModel {
            journal: journalled(kept, decisions).journal,
            issued: journalled(kept, decisions).issued,
            settled: journalled(kept, decisions).settled,
            ..kept
        }),
    decreases decisions.len(),
{
    let added = |list: Seq<JournalRow>|
        Seq::new(
            list.len(),
            |i: int| JournalRow { id: Some(JournalId((kept.issued + 1 + i) as u64)), ..list[i] },
        );
    if decisions.len() > 0 {
        let rest = decisions.drop_last();
        lemma_journalled(kept, rest);
        let was = journalled(kept, rest);
        assert(was.journal == kept.journal + added(rest));
        assert(journalled(kept, decisions) == was.with_decision(decisions.last()));
        let id = JournalId((was.issued + 1) as u64);
        assert(journalled(kept, decisions).journal == was.journal.push(
            JournalRow { id: Some(id), ..decisions.last() },
        ));
        assert(added(decisions) =~= added(rest).push(
            JournalRow { id: Some(id), ..decisions.last() },
        ));
        assert(journalled(kept, decisions).journal =~= kept.journal + added(decisions));
    } else {
        assert(added(decisions) =~= Seq::<JournalRow>::empty());
        assert(kept.journal + added(decisions) =~= kept.journal);
    }
}

/// The decisions for selected synapses stand in the journal as the forwards name
/// them.
proof fn lemma_decisions_are_journalled(
    kept: StoreModel,
    signal: SignalModel,
    among: Seq<Synapse>,
    selected: Seq<Selection>,
    now_ns: u64,
)
    requires
        kept.issued + selected.len() <= u64::MAX,
    ensures
        ({
            let forwards = forwards_of(kept.issued, among, selected);
            let after = journalled(kept, decisions_of(signal, among, selected, now_ns));
            &&& after.journal.len() == kept.journal.len() + forwards.len()
            &&& forall|i: int|
                0 <= i < forwards.len() ==> {
                    let entry = after.journal[kept.journal.len() + i];
                    &&& entry.id == Some((#[trigger] forwards[i]).journal_id)
                    &&& entry.awaits(signal.id, forwards[i].peer)
                    &&& entry.synapse == forwards[i].synapse
                    &&& entry.explored == forwards[i].explored
                    &&& entry.decided_at_ns == now_ns
                }
            &&& after.synapses == kept.synapses
            &&& after.seen == kept.seen
        }),
{
    lemma_journalled(kept, decisions_of(signal, among, selected, now_ns));
}

/// Every forwarding decision is journalled as pending, under the identifier that
/// the decision names, so that its outcome can be attributed. Nothing else in
/// the store changes.
pub proof fn lemma_every_forward_is_journalled<R: Rng, M: Curves>(
    curves: M,
    kept: StoreModel,
    setup: NodeSetup,
    signal: SignalModel,
    arrival: Option<Seq<char>>,
    now_ns: u64,
    before: R,
    after: R,
    forwards: Seq<ForwardRow>,
    kept_after: StoreModel,
)
    requires
        plans(
            curves,
            kept,
            setup,
            signal,
            arrival,
            now_ns,
            before,
            after,
            forwards,
            kept_after,
        ),
    ensures
        kept_after.journal.len() == kept.journal.len() + forwards.len(),
        forall|i: int|
            0 <= i < forwards.len() ==> {
                let entry = kept_after.journal[kept.journal.len() + i];
                &&& entry.id == Some((#[trigger] forwards[i]).journal_id)
                &&& entry.awaits(signal.id, forwards[i].peer)
                &&& entry.synapse == forwards[i].synapse
                &&& entry.explored == forwards[i].explored
                &&& entry.decided_at_ns == now_ns
            },
        kept_after.synapses == kept.synapses,
        kept_after.seen == kept.seen,
{
    if !flooded(signal) {
        let (all, synapses, selected) = choose|
            all: Seq<SynapseRow>,
            synapses: Seq<Synapse>,
            selected: Seq<Selection>,
        | #[trigger]
            plans_with(
                curves,
                kept,
                setup,
                signal,
                arrival,
                now_ns,
                before,
                after,
                forwards,
                kept_after,
                all,
                synapses,
                selected,
            );
        lemma_decisions_are_journalled(
            kept,
            signal,
            eligible(synapses, signal.scope, arrival),
            selected,
            now_ns,
        );
    }
}

/// A signal that a node has received is remembered: what is seen after it has
/// been received is what was seen with the signal marked.
proof fn lemma_receiving_marks<R: Rng, M: Curves>(
    curves: M,
    kept: StoreModel,
    answers: bool,
    gate: GateModel,
    setup: NodeSetup,
    local: Seq<u8>,
    signal: SignalModel,
    arrival: Option<Seq<char>>,
    now_ns: u64,
    before: R,
    after: R,
    gate_after: GateModel,
    kept_after: StoreModel,
    d: DispositionModel,
)
    requires
        receives(
            curves,
            kept,
            answers,
            gate,
            setup,
            local,
            signal,
            arrival,
            now_ns,
            before,
            after,
            gate_after,
            kept_after,
            d,
        ),
    ensures
        kept_after.seen == kept.marked(
            signal.id,
            now_ns,
            setup.propagation.dedup_cache_seconds,
        ).seen,
{
    let marked = kept.marked(signal.id, now_ns, setup.propagation.dedup_cache_seconds);
    if !kept.sees(signal.id, now_ns) && obstacle(
        signal,
        local,
        setup.propagation.min_propagation_weight,
    ) is None {
        let (lent, middle, fired) = choose|lent: Scalar, middle: R, fired: Seq<QueuedRow>|
            {
                &&& lent == arrival_weight(marked, arrival) || (!answers && lent
                    == Scalar::from_bits(ONE))
                &&& #[trigger] receives_with(
                    curves,
                    marked,
                    gate,
                    setup,
                    signal,
                    arrival,
                    now_ns,
                    before,
                    after,
                    gate_after,
                    kept_after,
                    d,
                    lent,
                    middle,
                    fired,
                )
            };
        let dropped = gate.dropped_for(queue_row_of(signal, now_ns));
        if !(dropped is Some && dropped->0.id == signal.id) && released(fired, signal.id) {
            let forwards = choose|forwards: Seq<ForwardRow>| #[trigger]
                plans(
                    curves,
                    marked,
                    setup,
                    signal,
                    arrival,
                    now_ns,
                    middle,
                    after,
                    forwards,
                    kept_after,
                );
            lemma_every_forward_is_journalled(
                curves,
                marked,
                setup,
                signal,
                arrival,
                now_ns,
                middle,
                after,
                forwards,
                kept_after,
            );
        }
    }
}

/// A signal that a node has received is nothing when it comes again, by
/// whichever synapse, for as long as the node remembers signals: whatever the
/// node has done with it, and whatever has happened since, as long as the store
/// has not forgotten it.
pub proof fn lemma_what_comes_again_is_nothing<R: Rng, M: Curves>(
    curves: M,
    kept: StoreModel,
    answers: bool,
    gate: GateModel,
    setup: NodeSetup,
    local: Seq<u8>,
    signal: SignalModel,
    arrival: Option<Seq<char>>,
    now_ns: u64,
    before: R,
    after: R,
    gate_after: GateModel,
    kept_after: StoreModel,
    d: DispositionModel,
    kept_then: StoreModel,
    answers_then: bool,
    gate_then: GateModel,
    again: SignalModel,
    arrival_then: Option<Seq<char>>,
    later_ns: u64,
    before_then: R,
    after_then: R,
    gate_last: GateModel,
    kept_last: StoreModel,
    d_then: DispositionModel,
)
    requires
        !kept.sees(signal.id, now_ns),
        receives(
            curves,
            kept,
            answers,
            gate,
            setup,
            local,
            signal,
            arrival,
            now_ns,
            before,
            after,
            gate_after,
            kept_after,
            d,
        ),
        again.id == signal.id,
        later_ns < crate::store::seen_until(now_ns, setup.propagation.dedup_cache_seconds),
        kept_then.sees(signal.id, later_ns) == kept_after.sees(signal.id, later_ns),
        receives(
            curves,
            kept_then,
            answers_then,
            gate_then,
            setup,
            local,
            again,
            arrival_then,
            later_ns,
            before_then,
            after_then,
            gate_last,
            kept_last,
            d_then,
        ),
    ensures
        d_then == DispositionModel::nothing(),
        kept_last == kept_then,
        gate_last == gate_then,
        after_then == before_then,
{
    lemma_receiving_marks(
        curves,
        kept,
        answers,
        gate,
        setup,
        local,
        signal,
        arrival,
        now_ns,
        before,
        after,
        gate_after,
        kept_after,
        d,
    );
    crate::store::lemma_marking_lasts_its_time(
        kept,
        signal.id,
        now_ns,
        setup.propagation.dedup_cache_seconds,
        later_ns,
    );
}

/// Rebalancing changes nothing but synapses.
pub proof fn lemma_rebalancing_keeps_the_rest(
    kept: StoreModel,
    learning: LearningConfig,
    factor: Option<Scalar>,
    after: StoreModel,
)
    requires
        rebalances(kept, learning, factor, after),
    ensures
        after == (StoreModel { synapses: after.synapses, settled: after.settled, ..kept }),
{
    let all = choose|all: Seq<SynapseRow>| #[trigger]
        rebalances_from(kept, learning, factor, after, all);
    assert(rebalances_from(kept, learning, factor, after, all));
}

/// Learning from an outcome leaves the journal as it is.
pub proof fn lemma_learning_keeps_the_journal<S: NodeStore>(
    marked: StoreModel,
    setup: NodeSetup,
    entry: JournalRow,
    outcome: Outcome,
    now_ns: u64,
    update: WeightUpdate,
    after: StoreModel,
)
    requires
        outcome_applied::<S>(marked, setup, entry, outcome, now_ns, update, after),
    ensures
        after.journal == marked.journal,
{
    if setup.learning.enabled && marked.synapses.dom().contains(entry.synapse) {
        let factor = choose|factor: Option<Scalar>| #[trigger]
            learns::<S>(marked, setup, entry, outcome, now_ns, update, factor, after);
        assert(learns::<S>(marked, setup, entry, outcome, now_ns, update, factor, after));
        let noted = if Scalar::from_bits(EPSILON).below(update.applied_delta.absolute()) {
            marked.with_influence(entry.peer, update.applied_delta, now_ns)
        } else {
            marked
        };
        let row = marked.synapses[entry.synapse];
        let used = S::influence_of(
            marked.influence,
            entry.peer,
            LearningConfig::window_start(now_ns, setup.learning.influence_window_secs),
        );
        let weight = entry.signal_weight.clamped(
            Scalar::from_bits(ZERO),
            Scalar::from_bits(ONE),
        );
        let moved = SynapseRow {
            last_active_ns: now_ns,
            ..row.learned(
                outcome,
                weight,
                name_of_type(entry.signal_type),
                used,
                setup.learning,
                setup.synapse.max_weight,
                setup.synapse.active_threshold,
                setup.synapse.dormancy_threshold,
            )
        };
        lemma_rebalancing_keeps_the_rest(
            noted.with_synapse(moved),
            setup.learning,
            factor,
            after,
        );
    }
}

/// A receipt counts once: after it has been applied to the one decision that
/// awaited it, no decision awaits it, so the same receipt again changes nothing.
pub proof fn lemma_a_receipt_counts_once<S: NodeStore>(
    kept: StoreModel,
    setup: NodeSetup,
    receipt: Receipt,
    from_peer: Seq<u8>,
    at: int,
    now_ns: u64,
    update: Option<WeightUpdate>,
    after: StoreModel,
    later_ns: u64,
    again: Option<WeightUpdate>,
    later: StoreModel,
)
    requires
        0 <= at < kept.journal.len(),
        kept.journal[at].awaits(receipt.correlation_id, from_peer),
        forall|i: int|
            0 <= i < kept.journal.len() && i != at ==> !(#[trigger] kept.journal[i]).awaits(
                receipt.correlation_id,
                from_peer,
            ),
        kept.journal[at].id is Some,
        forall|i: int|
            0 <= i < at ==> (#[trigger] kept.journal[i]).id != kept.journal[at].id,
        receipt_applied::<S>(kept, setup, receipt, from_peer, now_ns, update, after),
        receipt_applied::<S>(after, setup, receipt, from_peer, later_ns, again, later),
    ensures
        !awaited(after, receipt.correlation_id, from_peer),
        again is None,
        later == after,
{
    let id = kept.journal[at].id->0;
    let outcome = receipt.resolves_to();
    assert(kept.has_decision(id));
    lemma_first_place(kept, id);
    assert(kept.decision_at(id) == at);
    let marked = kept.with_outcome(id, outcome, now_ns);
    assert(marked.journal == kept.journal.update(at, kept.journal[at].resolved(outcome, now_ns)));
    assert(resolves::<S>(kept, setup, id, outcome, now_ns, update, after));
    lemma_learning_keeps_the_journal::<S>(
        marked,
        setup,
        marked.journal[at],
        outcome,
        now_ns,
        update->0,
        after,
    );
    assert forall|i: int| 0 <= i < after.journal.len() implies !(
    #[trigger] after.journal[i]).awaits(receipt.correlation_id, from_peer) by {
        if i != at {
            assert(after.journal[i] == kept.journal[i]);
        }
    }
}

/// A decision is resolved once: whatever is observed of it afterwards, be it at
/// the same instant, teaches nothing and changes nothing.
pub proof fn lemma_a_decision_counts_once<S: NodeStore>(
    kept: StoreModel,
    setup: NodeSetup,
    id: JournalId,
    first: Outcome,
    first_ns: u64,
    update: Option<WeightUpdate>,
    after: StoreModel,
    second: Outcome,
    second_ns: u64,
    again: Option<WeightUpdate>,
    later: StoreModel,
)
    requires
        !(first is Pending),
        kept.has_decision(id),
        kept.journal[kept.decision_at(id)].outcome is Pending,
        resolves::<S>(kept, setup, id, first, first_ns, update, after),
        resolves::<S>(after, setup, id, second, second_ns, again, later),
    ensures
        update is Some,
        again is None,
        later == after,
{
    lemma_first_place(kept, id);
    let at = kept.decision_at(id);
    let marked = kept.with_outcome(id, first, first_ns);
    assert(marked.journal[at] == kept.journal[at].resolved(first, first_ns));
    lemma_learning_keeps_the_journal::<S>(
        marked,
        setup,
        marked.journal[at],
        first,
        first_ns,
        update->0,
        after,
    );
    assert(after.journal[at].id == Some(id));
    assert(after.has_decision(id));
    lemma_first_place(after, id);
    let again_at = after.decision_at(id);
    assert(again_at == at) by {
        if again_at < at {
            assert(after.journal[again_at].id == kept.journal[again_at].id);
        } else if at < again_at {
            assert(after.journal[at].id != Some(id));
        }
    }
    assert(after.journal.update(at, after.journal[at].resolved(second, second_ns))
        =~= after.journal);
    assert(after.with_outcome(id, second, second_ns) == after);
}

/// Whether signature failures of one synapse were counted one after another, at
/// the given instants.
pub open spec fn failures_counted(
    setup: NodeSetup,
    id: Seq<char>,
    times: Seq<u64>,
    outcomes: Seq<SignatureFailureOutcome>,
    stages: Seq<StoreModel>,
) -> bool {
    &&& stages.len() == times.len() + 1
    &&& outcomes.len() == times.len()
    &&& forall|i: int|
        0 <= i < times.len() ==> penalises(
            stages[i],
            setup,
            id,
            #[trigger] times[i],
            Some(outcomes[i]),
            stages[i + 1],
        )
}

/// Failures within the window in which the first was counted are all counted.
proof fn lemma_failures_add_up(
    setup: NodeSetup,
    id: Seq<char>,
    peer: Seq<u8>,
    times: Seq<u64>,
    outcomes: Seq<SignatureFailureOutcome>,
    stages: Seq<StoreModel>,
    k: int,
)
    requires
        failures_counted(setup, id, times, outcomes, stages),
        leads(stages[0], id, peer),
        stages[0].synapses[id].id == id,
        forall|other: Seq<char>| #[trigger] leads(stages[0], other, peer) ==> other == id,
        forall|i: int|
            0 < i < times.len() ==> LearningConfig::window_start(
                #[trigger] times[i],
                setup.learning.influence_window_secs,
            ) <= stages[1].synapses[id].failure_window_start_ns,
        1 <= k <= times.len(),
        times.len() <= u32::MAX,
    ensures
        leads(stages[k], id, peer),
        stages[k].synapses[id].id == id,
        forall|other: Seq<char>| #[trigger] leads(stages[k], other, peer) ==> other == id,
        stages[k].synapses[id].signature_failures >= k,
        stages[k].synapses[id].failure_window_start_ns
            == stages[1].synapses[id].failure_window_start_ns,
        stages[k].synapses[id].signature_failures
            >= setup.learning.signature_failure_prune_threshold ==> stages[k].synapses[id].state
            is Pruned && stages[k].synapses[id].last_active_ns == times[k - 1],
    decreases k,
{
    if k > 1 {
        lemma_failures_add_up(setup, id, peer, times, outcomes, stages, k - 1);
        assert(LearningConfig::window_start(
            times[k - 1],
            setup.learning.influence_window_secs,
        ) <= stages[1].synapses[id].failure_window_start_ns);
    }
    let before = stages[k - 1];
    let after = stages[k];
    assert(penalises(
        before,
        setup,
        id,
        times[k - 1],
        Some(outcomes[k - 1]),
        stages[k - 1 + 1],
    ));
    let row = before.synapses[id].distrusted(
        times[k - 1],
        setup.learning,
        setup.synapse.active_threshold,
        setup.synapse.dormancy_threshold,
    );
    assert(after == before.with_synapse(row));
    assert(row.id == id && row.peer == peer);
    assert forall|other: Seq<char>| #[trigger] leads(after, other, peer) implies other == id by {
        if other != id {
            assert(leads(before, other, peer));
        }
    }
}

/// As many signature failures as the threshold, within the window in which the
/// first was counted, prune a synapse; until the cooldown has passed no synapse
/// to its peer can be registered.
pub proof fn lemma_failures_keep_a_peer_out<R: Rng>(
    setup: NodeSetup,
    id: Seq<char>,
    peer: Seq<u8>,
    times: Seq<u64>,
    outcomes: Seq<SignatureFailureOutcome>,
    stages: Seq<StoreModel>,
    now_ns: u64,
    before: R,
    record: SynapseRow,
    after: StoreModel,
)
    requires
        failures_counted(setup, id, times, outcomes, stages),
        leads(stages[0], id, peer),
        stages[0].synapses[id].id == id,
        forall|other: Seq<char>| #[trigger] leads(stages[0], other, peer) ==> other == id,
        times.len() == setup.learning.signature_failure_prune_threshold,
        times.len() > 0,
        forall|i: int|
            0 < i < times.len() ==> LearningConfig::window_start(
                #[trigger] times[i],
                setup.learning.influence_window_secs,
            ) <= stages[1].synapses[id].failure_window_start_ns,
        now_ns < saturated(
            times.last() + saturated(
                setup.learning.signature_failure_cooldown_secs * NANOS_PER_SEC,
            ),
        ),
    ensures
        stages.last().synapses[id].state is Pruned,
        outcomes.last().pruned,
        registering_waits(stages.last(), setup, peer, now_ns),
        !registers(stages.last(), setup, peer, now_ns, before, record, after),
{
    let n = times.len() as int;
    lemma_failures_add_up(setup, id, peer, times, outcomes, stages, n);
    assert(penalises(
        stages[n - 1],
        setup,
        id,
        times[n - 1],
        Some(outcomes[n - 1]),
        stages[n - 1 + 1],
    ));
    if n > 1 {
        lemma_failures_add_up(setup, id, peer, times, outcomes, stages, n - 1);
    }
    assert(leads(stages.last(), id, peer));
}

/// A node that does not learn moves no weight: neither an outcome, nor a
/// penalty, nor rebalancing.
pub proof fn lemma_a_node_that_does_not_learn_moves_no_weight<S: NodeStore>(
    kept: StoreModel,
    setup: NodeSetup,
    entry: JournalRow,
    outcome: Outcome,
    now_ns: u64,
    update: WeightUpdate,
    learned: StoreModel,
    id: Seq<char>,
    failure: Option<SignatureFailureOutcome>,
    penalised: StoreModel,
    factor: Option<Scalar>,
    rebalanced: StoreModel,
)
    requires
        !setup.learning.enabled,
        outcome_applied::<S>(kept, setup, entry, outcome, now_ns, update, learned),
        penalises(kept, setup, id, now_ns, failure, penalised),
        forall|key: Seq<char>| #[trigger]
            kept.synapses.dom().contains(key) ==> kept.synapses[key].id == key,
        rebalances(kept, setup.learning, factor, rebalanced),
    ensures
        update == WeightUpdate::nothing(),
        learned == kept,
        forall|key: Seq<char>| #[trigger]
            kept.synapses.dom().contains(key) ==> penalised.synapses.dom().contains(key)
                && penalised.synapses[key].weight == kept.synapses[key].weight,
        factor is None,
        rebalanced == kept,
{
    let all = choose|all: Seq<SynapseRow>| #[trigger]
        rebalances_from(kept, setup.learning, factor, rebalanced, all);
    assert(rebalances_from(kept, setup.learning, factor, rebalanced, all));
}

/// Each synapse of a list without repetition has the weight that it was given.
proof fn lemma_reweighted(
    synapses: Map<Seq<char>, SynapseRow>,
    all: Seq<SynapseRow>,
    weights: Seq<Scalar>,
    n: int,
)
    requires
        0 <= n <= all.len(),
        weights.len() == all.len(),
        forall|i: int, j: int|
            0 <= i < j < all.len() ==> (#[trigger] all[i]).id != (#[trigger] all[j]).id,
        forall|i: int| 0 <= i < all.len() ==> synapses.dom().contains((#[trigger] all[i]).id),
    ensures
        reweighted(synapses, all, weights, n).dom() == synapses.dom(),
        forall|i: int|
            0 <= i < n ==> reweighted(synapses, all, weights, n)[(#[trigger] all[i]).id].weight
                == weights[i],
    decreases n,
{
    if n > 0 {
        lemma_reweighted(synapses, all, weights, n - 1);
        assert(synapses.dom().contains(all[n - 1].id));
        assert(reweighted(synapses, all, weights, n).dom() =~= synapses.dom());
        assert forall|i: int| 0 <= i < n implies reweighted(synapses, all, weights, n)[(
        #[trigger] all[i]).id].weight == weights[i] by {
            if i < n - 1 {
                assert(all[i].id != all[n - 1].id);
            }
        }
    }
}

/// After a node has rebalanced, the weights of its synapses together are within
/// the outbound budget, up to rounding, and no synapse was lost or added.
pub proof fn lemma_rebalancing_keeps_the_budget(
    kept: StoreModel,
    learning: LearningConfig,
    factor: Option<Scalar>,
    after: StoreModel,
    all: Seq<SynapseRow>,
)
    requires
        learning.enabled,
        rebalances_from(kept, learning, factor, after, all),
        accountable(weights_of(all), learning),
        floors_fit(all.len(), learning),
    ensures
        after.synapses.dom() == kept.synapses.dom(),
        within_budget(all.map_values(|r: SynapseRow| after.synapses[r.id].weight), learning),
{
    let before = weights_of(all);
    let weights = normalized(before, learning);
    let held = all.map_values(|r: SynapseRow| after.synapses[r.id].weight);
    assert forall|i: int, j: int| 0 <= i < j < all.len() implies (#[trigger] all[i]).id != (
    #[trigger] all[j]).id by {
        assert(crate::store::row_before(all[i], all[j]));
        crate::order::lemma_text_order(all[i].id, all[i].id, all[i].id);
    }
    assert(weights.len() == all.len());
    lemma_reweighted(kept.synapses, all, weights, all.len() as int);
    assert(held =~= weights) by {
        assert forall|i: int| 0 <= i < all.len() implies held[i] == weights[i] by {
            assert(kept.synapses[all[i].id] == all[i]);
            assert(before[i] == all[i].weight);
        }
    }
    lemma_the_budget_holds(before, learning);
}

} // verus!
