//! What a node remembers, and the store that keeps it.
//!
//! Everything a node needs to remember (synapse weights, topology knowledge,
//! the deduplication cache, activation state and the learning journal) is
//! reached through [`NodeStore`]. [`StoreModel`] is what a store holds, as a
//! value: each operation says what it does to it.

use vstd::prelude::*;

use crate::order::same_text;
use crate::scalar::Scalar;
use crate::signal::{NodeId, SignalId, SignalType, TypeModel};
use crate::synapse::{SynapseId, SynapseState};
use crate::text::copy_texts;
use crate::time::{saturated, NANOS_PER_SEC};

verus! {

/// Errors that a storage backend can report.
#[derive(Debug)]
pub enum StoreError {
    /// The backend could not be reached or opened.
    Unavailable(String),
    /// A schema migration failed.
    Migration {
        /// Schema version being applied.
        version: u32,
        /// Why it failed.
        reason: String,
    },
    /// A stored record could not be decoded.
    Corrupt {
        /// Logical table the record came from.
        table: String,
        /// Why decoding failed.
        reason: String,
    },
    /// The write could not be durably committed.
    Write(String),
    /// The operation is not supported by this backend.
    Unsupported(&'static str),
}

/// Result of a storage operation.
pub type StoreResult<T> = Result<T, StoreError>;

/// How durably a backend persists writes.
#[derive(Clone, Copy, Debug, PartialEq, Eq, Structural)]
pub enum Durability {
    /// Writes survive process and power loss before the call returns.
    Durable,
    /// Writes survive process loss, but a window may be lost to power loss.
    BestEffort,
    /// Nothing survives process exit.
    Memory,
}

/// How often a path carried each type of signal, by type name.
#[derive(Debug)]
pub struct Affinity {
    entries: Vec<(String, u64)>,
}

/// Counts by name, each name once.
pub type AffinityModel = Seq<(Seq<char>, u64)>;

impl View for Affinity {
    type V = AffinityModel;

    closed spec fn view(&self) -> AffinityModel {
        self.entries@.map_values(|e: (String, u64)| (e.0@, e.1))
    }
}

/// Whether a name has a count.
pub open spec fn counted(m: AffinityModel, name: Seq<char>) -> bool {
    exists|i: int| 0 <= i < m.len() && (#[trigger] m[i]).0 == name
}

/// The first place where a name has its count.
pub open spec fn place_of(m: AffinityModel, name: Seq<char>) -> int {
    choose|i: int|
        0 <= i < m.len() && (#[trigger] m[i]).0 == name && forall|j: int|
            0 <= j < i ==> (#[trigger] m[j]).0 != name
}

/// The count of a name, zero where it has none.
pub open spec fn count_of(m: AffinityModel, name: Seq<char>) -> u64 {
    if counted(m, name) {
        m[place_of(m, name)].1
    } else {
        0
    }
}

/// The sum of the counts, held at the largest number.
pub open spec fn count_total(m: AffinityModel) -> u64
    decreases m.len(),
{
    if m.len() == 0 {
        0
    } else {
        saturated(count_total(m.drop_last()) + m.last().1)
    }
}

/// The counts after one more for a name.
pub open spec fn bumped(m: AffinityModel, name: Seq<char>) -> AffinityModel {
    if counted(m, name) {
        let i = place_of(m, name);
        m.update(i, (name, saturated(m[i].1 + 1)))
    } else {
        m.push((name, 1))
    }
}

impl Clone for Affinity {
    fn clone(&self) -> (r: Self)
        ensures
            r@ == self@,
    {
        let mut out: Vec<(String, u64)> = Vec::new();
        let mut i: usize = 0;
        while i < self.entries.len()
            invariant
                i <= self.entries@.len(),
                out@.len() == i,
                forall|k: int|
                    0 <= k < i ==> (#[trigger] out@[k]).0@ == self.entries@[k].0@ && out@[k].1
                        == self.entries@[k].1,
            decreases self.entries@.len() - i,
        {
            let name = self.entries[i].0.clone();
            let count: u64 = self.entries[i].1;
            out.push((name, count));
            i = i + 1;
        }
        let r = Affinity { entries: out };
        assert(r@ =~= self@);
        r
    }
}

impl Affinity {
    /// No counts.
    pub fn new() -> (r: Affinity)
        ensures
            r@ == AffinityModel::empty(),
    {
        let r = Affinity { entries: Vec::new() };
        assert(r@ =~= AffinityModel::empty());
        r
    }

    /// How many names have a count.
    pub fn len(&self) -> (r: usize)
        ensures
            r == self@.len(),
    {
        self.entries.len()
    }

    /// The place where a name has its count, or the length.
    fn find(&self, name: &str) -> (r: usize)
        ensures
            r <= self@.len(),
            r < self@.len() ==> counted(self@, name@) && r == place_of(self@, name@),
            r == self@.len() ==> !counted(self@, name@),
    {
        let mut i: usize = 0;
        while i < self.entries.len()
            invariant
                i <= self.entries@.len(),
                forall|k: int| 0 <= k < i ==> (#[trigger] self@[k]).0 != name@,
            decreases self.entries@.len() - i,
        {
            if same_text(self.entries[i].0.as_str(), name) {
                proof {
                    let m = self@;
                    assert(m[i as int].0 == name@);
                    assert(counted(m, name@));
                    let p = place_of(m, name@);
                    if p < i {
                        assert(m[p].0 != name@);
                    } else if i < p {
                        assert(m[i as int].0 != name@);
                    }
                }
                return i;
            }
            i = i + 1;
        }
        i
    }

    /// The count of a name.
    pub fn get(&self, name: &str) -> (r: u64)
        ensures
            r == count_of(self@, name@),
    {
        let i: usize = self.find(name);
        if i < self.entries.len() {
            self.entries[i].1
        } else {
            0
        }
    }

    /// The count at a place.
    pub fn entry(&self, i: usize) -> (r: (String, u64))
        requires
            i < self@.len(),
        ensures
            (r.0@, r.1) == self@[i as int],
    {
        (self.entries[i].0.clone(), self.entries[i].1)
    }

    /// Give a name a count, in place of the one it has.
    pub fn insert(&mut self, name: &str, count: u64)
        ensures
            final(self)@ == (if counted(old(self)@, name@) {
                old(self)@.update(place_of(old(self)@, name@), (name@, count))
            } else {
                old(self)@.push((name@, count))
            }),
    {
        let i: usize = self.find(name);
        let ghost before = self@;
        if i < self.entries.len() {
            self.entries.set(i, (name.to_owned(), count));
            assert(self@ =~= before.update(i as int, (name@, count)));
        } else {
            self.entries.push((name.to_owned(), count));
            assert(self@ =~= before.push((name@, count)));
        }
    }

    /// Count a name once more.
    pub fn bump(&mut self, name: &str)
        ensures
            final(self)@ == bumped(old(self)@, name@),
    {
        let i: usize = self.find(name);
        let count: u64 = if i < self.entries.len() {
            self.entries[i].1
        } else {
            0
        };
        self.insert(name, count.saturating_add(1));
    }

    /// The sum of the counts.
    pub fn total(&self) -> (r: u64)
        ensures
            r == count_total(self@),
    {
        let mut total: u64 = 0;
        let mut i: usize = 0;
        assert(self@.take(0) =~= AffinityModel::empty());
        while i < self.entries.len()
            invariant
                i <= self.entries@.len(),
                self@.len() == self.entries@.len(),
                total == count_total(self@.take(i as int)),
            decreases self.entries@.len() - i,
        {
            assert(self@.take(i + 1).drop_last() =~= self@.take(i as int));
            assert(self@.take(i + 1).last() == self@[i as int]);
            total = total.saturating_add(self.entries[i].1);
            i = i + 1;
        }
        assert(self@.take(self@.len() as int) =~= self@);
        total
    }
}

/// The persistent projection of a synapse: what must survive a restart.
#[derive(Debug)]
pub struct SynapseRecord {
    /// Synapse identifier.
    pub id: SynapseId,
    /// The peer on the far end.
    pub peer: NodeId,
    /// Learned weight.
    pub weight: Scalar,
    /// Weight attenuation applied to signals crossing this synapse.
    pub attenuation_factor: Scalar,
    /// Lifecycle state.
    pub state: SynapseState,
    /// Success counts by signal type name.
    pub type_affinity: Affinity,
    /// When the synapse was established, in nanoseconds since the Unix epoch.
    pub established_at_ns: u64,
    /// When a signal last crossed it.
    pub last_active_ns: u64,
    /// Signals successfully transmitted.
    pub signals_transmitted: u64,
    /// Signals received.
    pub signals_received: u64,
    /// Weighted mean round-trip latency, in nanoseconds.
    pub avg_latency_ns: u64,
    /// Weighted transmission failure ratio.
    pub error_rate: Scalar,
    /// Signature failures counted in the current window.
    pub signature_failures: u32,
    /// When the current signature-failure window began.
    pub failure_window_start_ns: u64,
}

/// A synapse record as a value.
pub struct SynapseRow {
    /// Synapse identifier.
    pub id: Seq<char>,
    /// The peer on the far end.
    pub peer: Seq<u8>,
    /// Learned weight.
    pub weight: Scalar,
    /// Weight attenuation.
    pub attenuation_factor: Scalar,
    /// Lifecycle state.
    pub state: SynapseState,
    /// Success counts by signal type name.
    pub type_affinity: AffinityModel,
    /// When the synapse was established.
    pub established_at_ns: u64,
    /// When a signal last crossed it.
    pub last_active_ns: u64,
    /// Signals successfully transmitted.
    pub signals_transmitted: u64,
    /// Signals received.
    pub signals_received: u64,
    /// Weighted mean latency.
    pub avg_latency_ns: u64,
    /// Weighted failure ratio.
    pub error_rate: Scalar,
    /// Signature failures counted in the current window.
    pub signature_failures: u32,
    /// When the current signature-failure window began.
    pub failure_window_start_ns: u64,
}

impl View for SynapseRecord {
    type V = SynapseRow;

    open spec fn view(&self) -> SynapseRow {
        SynapseRow {
            id: self.id@,
            peer: self.peer@,
            weight: self.weight,
            attenuation_factor: self.attenuation_factor,
            state: self.state,
            type_affinity: self.type_affinity@,
            established_at_ns: self.established_at_ns,
            last_active_ns: self.last_active_ns,
            signals_transmitted: self.signals_transmitted,
            signals_received: self.signals_received,
            avg_latency_ns: self.avg_latency_ns,
            error_rate: self.error_rate,
            signature_failures: self.signature_failures,
            failure_window_start_ns: self.failure_window_start_ns,
        }
    }
}

impl Clone for SynapseRecord {
    fn clone(&self) -> (r: Self)
        ensures
            r@ == self@,
    {
        SynapseRecord {
            id: self.id.clone(),
            peer: self.peer.clone(),
            weight: self.weight,
            attenuation_factor: self.attenuation_factor,
            state: self.state,
            type_affinity: self.type_affinity.clone(),
            established_at_ns: self.established_at_ns,
            last_active_ns: self.last_active_ns,
            signals_transmitted: self.signals_transmitted,
            signals_received: self.signals_received,
            avg_latency_ns: self.avg_latency_ns,
            error_rate: self.error_rate,
            signature_failures: self.signature_failures,
            failure_window_start_ns: self.failure_window_start_ns,
        }
    }
}

/// Filter for [`NodeStore::list_synapses`].
#[derive(Debug)]
pub struct SynapseFilter {
    /// Only synapses in one of these states. Empty means any state.
    pub states: Vec<SynapseState>,
    /// Only synapses with at least this weight.
    pub min_weight: Option<Scalar>,
    /// Only synapses idle since before this instant.
    pub last_active_before_ns: Option<u64>,
    /// Cap on the synapses returned.
    pub limit: Option<usize>,
}

/// A filter as a value.
pub struct FilterModel {
    /// The states, or none for any.
    pub states: Seq<SynapseState>,
    /// The least weight.
    pub min_weight: Option<Scalar>,
    /// The end of the activity.
    pub last_active_before_ns: Option<u64>,
    /// The most synapses returned.
    pub limit: Option<usize>,
}

impl View for SynapseFilter {
    type V = FilterModel;

    open spec fn view(&self) -> FilterModel {
        FilterModel {
            states: self.states@,
            min_weight: self.min_weight,
            last_active_before_ns: self.last_active_before_ns,
            limit: self.limit,
        }
    }
}

impl FilterModel {
    /// The filter that every synapse passes.
    pub open spec fn any() -> FilterModel {
        FilterModel {
            states: Seq::empty(),
            min_weight: None,
            last_active_before_ns: None,
            limit: None,
        }
    }

    /// The filter that the synapses pass which may carry a signal.
    pub open spec fn eligible() -> FilterModel {
        FilterModel {
            states: seq![SynapseState::Active, SynapseState::Weakening],
            ..FilterModel::any()
        }
    }

    /// Whether a synapse passes the filter.
    pub open spec fn admits(self, row: SynapseRow) -> bool {
        &&& self.states.len() == 0 || self.states.contains(row.state)
        &&& self.min_weight matches Some(least) ==> least.at_most(row.weight)
        &&& self.last_active_before_ns matches Some(end) ==> row.last_active_ns < end
    }
}

impl SynapseFilter {
    /// Filter matching every synapse.
    pub fn any() -> (r: SynapseFilter)
        ensures
            r@ == FilterModel::any(),
    {
        let r = SynapseFilter {
            states: Vec::new(),
            min_weight: None,
            last_active_before_ns: None,
            limit: None,
        };
        assert(r.states@ =~= Seq::<SynapseState>::empty());
        r
    }

    /// Filter matching only synapses in the active state.
    ///
    /// For routing candidates prefer [`SynapseFilter::eligible`]: a weakening
    /// synapse is still connected and must stay able to earn its weight back.
    pub fn active() -> (r: SynapseFilter)
        ensures
            r@ == (FilterModel { states: seq![SynapseState::Active], ..FilterModel::any() }),
    {
        let mut states: Vec<SynapseState> = Vec::new();
        states.push(SynapseState::Active);
        let mut r = SynapseFilter::any();
        r.states = states;
        assert(r.states@ =~= seq![SynapseState::Active]);
        r
    }

    /// Filter matching every synapse that may carry a signal.
    pub fn eligible() -> (r: SynapseFilter)
        ensures
            r@ == FilterModel::eligible(),
    {
        let mut states: Vec<SynapseState> = Vec::new();
        states.push(SynapseState::Active);
        states.push(SynapseState::Weakening);
        let mut r = SynapseFilter::any();
        r.states = states;
        assert(r.states@ =~= seq![SynapseState::Active, SynapseState::Weakening]);
        r
    }

    /// Whether a synapse passes the filter.
    pub fn matches(&self, record: &SynapseRecord) -> (r: bool)
        ensures
            r == self@.admits(record@),
    {
        let mut listed: bool = self.states.len() == 0;
        let mut i: usize = 0;
        while i < self.states.len()
            invariant
                i <= self.states@.len(),
                listed == (self.states@.len() == 0 || self.states@.take(i as int).contains(
                    record.state,
                )),
            decreases self.states@.len() - i,
        {
            let ghost next = self.states@.take(i + 1);
            assert(next =~= self.states@.take(i as int).push(self.states@[i as int]));
            assert(next[i as int] == self.states@[i as int]);
            assert forall|k: int| 0 <= k < i implies next[k] == self.states@.take(i as int)[k] by {}
            if self.states[i] == record.state {
                assert(next.contains(record.state));
                listed = true;
            } else {
                assert(next.contains(record.state) ==> self.states@.take(i as int).contains(
                    record.state,
                )) by {
                    if next.contains(record.state) {
                        let k = next.index_of(record.state);
                        assert(next[k] == record.state);
                        assert(self.states@.take(i as int)[k] == record.state);
                    }
                }
                assert(self.states@.take(i as int).contains(record.state) ==> next.contains(
                    record.state,
                )) by {
                    if self.states@.take(i as int).contains(record.state) {
                        let k = self.states@.take(i as int).index_of(record.state);
                        assert(next[k] == record.state);
                    }
                }
            }
            i = i + 1;
        }
        assert(self.states@.take(self.states@.len() as int) =~= self.states@);
        if !listed {
            return false;
        }
        if let Some(least) = self.min_weight {
            if !least.le(record.weight) {
                return false;
            }
        }
        if let Some(end) = self.last_active_before_ns {
            if record.last_active_ns >= end {
                return false;
            }
        }
        true
    }
}

/// What a node remembers about a peer it is not necessarily connected to.
#[derive(Debug, PartialEq)]
pub struct PeerRecord {
    /// Peer identity.
    pub id: NodeId,
    /// Dialable addresses, most recently useful first.
    pub addresses: Vec<String>,
    /// Region hint used for affinity routing, if the peer advertised one.
    pub region: Option<String>,
    /// Signal types the peer advertised handling.
    pub advertised_types: Vec<String>,
    /// When the peer was last seen alive.
    pub last_seen_ns: u64,
    /// How the node learned about this peer.
    pub source: PeerSource,
}

/// A peer record as a value.
pub struct PeerRow {
    /// Peer identity.
    pub id: Seq<u8>,
    /// Dialable addresses.
    pub addresses: Seq<Seq<char>>,
    /// Region hint.
    pub region: Option<Seq<char>>,
    /// Signal types advertised.
    pub advertised_types: Seq<Seq<char>>,
    /// When the peer was last seen alive.
    pub last_seen_ns: u64,
    /// How the node learned about this peer.
    pub source: PeerSource,
}

/// An optional text as a value.
pub open spec fn text_of(t: Option<String>) -> Option<Seq<char>> {
    match t {
        Some(s) => Some(s@),
        None => None,
    }
}

impl View for PeerRecord {
    type V = PeerRow;

    open spec fn view(&self) -> PeerRow {
        PeerRow {
            id: self.id@,
            addresses: crate::signal::texts(self.addresses@),
            region: text_of(self.region),
            advertised_types: crate::signal::texts(self.advertised_types@),
            last_seen_ns: self.last_seen_ns,
            source: self.source,
        }
    }
}

impl Clone for PeerRecord {
    fn clone(&self) -> (r: Self)
        ensures
            r@ == self@,
    {
        PeerRecord {
            id: self.id.clone(),
            addresses: copy_texts(&self.addresses),
            region: match &self.region {
                Some(s) => Some(s.clone()),
                None => None,
            },
            advertised_types: copy_texts(&self.advertised_types),
            last_seen_ns: self.last_seen_ns,
            source: self.source,
        }
    }
}

/// Provenance of a topology entry.
///
/// A node must not let discovery-learned peers evict configured ones.
#[derive(Clone, Copy, Debug, PartialEq, Eq, Structural)]
pub enum PeerSource {
    /// Present in node configuration.
    Configured,
    /// A configured bootstrap node.
    Bootstrap,
    /// Learned from a Discovery signal.
    Discovered,
    /// Observed as the origin of a received signal.
    Observed,
}

/// A point-in-time snapshot of the activation gate.
///
/// Persisting it stops a restart from being a free reset of backpressure.
#[derive(Clone, Copy, Debug, PartialEq, Eq, Structural)]
pub struct ActivationSnapshot {
    /// Accumulated potential.
    pub potential: Scalar,
    /// Effective threshold, after any load adjustment.
    pub threshold: Scalar,
    /// Until when the node is refractory.
    pub refractory_until_ns: u64,
    /// Total fire count.
    pub signals_fired: u64,
    /// When this snapshot was taken.
    pub taken_at_ns: u64,
}

/// Handle to a journal entry, used to resolve its outcome later.
#[derive(Clone, Copy, Debug, PartialEq, Eq, Structural, Hash)]
pub struct JournalId(pub u64);

/// The observed outcome of a routing decision.
#[derive(Clone, Copy, Debug, PartialEq, Eq, Structural)]
pub enum Outcome {
    /// No outcome observed yet. Carries no reward.
    Pending,
    /// A positive receipt arrived: the signal reached a node that handled it.
    Delivered,
    /// A negative receipt arrived: the path is known not to lead anywhere.
    Rejected,
    /// No receipt arrived within the window.
    TimedOut,
    /// The transmission itself failed at the transport layer.
    TransportFailure,
    /// The peer presented a signature that did not verify.
    SignatureFailure,
}

impl Outcome {
    /// The reward, as a bit pattern: one, zero, and minus a quarter, a half
    /// and one.
    pub open spec fn reward_bits(self) -> u32 {
        match self {
            Outcome::Delivered => 0x3F80_0000,
            Outcome::Pending => 0,
            Outcome::TimedOut => 0xBE80_0000,
            Outcome::Rejected => 0xBF00_0000,
            Outcome::TransportFailure => 0xBF00_0000,
            Outcome::SignatureFailure => 0xBF80_0000,
        }
    }

    /// The reward this outcome contributes, between minus one and one.
    ///
    /// A pending decision yields zero: it must not move weights either way.
    pub fn reward(self) -> (r: Scalar)
        ensures
            r == Scalar::from_bits(self.reward_bits()),
    {
        Scalar::from_bits(
            match self {
                Outcome::Delivered => 0x3F80_0000,
                Outcome::Pending => 0,
                Outcome::TimedOut => 0xBE80_0000,
                Outcome::Rejected => 0xBF00_0000,
                Outcome::TransportFailure => 0xBF00_0000,
                Outcome::SignatureFailure => 0xBF80_0000,
            },
        )
    }

    /// Whether this outcome is terminal, no longer awaiting a receipt.
    pub fn is_resolved(self) -> (r: bool)
        ensures
            r == !(self is Pending),
    {
        match self {
            Outcome::Pending => false,
            _ => true,
        }
    }
}

/// The rewards are ordered: only delivery is rewarded, silence costs less than
/// a definite rejection, and nothing costs more than a signature failure.
pub proof fn lemma_rewards_are_ordered(outcome: Outcome)
    ensures
        Scalar::from_bits(0).below(Scalar::from_bits(Outcome::Delivered.reward_bits())),
        Outcome::Pending.reward_bits() == 0,
        !(outcome is Delivered) ==> Scalar::from_bits(outcome.reward_bits()).at_most(
            Scalar::from_bits(0),
        ),
        Scalar::from_bits(Outcome::Rejected.reward_bits()).below(
            Scalar::from_bits(Outcome::TimedOut.reward_bits()),
        ),
        Scalar::from_bits(Outcome::TimedOut.reward_bits()).below(Scalar::from_bits(0)),
        Scalar::from_bits(Outcome::SignatureFailure.reward_bits()).at_most(
            Scalar::from_bits(outcome.reward_bits()),
        ),
{
}

/// One routing decision and what came of it.
#[derive(Debug)]
pub struct JournalEntry {
    /// Assigned by the store on append.
    pub id: Option<JournalId>,
    /// The signal whose routing this records.
    pub signal: SignalId,
    /// Signal type.
    pub signal_type: SignalType,
    /// The synapse chosen.
    pub synapse: SynapseId,
    /// The peer on the far end at decision time.
    pub peer: NodeId,
    /// Score that the path was chosen on.
    pub score: Scalar,
    /// Weight of the signal that was carried. It scales the reward, so it is
    /// recorded at decision time.
    pub signal_weight: Scalar,
    /// Whether this choice came from exploration.
    pub explored: bool,
    /// When the decision was made.
    pub decided_at_ns: u64,
    /// What came of it.
    pub outcome: Outcome,
    /// When the outcome was observed, if it has been.
    pub resolved_at_ns: Option<u64>,
}

/// A journal entry as a value.
pub struct JournalRow {
    /// Assigned by the store on append.
    pub id: Option<JournalId>,
    /// The signal.
    pub signal: SignalId,
    /// Signal type.
    pub signal_type: TypeModel,
    /// The synapse chosen.
    pub synapse: Seq<char>,
    /// The peer on the far end.
    pub peer: Seq<u8>,
    /// Score that the path was chosen on.
    pub score: Scalar,
    /// Weight of the signal that was carried.
    pub signal_weight: Scalar,
    /// Whether this choice came from exploration.
    pub explored: bool,
    /// When the decision was made.
    pub decided_at_ns: u64,
    /// What came of it.
    pub outcome: Outcome,
    /// When the outcome was observed.
    pub resolved_at_ns: Option<u64>,
}

impl View for JournalEntry {
    type V = JournalRow;

    open spec fn view(&self) -> JournalRow {
        JournalRow {
            id: self.id,
            signal: self.signal,
            signal_type: self.signal_type@,
            synapse: self.synapse@,
            peer: self.peer@,
            score: self.score,
            signal_weight: self.signal_weight,
            explored: self.explored,
            decided_at_ns: self.decided_at_ns,
            outcome: self.outcome,
            resolved_at_ns: self.resolved_at_ns,
        }
    }
}

impl Clone for JournalEntry {
    fn clone(&self) -> (r: Self)
        ensures
            r@ == self@,
    {
        JournalEntry {
            id: self.id,
            signal: self.signal,
            signal_type: self.signal_type.clone(),
            synapse: self.synapse.clone(),
            peer: self.peer.clone(),
            score: self.score,
            signal_weight: self.signal_weight,
            explored: self.explored,
            decided_at_ns: self.decided_at_ns,
            outcome: self.outcome,
            resolved_at_ns: self.resolved_at_ns,
        }
    }
}

impl JournalRow {
    /// The entry after an outcome was observed: the first one wins.
    pub open spec fn resolved(self, outcome: Outcome, now_ns: u64) -> JournalRow {
        if self.outcome is Pending {
            JournalRow { outcome, resolved_at_ns: Some(now_ns), ..self }
        } else {
            self
        }
    }

    /// Whether the entry awaits a receipt for a signal from a peer.
    pub open spec fn awaits(self, signal: SignalId, peer: Seq<u8>) -> bool {
        self.signal == signal && self.peer == peer && self.outcome is Pending
    }

    /// Whether the entry still awaits a receipt after its deadline.
    pub open spec fn overdue(self, deadline_ns: u64) -> bool {
        self.outcome is Pending && self.decided_at_ns < deadline_ns
    }
}

/// One recorded move of a peer's own weight.
pub struct InfluenceRow {
    /// The peer.
    pub peer: Seq<u8>,
    /// How far the weight moved.
    pub magnitude: Scalar,
    /// When.
    pub at_ns: u64,
}

/// What a store holds.
pub struct StoreModel {
    /// Synapses, by identifier.
    pub synapses: Map<Seq<char>, SynapseRow>,
    /// Peers, by identity.
    pub peers: Map<Seq<u8>, PeerRow>,
    /// Signals seen, with the instants their entries expire.
    pub seen: Map<SignalId, u64>,
    /// The activation snapshot.
    pub activation: Option<ActivationSnapshot>,
    /// Routing decisions, oldest first.
    pub journal: Seq<JournalRow>,
    /// How many journal entries have been given an identifier.
    pub issued: u64,
    /// Influence records, oldest first.
    pub influence: Seq<InfluenceRow>,
    /// Node metadata.
    pub meta: Map<Seq<char>, Seq<u8>>,
    /// Signal bodies kept for replay.
    pub history: Map<SignalId, Seq<u8>>,
    /// Whether signal bodies are kept.
    pub keeps_history: bool,
    /// Whether the schema is known to be up to date.
    pub migrated: bool,
    /// Whether every change is known to have reached its durable home.
    pub settled: bool,
}

/// The instant at which a deduplication entry expires.
pub open spec fn seen_until(now_ns: u64, ttl_secs: u64) -> u64 {
    saturated(now_ns + saturated(ttl_secs * NANOS_PER_SEC))
}

impl StoreModel {
    /// After the schema migrations have been applied.
    pub open spec fn up_to_date(self) -> StoreModel {
        StoreModel { migrated: true, settled: false, ..self }
    }

    /// After every change has been forced to its durable home.
    pub open spec fn flushed(self) -> StoreModel {
        StoreModel { settled: true, ..self }
    }

    /// Whether a signal is in the deduplication cache and has not expired.
    pub open spec fn sees(self, id: SignalId, now_ns: u64) -> bool {
        self.seen.dom().contains(id) && self.seen[id] > now_ns
    }

    /// After a signal has been marked seen, unless it already was.
    pub open spec fn marked(self, id: SignalId, now_ns: u64, ttl_secs: u64) -> StoreModel {
        if self.sees(id, now_ns) {
            self
        } else {
            StoreModel {
                seen: self.seen.insert(id, seen_until(now_ns, ttl_secs)),
                settled: false,
                ..self
            }
        }
    }

    /// After the expired deduplication entries have gone.
    pub open spec fn purged(self, now_ns: u64) -> StoreModel {
        StoreModel {
            seen: self.seen.restrict(
                Set::new(|id: SignalId| self.seen.dom().contains(id) && self.seen[id] > now_ns),
            ),
            settled: false,
            ..self
        }
    }

    /// After a synapse has been written.
    pub open spec fn with_synapse(self, row: SynapseRow) -> StoreModel {
        StoreModel { synapses: self.synapses.insert(row.id, row), settled: false, ..self }
    }

    /// After a synapse has been removed.
    pub open spec fn without_synapse(self, id: Seq<char>) -> StoreModel {
        StoreModel { synapses: self.synapses.remove(id), settled: false, ..self }
    }

    /// After a peer has been written.
    pub open spec fn with_peer(self, row: PeerRow) -> StoreModel {
        StoreModel { peers: self.peers.insert(row.id, row), settled: false, ..self }
    }

    /// After a snapshot has been saved.
    pub open spec fn with_activation(self, snapshot: ActivationSnapshot) -> StoreModel {
        StoreModel { activation: Some(snapshot), settled: false, ..self }
    }

    /// After a decision has been journalled.
    pub open spec fn with_decision(self, row: JournalRow) -> StoreModel {
        let issued = (self.issued + 1) as u64;
        StoreModel {
            journal: self.journal.push(JournalRow { id: Some(JournalId(issued)), ..row }),
            issued,
            settled: false,
            ..self
        }
    }

    /// Whether a journal entry has an identifier.
    pub open spec fn has_decision(self, id: JournalId) -> bool {
        exists|i: int| 0 <= i < self.journal.len() && (#[trigger] self.journal[i]).id == Some(id)
    }

    /// The first place in the journal that has an identifier.
    pub open spec fn decision_at(self, id: JournalId) -> int {
        choose|i: int|
            0 <= i < self.journal.len() && (#[trigger] self.journal[i]).id == Some(id) && forall|
                j: int,
            |
                0 <= j < i ==> (#[trigger] self.journal[j]).id != Some(id)
    }

    /// After an outcome has been attached to a decision.
    pub open spec fn with_outcome(self, id: JournalId, outcome: Outcome, now_ns: u64) -> StoreModel {
        if self.has_decision(id) && self.journal[self.decision_at(id)].outcome is Pending {
            let i = self.decision_at(id);
            StoreModel {
                journal: self.journal.update(i, self.journal[i].resolved(outcome, now_ns)),
                settled: false,
                ..self
            }
        } else {
            self
        }
    }

    /// After the journal has lost what was decided before an instant.
    pub open spec fn trimmed(self, older_than_ns: u64) -> StoreModel {
        StoreModel {
            journal: self.journal.filter(|e: JournalRow| e.decided_at_ns >= older_than_ns),
            settled: false,
            ..self
        }
    }

    /// After a move of a peer's weight has been recorded.
    pub open spec fn with_influence(self, peer: Seq<u8>, magnitude: Scalar, at_ns: u64) -> StoreModel {
        StoreModel {
            influence: self.influence.push(
                InfluenceRow { peer, magnitude: magnitude.absolute(), at_ns },
            ),
            settled: false,
            ..self
        }
    }

    /// After the influence records have lost what was recorded before an
    /// instant.
    pub open spec fn forgotten(self, older_than_ns: u64) -> StoreModel {
        StoreModel {
            influence: self.influence.filter(|e: InfluenceRow| e.at_ns >= older_than_ns),
            settled: false,
            ..self
        }
    }

    /// After a metadata value has been written.
    pub open spec fn with_meta(self, key: Seq<char>, value: Seq<u8>) -> StoreModel {
        StoreModel { meta: self.meta.insert(key, value), settled: false, ..self }
    }

    /// After a signal body has been kept.
    pub open spec fn with_body(self, id: SignalId, body: Seq<u8>) -> StoreModel {
        StoreModel { history: self.history.insert(id, body), settled: false, ..self }
    }
}

/// The records of a list.
pub open spec fn rows(list: Seq<SynapseRecord>) -> Seq<SynapseRow> {
    list.map_values(|r: SynapseRecord| r@)
}

/// The entries of a list.
pub open spec fn journal_rows(list: Seq<JournalEntry>) -> Seq<JournalRow> {
    list.map_values(|e: JournalEntry| e@)
}

/// The peers of a list.
pub open spec fn peer_rows(list: Seq<PeerRecord>) -> Seq<PeerRow> {
    list.map_values(|p: PeerRecord| p@)
}

/// Whether a synapse is listed in front of another: the heavier one first, and
/// of equally heavy ones the one with the smaller identifier.
pub open spec fn row_before(a: SynapseRow, b: SynapseRow) -> bool {
    a.weight.sort_key() > b.weight.sort_key() || (a.weight.sort_key() == b.weight.sort_key()
        && crate::order::text_below(a.id, b.id))
}

/// Whether `all` lists every synapse that passes a filter, in order.
pub open spec fn lists_synapses(
    synapses: Map<Seq<char>, SynapseRow>,
    filter: FilterModel,
    all: Seq<SynapseRow>,
) -> bool {
    &&& forall|i: int, j: int|
        0 <= i < j < all.len() ==> row_before(#[trigger] all[i], #[trigger] all[j])
    &&& forall|i: int|
        0 <= i < all.len() ==> synapses.dom().contains((#[trigger] all[i]).id) && synapses[all[i].id]
            == all[i] && filter.admits(all[i])
    &&& forall|id: Seq<char>| #[trigger]
        synapses.dom().contains(id) && filter.admits(synapses[id]) ==> all.contains(synapses[id])
}

/// As many of the first items as a limit allows.
pub open spec fn limited<T>(all: Seq<T>, limit: int) -> Seq<T> {
    if limit < all.len() {
        all.take(limit)
    } else {
        all
    }
}

/// An optional text as a value.
pub open spec fn chars_of(text: Option<&str>) -> Option<Seq<char>> {
    match text {
        Some(s) => Some(s@),
        None => None,
    }
}

/// An optional type as a value.
pub open spec fn type_of(signal_type: Option<&SignalType>) -> Option<TypeModel> {
    match signal_type {
        Some(t) => Some(t@),
        None => None,
    }
}

/// Whether a peer is listed in front of another: the one seen more recently
/// first, and of two seen together the one with the smaller identity.
pub open spec fn peer_before(a: PeerRow, b: PeerRow) -> bool {
    a.last_seen_ns > b.last_seen_ns || (a.last_seen_ns == b.last_seen_ns && crate::order::bytes_below(
        a.id,
        b.id,
    ))
}

/// Whether `all` lists every peer in a region, or every peer, in order.
pub open spec fn lists_peers(
    peers: Map<Seq<u8>, PeerRow>,
    region: Option<Seq<char>>,
    all: Seq<PeerRow>,
) -> bool {
    &&& forall|i: int, j: int|
        0 <= i < j < all.len() ==> peer_before(#[trigger] all[i], #[trigger] all[j])
    &&& forall|i: int|
        0 <= i < all.len() ==> peers.dom().contains((#[trigger] all[i]).id) && peers[all[i].id]
            == all[i] && (region is Some ==> all[i].region == region)
    &&& forall|id: Seq<u8>| #[trigger]
        peers.dom().contains(id) && (region is Some ==> peers[id].region == region)
            ==> all.contains(peers[id])
}

/// Whether `all` holds the journal's entries of a type, or all of them, newest
/// first. Which of two that were decided together comes first is open.
pub open spec fn lists_decisions(
    journal: Seq<JournalRow>,
    signal_type: Option<TypeModel>,
    all: Seq<JournalRow>,
) -> bool {
    &&& all.to_multiset() == journal.filter(
        |e: JournalRow| signal_type is Some ==> e.signal_type == signal_type->0,
    ).to_multiset()
    &&& forall|i: int, j: int|
        0 <= i < j < all.len() ==> (#[trigger] all[i]).decided_at_ns >= (
        #[trigger] all[j]).decided_at_ns
}

/// Everything that a node persists.
///
/// Where an operation fails, nothing is claimed of what the store holds. A
/// reliable store does not fail.
pub trait NodeStore: Sized {
    /// What the store holds. A backend that the host supplies leaves it open.
    closed spec fn model(&self) -> StoreModel {
        arbitrary()
    }

    /// Whether the store serves every operation. A backend that the host
    /// supplies leaves it open.
    closed spec fn reliable(&self) -> bool {
        arbitrary()
    }

    /// The total of a peer's recorded moves since an instant, as this backend
    /// rounds it.
    closed spec fn influence_of(moves: Seq<InfluenceRow>, peer: Seq<u8>, since_ns: u64) -> Scalar {
        arbitrary()
    }

    /// Apply any outstanding schema migrations. On an up-to-date store this
    /// does nothing.
    fn migrate(&mut self) -> (r: StoreResult<()>)
        ensures
            old(self).reliable() ==> r is Ok && final(self).reliable(),
            r is Ok ==> final(self).model() == old(self).model().up_to_date(),
    ;

    /// The durability guarantee that this backend provides.
    fn durability(&self) -> (r: Durability);

    /// Force any buffered writes to their durable home.
    fn flush(&mut self) -> (r: StoreResult<()>)
        ensures
            old(self).reliable() ==> r is Ok && final(self).reliable(),
            r is Ok ==> final(self).model() == old(self).model().flushed(),
    ;

    /// Insert or replace a synapse record.
    fn put_synapse(&mut self, record: &SynapseRecord) -> (r: StoreResult<()>)
        ensures
            old(self).reliable() ==> r is Ok && final(self).reliable(),
            r is Ok ==> final(self).model() == old(self).model().with_synapse(record@),
    ;

    /// Fetch a synapse by identifier.
    fn get_synapse(&self, id: &SynapseId) -> (r: StoreResult<Option<SynapseRecord>>)
        ensures
            self.reliable() ==> r is Ok,
            r matches Ok(found) ==> match found {
                Some(record) => self.model().synapses.dom().contains(id@) && record@
                    == self.model().synapses[id@] && record@.id == id@,
                None => !self.model().synapses.dom().contains(id@),
            },
    ;

    /// Fetch the synapse to a given peer, if one exists.
    fn synapse_for_peer(&self, peer: &NodeId) -> (r: StoreResult<Option<SynapseRecord>>)
        ensures
            self.reliable() ==> r is Ok,
            r matches Ok(found) ==> match found {
                Some(record) => record@.peer == peer@ && self.model().synapses.dom().contains(
                    record@.id,
                ) && self.model().synapses[record@.id] == record@,
                None => forall|id: Seq<char>| #[trigger]
                    self.model().synapses.dom().contains(id) ==> self.model().synapses[id].peer
                        != peer@,
            },
    ;

    /// List synapses matching a filter, heaviest first.
    fn list_synapses(&self, filter: &SynapseFilter) -> (r: StoreResult<Vec<SynapseRecord>>)
        ensures
            self.reliable() ==> r is Ok,
            r matches Ok(list) ==> exists|all: Seq<SynapseRow>| #[trigger]
                lists_synapses(self.model().synapses, filter@, all) && rows(list@) == (
                match filter@.limit {
                    Some(limit) => limited(all, limit as int),
                    None => all,
                }),
    ;

    /// Remove a synapse record. Removing an absent one is not an error.
    fn delete_synapse(&mut self, id: &SynapseId) -> (r: StoreResult<()>)
        ensures
            old(self).reliable() ==> r is Ok && final(self).reliable(),
            r is Ok ==> final(self).model() == old(self).model().without_synapse(id@),
    ;

    /// Insert or replace a peer record.
    fn put_peer(&mut self, record: &PeerRecord) -> (r: StoreResult<()>)
        ensures
            old(self).reliable() ==> r is Ok && final(self).reliable(),
            r is Ok ==> final(self).model() == old(self).model().with_peer(record@),
    ;

    /// Fetch a peer record.
    fn get_peer(&self, id: &NodeId) -> (r: StoreResult<Option<PeerRecord>>)
        ensures
            self.reliable() ==> r is Ok,
            r matches Ok(found) ==> match found {
                Some(record) => self.model().peers.dom().contains(id@) && record@
                    == self.model().peers[id@],
                None => !self.model().peers.dom().contains(id@),
            },
    ;

    /// List known peers, most recently seen first, of one region if one is
    /// given.
    fn list_peers(&self, region: Option<&str>, limit: usize) -> (r: StoreResult<Vec<PeerRecord>>)
        ensures
            self.reliable() ==> r is Ok,
            r matches Ok(list) ==> exists|all: Seq<PeerRow>| #[trigger]
                lists_peers(self.model().peers, chars_of(region), all) && peer_rows(list@) == limited(all, limit as int),
    ;

    /// Count known peers by provenance.
    fn count_peers(&self, source: PeerSource) -> (r: StoreResult<u64>)
        ensures
            self.reliable() ==> r is Ok,
            r matches Ok(n) ==> n == self.model().peers.dom().filter(
                |id: Seq<u8>| self.model().peers[id].source == source,
            ).len(),
    ;

    /// Record that a signal has been seen, returning whether it had been seen
    /// already. The test and the record are one step.
    fn check_and_set_seen(&mut self, id: &SignalId, now_ns: u64, ttl_secs: u64) -> (r: StoreResult<
        bool,
    >)
        ensures
            old(self).reliable() ==> r is Ok && final(self).reliable(),
            r matches Ok(seen) ==> seen == old(self).model().sees(*id, now_ns)
                && final(self).model() == old(self).model().marked(*id, now_ns, ttl_secs),
    ;

    /// Whether a signal is in the deduplication cache, without inserting it.
    fn has_seen(&self, id: &SignalId, now_ns: u64) -> (r: StoreResult<bool>)
        ensures
            self.reliable() ==> r is Ok,
            r matches Ok(seen) ==> seen == self.model().sees(*id, now_ns),
    ;

    /// Drop expired deduplication entries, returning how many were removed.
    fn purge_expired_seen(&mut self, now_ns: u64) -> (r: StoreResult<u64>)
        ensures
            old(self).reliable() ==> r is Ok && final(self).reliable(),
            r matches Ok(n) ==> final(self).model() == old(self).model().purged(now_ns) && n
                == old(self).model().seen.dom().len() - final(self).model().seen.dom().len(),
    ;

    /// Persist the activation snapshot, replacing any previous one.
    fn save_activation(&mut self, snapshot: &ActivationSnapshot) -> (r: StoreResult<()>)
        ensures
            old(self).reliable() ==> r is Ok && final(self).reliable(),
            r is Ok ==> final(self).model() == old(self).model().with_activation(*snapshot),
    ;

    /// Load the most recent activation snapshot.
    fn load_activation(&self) -> (r: StoreResult<Option<ActivationSnapshot>>)
        ensures
            self.reliable() ==> r is Ok,
            r matches Ok(found) ==> found == self.model().activation,
    ;

    /// Append a routing decision, returning its assigned identifier. It fails
    /// where no identifier is left.
    fn append_decision(&mut self, entry: &JournalEntry) -> (r: StoreResult<JournalId>)
        ensures
            old(self).reliable() ==> final(self).reliable(),
            old(self).reliable() && old(self).model().issued < u64::MAX ==> r is Ok,
            old(self).reliable() && old(self).model().issued == u64::MAX ==> final(self).model()
                == old(self).model(),
            r matches Ok(id) ==> old(self).model().issued < u64::MAX && id == JournalId(
                (old(self).model().issued + 1) as u64,
            ) && final(self).model() == old(self).model().with_decision(entry@),
    ;

    /// Attach an observed outcome to a decision, and return the entry as it now
    /// stands. The first outcome wins; an unknown identifier is no error.
    fn resolve_decision(&mut self, id: JournalId, outcome: Outcome, now_ns: u64) -> (r: StoreResult<
        Option<JournalEntry>,
    >)
        ensures
            old(self).reliable() ==> r is Ok && final(self).reliable(),
            r matches Ok(found) ==> {
                &&& final(self).model() == old(self).model().with_outcome(id, outcome, now_ns)
                &&& found is Some <==> old(self).model().has_decision(id)
                &&& found matches Some(entry) ==> entry@ == final(self).model().journal[old(self).model().decision_at(id)]
            },
    ;

    /// Fetch a decision by identifier.
    fn get_decision(&self, id: JournalId) -> (r: StoreResult<Option<JournalEntry>>)
        ensures
            self.reliable() ==> r is Ok,
            r matches Ok(found) ==> match found {
                Some(entry) => self.model().has_decision(id) && entry@
                    == self.model().journal[self.model().decision_at(id)],
                None => !self.model().has_decision(id),
            },
    ;

    /// Find a decision awaiting a receipt for a given signal and peer.
    fn pending_decision_for(&self, signal: &SignalId, peer: &NodeId) -> (r: StoreResult<
        Option<JournalEntry>,
    >)
        ensures
            self.reliable() ==> r is Ok,
            r matches Ok(found) ==> match found {
                Some(entry) => self.model().journal.contains(entry@) && entry@.awaits(
                    *signal,
                    peer@,
                ),
                None => forall|i: int|
                    0 <= i < self.model().journal.len() ==> !(
                    #[trigger] self.model().journal[i]).awaits(*signal, peer@),
            },
    ;

    /// Decisions still pending whose deadline has passed, as many as the limit
    /// allows.
    fn expired_decisions(&self, deadline_ns: u64, limit: usize) -> (r: StoreResult<
        Vec<JournalEntry>,
    >)
        ensures
            self.reliable() ==> r is Ok,
            r matches Ok(list) ==> exists|all: Seq<JournalRow>|
                #![trigger limited(all, limit as int)]
                journal_rows(list@) == limited(all, limit as int) && all.to_multiset()
                    == self.model().journal.filter(
                    |e: JournalRow| e.overdue(deadline_ns),
                ).to_multiset(),
    ;

    /// Most recent decisions, newest first, optionally of one signal type.
    fn recent_decisions(&self, signal_type: Option<&SignalType>, limit: usize) -> (r: StoreResult<
        Vec<JournalEntry>,
    >)
        ensures
            self.reliable() ==> r is Ok,
            r matches Ok(list) ==> exists|all: Seq<JournalRow>| #[trigger]
                lists_decisions(self.model().journal, type_of(signal_type), all) && journal_rows(list@) == limited(all, limit as int),
    ;

    /// Drop journal entries older than a cutoff, returning how many went.
    fn trim_journal(&mut self, older_than_ns: u64) -> (r: StoreResult<u64>)
        ensures
            old(self).reliable() ==> r is Ok && final(self).reliable(),
            r matches Ok(n) ==> final(self).model() == old(self).model().trimmed(older_than_ns) && n
                == old(self).model().journal.len() - final(self).model().journal.len(),
    ;

    /// Record how far a peer moved its own weight, and return the total it has
    /// accumulated since `window_start_ns`.
    fn record_influence(
        &mut self,
        peer: &NodeId,
        magnitude: Scalar,
        now_ns: u64,
        window_start_ns: u64,
    ) -> (r: StoreResult<Scalar>)
        ensures
            old(self).reliable() ==> r is Ok && final(self).reliable(),
            r matches Ok(total) ==> final(self).model() == old(self).model().with_influence(
                peer@,
                magnitude,
                now_ns,
            ) && total == Self::influence_of(
                final(self).model().influence,
                peer@,
                window_start_ns,
            ),
    ;

    /// Total influence that a peer has accumulated since `window_start_ns`, as
    /// the backend rounds it.
    fn influence_since(&self, peer: &NodeId, window_start_ns: u64) -> (r: StoreResult<Scalar>)
        ensures
            self.reliable() ==> r is Ok,
            r matches Ok(total) ==> total == Self::influence_of(
                self.model().influence,
                peer@,
                window_start_ns,
            ),
    ;

    /// Drop influence records older than a cutoff, returning how many went.
    fn purge_influence(&mut self, older_than_ns: u64) -> (r: StoreResult<u64>)
        ensures
            old(self).reliable() ==> r is Ok && final(self).reliable(),
            r matches Ok(n) ==> final(self).model() == old(self).model().forgotten(older_than_ns)
                && n == old(self).model().influence.len() - final(self).model().influence.len(),
    ;

    /// Store an opaque metadata value.
    fn put_meta(&mut self, key: &str, value: &Vec<u8>) -> (r: StoreResult<()>)
        ensures
            old(self).reliable() ==> r is Ok && final(self).reliable(),
            r is Ok ==> final(self).model() == old(self).model().with_meta(key@, value@),
    ;

    /// Read an opaque metadata value.
    fn get_meta(&self, key: &str) -> (r: StoreResult<Option<Vec<u8>>>)
        ensures
            self.reliable() ==> r is Ok,
            r matches Ok(found) ==> match found {
                Some(value) => self.model().meta.dom().contains(key@) && value@
                    == self.model().meta[key@],
                None => !self.model().meta.dom().contains(key@),
            },
    ;

    /// Whether this backend retains signal bodies.
    fn signal_history_enabled(&self) -> (r: bool)
        ensures
            r == self.model().keeps_history,
    ;

    /// Retain a signal body for later replay. A backend that retains none
    /// refuses rather than discards.
    fn put_signal_history(&mut self, id: &SignalId, body: &Vec<u8>, now_ns: u64) -> (r: StoreResult<
        (),
    >)
        ensures
            old(self).reliable() && old(self).model().keeps_history ==> r is Ok && final(self).reliable(),
            !old(self).model().keeps_history ==> r == Err::<(), StoreError>(
                StoreError::Unsupported("signal history"),
            ) && final(self).model() == old(self).model(),
            r is Ok ==> final(self).model() == old(self).model().with_body(*id, body@),
    ;

    /// Read back a retained signal body.
    fn get_signal_history(&self, id: &SignalId) -> (r: StoreResult<Option<Vec<u8>>>)
        ensures
            self.reliable() && self.model().keeps_history ==> r is Ok,
            !self.model().keeps_history ==> r == Err::<Option<Vec<u8>>, StoreError>(
                StoreError::Unsupported("signal history"),
            ),
            r matches Ok(found) ==> match found {
                Some(body) => self.model().history.dom().contains(*id) && body@
                    == self.model().history[*id],
                None => !self.model().history.dom().contains(*id),
            },
    ;
}

/// A signal that has been marked is seen until its entry expires, and from then
/// on it is not.
pub proof fn lemma_marking_lasts_its_time(
    kept: StoreModel,
    id: SignalId,
    now_ns: u64,
    ttl_secs: u64,
    later_ns: u64,
)
    requires
        !kept.sees(id, now_ns),
    ensures
        kept.marked(id, now_ns, ttl_secs).sees(id, later_ns) <==> later_ns < seen_until(
            now_ns,
            ttl_secs,
        ),
{
}

/// Marking a signal says nothing of another, and purging takes nothing that is
/// still seen.
pub proof fn lemma_marking_is_of_one_signal(
    kept: StoreModel,
    id: SignalId,
    other: SignalId,
    now_ns: u64,
    ttl_secs: u64,
    later_ns: u64,
)
    requires
        other != id,
        now_ns <= later_ns,
    ensures
        kept.marked(id, now_ns, ttl_secs).sees(other, later_ns) == kept.sees(other, later_ns),
        kept.purged(now_ns).sees(other, later_ns) == kept.sees(other, later_ns),
{
}

/// What is written is read back, and a synapse that is removed is gone. Nothing
/// else changes.
pub proof fn lemma_reads_follow_writes(
    kept: StoreModel,
    row: SynapseRow,
    other: Seq<char>,
    peer: PeerRow,
    snapshot: ActivationSnapshot,
    key: Seq<char>,
    value: Seq<u8>,
    id: SignalId,
    body: Seq<u8>,
)
    ensures
        kept.with_synapse(row).synapses.dom().contains(row.id),
        kept.with_synapse(row).synapses[row.id] == row,
        other != row.id ==> kept.with_synapse(row).synapses.dom().contains(other)
            == kept.synapses.dom().contains(other),
        other != row.id && kept.synapses.dom().contains(other) ==> kept.with_synapse(
            row,
        ).synapses[other] == kept.synapses[other],
        !kept.without_synapse(row.id).synapses.dom().contains(row.id),
        kept.with_peer(peer).peers.dom().contains(peer.id),
        kept.with_peer(peer).peers[peer.id] == peer,
        kept.with_activation(snapshot).activation == Some(snapshot),
        kept.with_meta(key, value).meta.dom().contains(key),
        kept.with_meta(key, value).meta[key] == value,
        kept.with_body(id, body).history.dom().contains(id),
        kept.with_body(id, body).history[id] == body,
{
}

} // verus!
