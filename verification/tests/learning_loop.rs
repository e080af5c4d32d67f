use std::cell::{Cell, RefCell};
use std::rc::Rc;

use ntl::config::NodeConfig;
use ntl::curves::Curves;
use ntl::delivery::{Receipt, RejectReason};
use ntl::learning::{decayed_weight, DeploymentClass};
use ntl::memory::MemoryStore;
use ntl::node::{BuiltNode, Node};
use ntl::rng::SplitMix64;
use ntl::scalar::Scalar;
use ntl::signal::{NodeId, Signal, SignalId, SignalType};
use ntl::store::{
    ActivationSnapshot, Durability, JournalEntry, JournalId, NodeStore, Outcome, PeerRecord,
    PeerSource, StoreResult, SynapseFilter, SynapseRecord,
};
use ntl::synapse::SynapseId;
use ntl::testing::{test_node, test_node_id, test_node_with_config, TEST_EPOCH_NS};
use ntl::time::{Clock, NANOS_PER_HOUR, NANOS_PER_SEC};

fn f(x: f32) -> Scalar {
    Scalar::from_bits(x.to_bits())
}

fn g(x: Scalar) -> f32 {
    f32::from_bits(x.to_bits())
}

#[derive(Debug, Clone, Copy)]
struct Host;

impl Curves for Host {
    fn exp(&self, x: Scalar) -> Scalar {
        f(g(x).exp())
    }

    fn exp2(&self, x: Scalar) -> Scalar {
        f(g(x).exp2())
    }

    fn log2(&self, x: Scalar) -> Scalar {
        f(g(x).log2())
    }

    fn ns_to_hours(&self, ns: u64) -> Scalar {
        f((ns as f64 / NANOS_PER_HOUR as f64) as f32)
    }

    fn hours_to_ns(&self, hours: Scalar) -> u64 {
        (f64::from(g(hours)) * NANOS_PER_HOUR as f64) as u64
    }
}

/// A clock that the test and the node share.
#[derive(Debug, Clone)]
struct Ticks(Rc<Cell<u64>>);

impl Ticks {
    fn starting_at(now_ns: u64) -> Ticks {
        Ticks(Rc::new(Cell::new(now_ns)))
    }

    fn advance_secs(&self, secs: u64) {
        self.0.set(self.0.get() + secs * NANOS_PER_SEC);
    }

    fn advance_hours(&self, hours: u64) {
        self.0.set(self.0.get() + hours * NANOS_PER_HOUR);
    }
}

impl Clock for Ticks {
    fn now_ns(&self) -> u64 {
        self.0.get()
    }
}

type TestNode = BuiltNode<MemoryStore, Ticks, SplitMix64, Host>;

fn node_of(identity: u8) -> (TestNode, Ticks) {
    let clock = Ticks::starting_at(TEST_EPOCH_NS);
    (test_node(identity, clock.clone(), Host), clock)
}

fn node_of_with_config(identity: u8, config: NodeConfig) -> (TestNode, Ticks) {
    let clock = Ticks::starting_at(TEST_EPOCH_NS);
    (test_node_with_config(identity, config, clock.clone(), Host), clock)
}

/// A store that outlives the node that it was given to, and what was done to it
/// as a whole.
#[derive(Debug, Clone, Default)]
struct Shared(Rc<RefCell<MemoryStore>>, Rc<RefCell<Vec<&'static str>>>);

impl NodeStore for Shared {
    fn migrate(&mut self) -> StoreResult<()> {
        self.1.borrow_mut().push("migrate");
        self.0.borrow_mut().migrate()
    }

    fn durability(&self) -> Durability {
        self.0.borrow().durability()
    }

    fn flush(&mut self) -> StoreResult<()> {
        self.1.borrow_mut().push("flush");
        self.0.borrow_mut().flush()
    }

    fn put_synapse(&mut self, record: &SynapseRecord) -> StoreResult<()> {
        self.0.borrow_mut().put_synapse(record)
    }

    fn get_synapse(&self, id: &SynapseId) -> StoreResult<Option<SynapseRecord>> {
        self.0.borrow().get_synapse(id)
    }

    fn synapse_for_peer(&self, peer: &NodeId) -> StoreResult<Option<SynapseRecord>> {
        self.0.borrow().synapse_for_peer(peer)
    }

    fn list_synapses(&self, filter: &SynapseFilter) -> StoreResult<Vec<SynapseRecord>> {
        self.0.borrow().list_synapses(filter)
    }

    fn delete_synapse(&mut self, id: &SynapseId) -> StoreResult<()> {
        self.0.borrow_mut().delete_synapse(id)
    }

    fn put_peer(&mut self, record: &PeerRecord) -> StoreResult<()> {
        self.0.borrow_mut().put_peer(record)
    }

    fn get_peer(&self, id: &NodeId) -> StoreResult<Option<PeerRecord>> {
        self.0.borrow().get_peer(id)
    }

    fn list_peers(&self, region: Option<&str>, limit: usize) -> StoreResult<Vec<PeerRecord>> {
        self.0.borrow().list_peers(region, limit)
    }

    fn count_peers(&self, source: PeerSource) -> StoreResult<u64> {
        self.0.borrow().count_peers(source)
    }

    fn check_and_set_seen(&mut self, id: &SignalId, now_ns: u64, ttl_secs: u64) -> StoreResult<bool> {
        self.0.borrow_mut().check_and_set_seen(id, now_ns, ttl_secs)
    }

    fn has_seen(&self, id: &SignalId, now_ns: u64) -> StoreResult<bool> {
        self.0.borrow().has_seen(id, now_ns)
    }

    fn purge_expired_seen(&mut self, now_ns: u64) -> StoreResult<u64> {
        self.0.borrow_mut().purge_expired_seen(now_ns)
    }

    fn save_activation(&mut self, snapshot: &ActivationSnapshot) -> StoreResult<()> {
        self.0.borrow_mut().save_activation(snapshot)
    }

    fn load_activation(&self) -> StoreResult<Option<ActivationSnapshot>> {
        self.0.borrow().load_activation()
    }

    fn append_decision(&mut self, entry: &JournalEntry) -> StoreResult<JournalId> {
        self.0.borrow_mut().append_decision(entry)
    }

    fn resolve_decision(&mut self, id: JournalId, outcome: Outcome, now_ns: u64) -> StoreResult<Option<JournalEntry>> {
        self.0.borrow_mut().resolve_decision(id, outcome, now_ns)
    }

    fn get_decision(&self, id: JournalId) -> StoreResult<Option<JournalEntry>> {
        self.0.borrow().get_decision(id)
    }

    fn pending_decision_for(&self, signal: &SignalId, peer: &NodeId) -> StoreResult<Option<JournalEntry>> {
        self.0.borrow().pending_decision_for(signal, peer)
    }

    fn expired_decisions(&self, deadline_ns: u64, limit: usize) -> StoreResult<Vec<JournalEntry>> {
        self.0.borrow().expired_decisions(deadline_ns, limit)
    }

    fn recent_decisions(&self, signal_type: Option<&SignalType>, limit: usize) -> StoreResult<Vec<JournalEntry>> {
        self.0.borrow().recent_decisions(signal_type, limit)
    }

    fn trim_journal(&mut self, older_than_ns: u64) -> StoreResult<u64> {
        self.0.borrow_mut().trim_journal(older_than_ns)
    }

    fn record_influence(&mut self, peer: &NodeId, magnitude: Scalar, now_ns: u64, window_start_ns: u64) -> StoreResult<Scalar> {
        self.0.borrow_mut().record_influence(peer, magnitude, now_ns, window_start_ns)
    }

    fn influence_since(&self, peer: &NodeId, window_start_ns: u64) -> StoreResult<Scalar> {
        self.0.borrow().influence_since(peer, window_start_ns)
    }

    fn purge_influence(&mut self, older_than_ns: u64) -> StoreResult<u64> {
        self.0.borrow_mut().purge_influence(older_than_ns)
    }

    fn put_meta(&mut self, key: &str, value: &Vec<u8>) -> StoreResult<()> {
        self.0.borrow_mut().put_meta(key, value)
    }

    fn get_meta(&self, key: &str) -> StoreResult<Option<Vec<u8>>> {
        self.0.borrow().get_meta(key)
    }

    fn signal_history_enabled(&self) -> bool {
        self.0.borrow().signal_history_enabled()
    }

    fn put_signal_history(&mut self, id: &SignalId, body: &Vec<u8>, now_ns: u64) -> StoreResult<()> {
        self.0.borrow_mut().put_signal_history(id, body, now_ns)
    }

    fn get_signal_history(&self, id: &SignalId) -> StoreResult<Option<Vec<u8>>> {
        self.0.borrow().get_signal_history(id)
    }
}

type SharedNode = Node<Shared, Ticks, SplitMix64, Host>;

fn with_peers(node: &mut TestNode, n: u8) -> Vec<NodeId> {
    (1..=n)
        .map(|i| {
            let peer = test_node_id(i);
            node.upsert_synapse(&peer).expect("synapse");
            peer
        })
        .collect()
}

fn weight_of(node: &TestNode, peer: &NodeId) -> f32 {
    g(node
        .store()
        .synapse_for_peer(peer)
        .expect("store")
        .expect("synapse must exist")
        .weight)
}

#[test]
fn a_delivered_receipt_strengthens_the_path_that_carried_it() {
    let (mut node, _clock) = node_of(200);
    let peers = with_peers(&mut node, 1);
    let before = weight_of(&node, &peers[0]);

    let signal = node
        .emit(Signal::data("order").with_weight(f(0.8)).acknowledged())
        .expect("emit");
    let arrived = incoming(&signal, 9);
    let disposition = node.receive(&arrived, None).expect("receive");
    assert!(
        !disposition.forward_to.is_empty(),
        "with one active synapse the signal should be forwarded"
    );
    let forward = &disposition.forward_to[0];
    let receipt = Receipt::delivered(arrived.id, 1);
    let update = node
        .apply_receipt(&receipt, &forward.peer)
        .expect("apply receipt")
        .expect("a matching decision must be found");

    assert!(g(update.applied_delta) > 0.0, "delivery must strengthen");
    assert!(
        weight_of(&node, &peers[0]) > before,
        "the synapse that delivered should carry more weight than before"
    );
}

#[test]
fn a_rejection_weakens_the_path() {
    let (mut node, _clock) = node_of(201);
    let peers = with_peers(&mut node, 1);
    let signal = node
        .emit(Signal::data("order").with_weight(f(0.9)).acknowledged())
        .expect("emit");
    let arrived = incoming(&signal, 9);
    let disposition = node.receive(&arrived, None).expect("receive");
    let forward = &disposition.forward_to[0];
    let before = weight_of(&node, &peers[0]);

    let receipt = Receipt::rejected(arrived.id, RejectReason::NoRoute, 1);
    let update = node
        .apply_receipt(&receipt, &forward.peer)
        .expect("apply")
        .expect("matched");

    assert!(g(update.applied_delta) < 0.0, "rejection must weaken");
    assert!(weight_of(&node, &peers[0]) < before);
}

#[test]
fn a_replayed_receipt_has_no_second_effect() {
    let (mut node, _clock) = node_of(202);
    with_peers(&mut node, 1);

    let signal = node
        .emit(Signal::data("order").with_weight(f(0.8)).acknowledged())
        .expect("emit");
    let arrived = incoming(&signal, 9);
    let forward = node.receive(&arrived, None).expect("receive").forward_to[0].clone();

    let receipt = Receipt::delivered(arrived.id, 1);
    let first = node
        .apply_receipt(&receipt, &forward.peer)
        .expect("apply")
        .expect("matched");
    let after_first = g(first.after);
    let second = node.apply_receipt(&receipt, &forward.peer).expect("apply");
    assert!(
        second.is_none(),
        "a replayed receipt must not resolve the decision again"
    );

    let peer = test_node_id(1);
    assert!(
        (weight_of(&node, &peer) - after_first).abs() < 1e-6,
        "the weight must be unchanged by the replay"
    );
}

#[test]
fn an_unmatched_receipt_is_discarded_without_changing_weights() {
    let (mut node, _clock) = node_of(203);
    let peers = with_peers(&mut node, 1);
    let before = weight_of(&node, &peers[0]);
    let forged = Receipt::delivered(
        SignalId::from_parts(TEST_EPOCH_NS / 1_000_000, 12345),
        1,
    );
    assert!(
        node.apply_receipt(&forged, &peers[0])
            .expect("apply")
            .is_none(),
        "a receipt matching no journalled decision must be discarded"
    );
    assert!(
        (weight_of(&node, &peers[0]) - before).abs() < f32::EPSILON,
        "forged receipts must not move weights — this is the cheapest \
         possible attack on the model"
    );
}

#[test]
fn silence_becomes_a_negative_reward_after_the_window() {
    let (mut node, clock) = node_of(204);
    let peers = with_peers(&mut node, 1);

    let signal = node
        .emit(Signal::data("order").with_weight(f(0.9)).acknowledged())
        .expect("emit");
    let arrived = incoming(&signal, 9);
    node.receive(&arrived, None).expect("receive");
    let before = weight_of(&node, &peers[0]);
    assert_eq!(
        node.sweep_timeouts(10).expect("sweep"),
        0,
        "a decision inside its window must not be timed out"
    );

    clock.advance_secs(node.config().learning.receipt_window_secs + 1);
    let resolved = node.sweep_timeouts(10).expect("sweep");

    assert_eq!(resolved, 1, "the expired decision must be resolved");
    assert!(
        weight_of(&node, &peers[0]) < before,
        "silence must cost the path something, or failure is unlearnable"
    );
}

#[test]
fn the_network_learns_which_peer_delivers() {
    let (mut node, clock) = node_of(205);
    let good = test_node_id(1);
    let bad = test_node_id(2);
    node.upsert_synapse(&good).expect("synapse");
    node.upsert_synapse(&bad).expect("synapse");

    let mut good_chosen = 0;
    let mut bad_chosen = 0;

    for round in 0..300 {
        let signal = node
            .emit(Signal::data("query").with_weight(f(0.8)).acknowledged())
            .expect("emit");
        let arrived = incoming(&signal, 9);
        let disposition = node.receive(&arrived, None).expect("receive");

        for forward in &disposition.forward_to {
            if forward.peer == good {
                good_chosen += 1;
                let r = Receipt::delivered(arrived.id, 1);
                node.apply_receipt(&r, &forward.peer).expect("apply");
            } else {
                bad_chosen += 1;
                let r = Receipt::rejected(arrived.id, RejectReason::NoRoute, 1);
                node.apply_receipt(&r, &forward.peer).expect("apply");
            }
        }
        clock.advance_secs(1);
        if round % 50 == 0 {
            node.checkpoint().expect("checkpoint");
        }
    }

    let good_weight = weight_of(&node, &good);
    let bad_weight = weight_of(&node, &bad);

    assert!(
        good_weight > bad_weight,
        "the delivering peer must end stronger: good={good_weight}, bad={bad_weight}"
    );
    assert!(
        bad_chosen > 0,
        "the failing peer must have been tried at all — otherwise the test \
         proves nothing about learning"
    );
    assert!(
        good_chosen > bad_chosen,
        "traffic should have shifted toward the delivering peer: \
         good={good_chosen}, bad={bad_chosen}"
    );
}

#[test]
fn exploration_keeps_probing_a_weak_path() {
    let (mut node, clock) = node_of(206);
    let strong = test_node_id(1);
    let weak = test_node_id(2);
    node.upsert_synapse(&strong).expect("synapse");
    node.upsert_synapse(&weak).expect("synapse");
    for _ in 0..40 {
        let signal = node
            .emit(Signal::data("q").with_weight(f(0.9)).acknowledged())
            .expect("emit");
        let arrived = incoming(&signal, 9);
        for forward in node.receive(&arrived, None).expect("receive").forward_to {
            if forward.peer == strong {
                node.apply_receipt(&Receipt::delivered(arrived.id, 1), &forward.peer)
                    .expect("apply");
            }
        }
        clock.advance_secs(1);
    }
    let mut weak_tried = 0;
    for _ in 0..300 {
        let signal = node.emit(Signal::data("q").with_weight(f(0.5))).expect("emit");
        let arrived = incoming(&signal, 9);
        for forward in node.receive(&arrived, None).expect("receive").forward_to {
            if forward.peer == weak {
                weak_tried += 1;
            }
        }
        clock.advance_secs(1);
    }

    assert!(
        weak_tried > 0,
        "a weak synapse must still be probed; without exploration its weight \
         only ever decays and routing ossifies"
    );
}

#[test]
fn a_failing_path_is_deprioritised_but_still_reachable() {
    let (mut node, clock) = node_of(219);
    let good = test_node_id(1);
    let bad = test_node_id(2);
    node.upsert_synapse(&good).expect("synapse");
    node.upsert_synapse(&bad).expect("synapse");

    let mut bad_tried = 0;
    for _ in 0..300 {
        let signal = node
            .emit(Signal::data("q").with_weight(f(0.8)).acknowledged())
            .expect("emit");
        let arrived = incoming(&signal, 9);
        for forward in node.receive(&arrived, None).expect("receive").forward_to {
            if forward.peer == bad {
                bad_tried += 1;
                node.apply_receipt(&Receipt::rejected(arrived.id, RejectReason::NoRoute, 1), &forward.peer)
                    .expect("apply");
            } else {
                node.apply_receipt(&Receipt::delivered(arrived.id, 1), &forward.peer)
                    .expect("apply");
            }
        }
        clock.advance_secs(1);
    }

    assert!(
        bad_tried > 1,
        "the failing peer must keep being probed rather than being excluded \
         after its first failure; it was tried {bad_tried} times"
    );
    assert!(
        weight_of(&node, &good) > weight_of(&node, &bad) * 5.0,
        "the delivering peer should end clearly stronger: good={}, bad={}",
        weight_of(&node, &good),
        weight_of(&node, &bad)
    );
}

#[test]
fn total_outbound_weight_stays_within_budget() {
    let (mut node, clock) = node_of_with_config(207, NodeConfig::for_class(DeploymentClass::Edge));
    let peers = with_peers(&mut node, 20);
    for _ in 0..200 {
        let signal = node
            .emit(Signal::data("q").with_weight(f(1.0)).acknowledged())
            .expect("emit");
        let arrived = incoming(&signal, 9);
        for forward in node.receive(&arrived, None).expect("receive").forward_to {
            node.apply_receipt(&Receipt::delivered(arrived.id, 1), &forward.peer)
                .expect("apply");
        }
        clock.advance_secs(1);
    }

    let total: f32 = peers.iter().map(|p| weight_of(&node, p)).sum();
    let budget = g(node.config().learning.max_total_outbound_weight);
    assert!(
        total <= budget + 0.05,
        "total outbound weight {total} must stay within the budget {budget}"
    );
}

#[test]
fn influence_cap_bounds_a_single_peer() {
    let (mut node, clock) = node_of(208);
    let attacker = test_node_id(1);
    node.upsert_synapse(&attacker).expect("synapse");

    let cap = g(node.config().learning.influence_cap_per_peer);
    for _ in 0..500 {
        let signal = node
            .emit(Signal::data("q").with_weight(f(1.0)).acknowledged())
            .expect("emit");
        let arrived = incoming(&signal, 9);
        for forward in node.receive(&arrived, None).expect("receive").forward_to {
            node.apply_receipt(&Receipt::delivered(arrived.id, 1), &forward.peer)
                .expect("apply");
        }
        clock.advance_secs(1);
    }

    let used = g(node
        .store()
        .influence_since(
            &attacker,
            node.config()
                .learning
                .influence_window_start(node.now_ns()),
        )
        .expect("influence"));

    assert!(
        used <= cap + 0.01,
        "one identity accumulated {used} influence against a cap of {cap}"
    );
}

#[test]
fn dedup_stops_a_signal_being_processed_twice() {
    let (mut node, _clock) = node_of(209);
    with_peers(&mut node, 2);

    let signal = node.emit(Signal::data("q").with_weight(f(0.9))).expect("emit");
    let arrived = incoming(&signal, 9);

    let first = node.receive(&arrived, None).expect("receive");
    let second = node.receive(&arrived, None).expect("receive");

    assert!(!first.forward_to.is_empty(), "the first arrival should route");
    assert!(
        second.forward_to.is_empty() && second.handle_locally.is_empty(),
        "a repeat arrival must be dropped, or cyclic topologies loop forever"
    );
}

#[test]
fn what_comes_again_by_another_path_is_nothing_until_it_is_forgotten() {
    let (mut node, clock) = node_of(230);
    let peers = with_peers(&mut node, 3);
    let other = node
        .store()
        .synapse_for_peer(&peers[0])
        .expect("store")
        .expect("synapse")
        .id;
    let signal = node.emit(Signal::data("q").with_weight(f(0.9))).expect("emit");
    let arrived = incoming(&signal, 9);
    let window = node.config().propagation.dedup_cache_seconds;

    let first = node.receive(&arrived, None).expect("receive");
    assert!(!first.forward_to.is_empty());
    clock.advance_secs(window - 1);
    let again = node.receive(&arrived, Some(&other)).expect("receive");
    assert!(again.forward_to.is_empty() && again.handle_locally.is_empty());
    assert!(!again.queued && again.receipt.is_none() && again.evicted.is_none());

    clock.advance_secs(1);
    let forgotten = node.receive(&arrived, None).expect("receive");
    assert!(!forgotten.forward_to.is_empty() || forgotten.queued);
}

#[test]
fn building_migrates_the_store_and_a_checkpoint_flushes_it() {
    let store = Shared::default();
    let mut node = SharedNode::builder(Host)
        .with_config(NodeConfig::default())
        .with_identity(test_node_id(231))
        .with_store(store.clone())
        .with_clock(Ticks::starting_at(TEST_EPOCH_NS))
        .with_rng(SplitMix64::seeded(3))
        .build()
        .expect("build");
    assert_eq!(*store.1.borrow(), vec!["migrate"]);
    node.checkpoint().expect("checkpoint");
    assert_eq!(*store.1.borrow(), vec!["migrate", "flush"]);
}

#[test]
fn a_signal_is_never_sent_back_where_it_came_from() {
    let (mut node, _clock) = node_of(210);
    let peers = with_peers(&mut node, 3);
    let arrival = node
        .store()
        .synapse_for_peer(&peers[0])
        .expect("store")
        .expect("synapse")
        .id;

    for i in 0..30u8 {
        let signal = node
            .emit(Signal::data("q").with_weight(f(0.9)))
            .expect("emit");
        let arrived = incoming(&signal, 100 + i);
        let disposition = node.receive(&arrived, Some(&arrival)).expect("receive");
        assert!(
            disposition.forward_to.iter().all(|f| f.synapse != arrival),
            "the arrival synapse must be excluded from forwarding"
        );
    }
}

#[test]
fn an_acknowledged_signal_with_no_route_gets_a_negative_receipt() {
    let (mut node, _clock) = node_of(211);

    let signal = node
        .emit(Signal::data("order").with_weight(f(0.9)).acknowledged())
        .expect("emit");
    let arrived = incoming(&signal, 9);
    let disposition = node.receive(&arrived, None).expect("receive");

    let receipt = disposition
        .receipt
        .expect("an acknowledged signal must never fail silently");
    assert!(!receipt.is_delivered());
    assert_eq!(receipt.correlation_id, arrived.id);
}

#[test]
fn a_best_effort_signal_with_no_route_fails_silently() {
    let (mut node, _clock) = node_of(212);

    let signal = node.emit(Signal::data("telemetry").with_weight(f(0.9))).expect("emit");
    let arrived = incoming(&signal, 9);
    let disposition = node.receive(&arrived, None).expect("receive");

    assert!(
        disposition.receipt.is_none(),
        "best-effort is allowed to absorb silently — that is the distinction"
    );
}

#[test]
fn an_acknowledged_signal_below_the_weight_floor_is_reported() {
    let (mut node, _clock) = node_of(213);
    with_peers(&mut node, 1);

    let mut arrived = incoming(
        &node
            .emit(Signal::data("order").with_weight(f(0.9)).acknowledged())
            .expect("emit"),
        9,
    );
    arrived.weight = f(0.0001);

    let disposition = node.receive(&arrived, None).expect("receive");
    let receipt = disposition.receipt.expect("must not be absorbed silently");
    assert!(!receipt.is_delivered());
    assert_eq!(disposition.rejected, Some(RejectReason::BelowThreshold));
}

#[test]
fn decay_erodes_an_idle_synapse() {
    let (mut node, clock) = node_of(214);
    let peers = with_peers(&mut node, 1);
    for _ in 0..20 {
        let signal = node
            .emit(Signal::data("q").with_weight(f(0.9)).acknowledged())
            .expect("emit");
        let arrived = incoming(&signal, 9);
        for forward in node.receive(&arrived, None).expect("receive").forward_to {
            node.apply_receipt(&Receipt::delivered(arrived.id, 1), &forward.peer)
                .expect("apply");
        }
        clock.advance_secs(1);
    }
    let peak = weight_of(&node, &peers[0]);
    let half_life_hours = g(node.config().learning.decay_half_life_hours) as u64;
    clock.advance_hours(half_life_hours * 2);

    let record = node
        .store()
        .synapse_for_peer(&peers[0])
        .expect("store")
        .expect("synapse");
    let decayed = g(decayed_weight(
        record.weight,
        record.last_active_ns,
        node.now_ns(),
        &node.config().learning,
        &Host,
    ));

    assert!(
        decayed < peak * 0.4,
        "after two half-lives the weight should be near a quarter: \
         peak={peak}, decayed={decayed}"
    );
}

#[test]
fn learning_health_reports_exploration_and_pending() {
    let (mut node, clock) = node_of(215);
    with_peers(&mut node, 4);

    for _ in 0..40 {
        let signal = node
            .emit(Signal::data("q").with_weight(f(0.9)).acknowledged())
            .expect("emit");
        let arrived = incoming(&signal, 9);
        node.receive(&arrived, None).expect("receive");
        clock.advance_secs(1);
    }

    let health = node.learning_health(200).expect("health");
    assert!(health.decisions_sampled > 0);
    assert!(
        g(health.pending_ratio) > 0.5,
        "with no receipts arriving, most decisions should read as pending — \
         this is the signal that a node's weights reflect nothing"
    );
    assert!((0.0..=1.0).contains(&g(health.exploration_ratio)));
}

#[test]
fn identity_and_learned_weights_survive_a_restart() {
    let store = Shared::default();
    let clock = Ticks::starting_at(TEST_EPOCH_NS);
    let peer = test_node_id(1);

    let (identity, weight_before) = {
        let mut node = SharedNode::builder(Host)
            .with_config(NodeConfig::default())
            .with_store(store.clone())
            .with_clock(clock.clone())
            .build()
            .expect("build");
        node.upsert_synapse(&peer).expect("synapse");

        for _ in 0..20 {
            let signal = node
                .emit(Signal::data("q").with_weight(f(0.9)).acknowledged())
                .expect("emit");
            let arrived = incoming(&signal, 9);
            for forward in node.receive(&arrived, None).expect("receive").forward_to {
                node.apply_receipt(&Receipt::delivered(arrived.id, 1), &forward.peer)
                    .expect("apply");
            }
            clock.advance_secs(1);
        }
        node.checkpoint().expect("checkpoint");
        (
            node.identity().clone(),
            g(store
                .synapse_for_peer(&peer)
                .expect("store")
                .expect("synapse")
                .weight),
        )
    };
    let restarted = SharedNode::builder(Host)
        .with_config(NodeConfig::default())
        .with_store(store.clone())
        .with_clock(clock.clone())
        .build()
        .expect("rebuild");

    assert_eq!(
        restarted.identity(),
        &identity,
        "a node must keep its identity, or it loses every synapse it formed"
    );
    let after = g(store
        .synapse_for_peer(&peer)
        .expect("store")
        .expect("synapse")
        .weight);
    assert!(
        (after - weight_before).abs() < 1e-6,
        "learned weight must survive a restart: {weight_before} -> {after}"
    );
}

#[test]
fn a_signature_failure_costs_more_than_a_timeout() {
    let (mut node, _clock) = node_of(216);
    let peers = with_peers(&mut node, 1);
    let synapse_id = node
        .store()
        .synapse_for_peer(&peers[0])
        .expect("store")
        .expect("synapse")
        .id;

    let before = weight_of(&node, &peers[0]);
    node.penalize_signature_failure(&synapse_id).expect("penalize");
    let after = weight_of(&node, &peers[0]);

    assert!(
        after <= before * 0.6,
        "a signature failure should roughly halve the weight: {before} -> {after}"
    );
}

#[test]
fn outcome_rewards_are_ordered_as_specified() {
    assert!(g(Outcome::Delivered.reward()) > 0.0);
    assert_eq!(g(Outcome::Pending.reward()), 0.0);
    assert!(g(Outcome::TimedOut.reward()) < 0.0);
    assert!(
        g(Outcome::TimedOut.reward()) > g(Outcome::Rejected.reward()),
        "ambiguous silence must cost less than definite rejection"
    );
    assert!(
        g(Outcome::SignatureFailure.reward()) <= g(Outcome::Rejected.reward()),
        "a signature failure is the strongest negative signal"
    );
}

#[test]
fn active_synapse_listing_is_weight_ordered() {
    let (mut node, clock) = node_of(217);
    with_peers(&mut node, 6);

    for i in 0..60u8 {
        let signal = node
            .emit(Signal::data("q").with_weight(f(0.9)).acknowledged())
            .expect("emit");
        let arrived = incoming(&signal, 50 + i % 5);
        for forward in node.receive(&arrived, None).expect("receive").forward_to {
            node.apply_receipt(&Receipt::delivered(arrived.id, 1), &forward.peer)
                .expect("apply");
        }
        clock.advance_secs(1);
    }

    let listed = node
        .store()
        .list_synapses(&SynapseFilter::active())
        .expect("list");
    for w in listed.windows(2) {
        assert!(
            g(w[0].weight) >= g(w[1].weight),
            "routing decisions depend on a stable weight ordering"
        );
    }
}

fn incoming(signal: &Signal, origin: u8) -> Signal {
    let mut arrived = signal.clone();
    arrived.origin = test_node_id(origin);
    arrived.id = SignalId::from_parts(
        signal.id.timestamp_ms(),
        u128::from(origin) << 96 | u128::from(signal.id.timestamp_ms()),
    );
    arrived
}
