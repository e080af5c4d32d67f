use std::cell::Cell;
use std::rc::Rc;

use ntl::activation::QueuedSignal;
use ntl::config::{ConfigError, NodeConfig};
use ntl::curves::Curves;
use ntl::delivery::{DeliveryClass, Receipt, RejectReason};
use ntl::error::Error;
use ntl::learning::WeightUpdate;
use ntl::memory::MemoryStore;
use ntl::node::{
    has_seen, mint_identity, signal_type_name_of, transactional, BuiltNode, Disposition,
    LearningHealth, Node,
};
use ntl::rng::SplitMix64;
use ntl::scalar::Scalar;
use ntl::signal::{NodeId, Signal, SignalId, SignalType};
use ntl::store::{JournalId, NodeStore, Outcome, StoreError, SynapseFilter, SynapseRecord};
use ntl::synapse::{SignatureFailureOutcome, SynapseId, SynapseState};
use ntl::time::{Clock, NANOS_PER_HOUR, NANOS_PER_SEC};

fn f(x: f32) -> Scalar {
    Scalar::from_bits(x.to_bits())
}

fn g(x: Scalar) -> f32 {
    f32::from_bits(x.to_bits())
}

#[derive(Debug, Clone, Copy)]
struct Host;

impl Curves for Host {
    fn exp(&self, x: Scalar) -> Scalar {
        f(g(x).exp())
    }

    fn exp2(&self, x: Scalar) -> Scalar {
        f(g(x).exp2())
    }

    fn log2(&self, x: Scalar) -> Scalar {
        f(g(x).log2())
    }

    fn ns_to_hours(&self, ns: u64) -> Scalar {
        f((ns as f64 / NANOS_PER_HOUR as f64) as f32)
    }

    fn hours_to_ns(&self, hours: Scalar) -> u64 {
        (f64::from(g(hours)) * NANOS_PER_HOUR as f64) as u64
    }
}

/// A clock that the test and the node share.
#[derive(Debug, Clone)]
struct Ticks(Rc<Cell<u64>>);

impl Ticks {
    fn starting_at(now_ns: u64) -> Ticks {
        Ticks(Rc::new(Cell::new(now_ns)))
    }

    fn advance_secs(&self, secs: u64) {
        self.0.set(self.0.get() + secs * NANOS_PER_SEC);
    }
}

impl Clock for Ticks {
    fn now_ns(&self) -> u64 {
        self.0.get()
    }
}

type PlainParts = Node<MemoryStore, Ticks, SplitMix64, Host>;
type Plain = BuiltNode<MemoryStore, Ticks, SplitMix64, Host>;

fn building_a_node() -> Result<Plain, Error> {
    let store = MemoryStore::new();

    PlainParts::builder(Host)
        .with_config(NodeConfig::default())
        .with_store(store)
        .build()
}
fn a_deterministic_node(identity: NodeId) -> Result<(Plain, Ticks), Error> {
    let clock = Ticks::starting_at(1_700_000_000_000_000_000);

    let node = PlainParts::builder(Host)
        .with_config(NodeConfig::default())
        .with_identity(identity)
        .with_store(MemoryStore::new())
        .with_clock(clock.clone())
        .with_rng(SplitMix64::seeded(7))
        .build()?;

    Ok((node, clock))
}
fn inspecting_a_node(node: &Plain) -> (String, u32, u64) {
    let identity = node.identity().to_string();
    let max_synapses = node.config().synapse.max_synapses;
    let now_ns = node.now_ns();
    let _store = node.store();

    (identity, max_synapses, now_ns)
}
fn emitting_a_signal(node: &mut Plain) -> Result<Signal, Error> {
    node.emit(
        Signal::data("order-placed")
            .with_payload("{\"order_id\":\"abc123\"}")
            .with_weight(f(0.8))
            .acknowledged(),
    )
}
fn routing_our_own_signal(node: &mut Plain, signal: &Signal) -> Result<Disposition, Error> {
    let disposition = node.receive_local(signal)?;

    for forward in &disposition.forward_to {
        let _ = (&forward.synapse, &forward.peer, forward.journal_id);
    }

    Ok(disposition)
}
fn handling_an_arrival(
    node: &mut Plain,
    arrival: &Signal,
    arrival_synapse: Option<&SynapseId>,
) -> Result<Disposition, Error> {
    let disposition = node.receive(arrival, arrival_synapse)?;

    if let Some(reason) = disposition.rejected {
        let _ = reason;
    }
    let _ = disposition.queued;
    for released in &disposition.handle_locally {
        let _ = &released.id;
    }
    if let Some(evicted) = &disposition.evicted {
        let _ = evicted.needs_receipt();
    }

    Ok(disposition)
}
fn one_turn_of_the_drive_loop(node: &mut Plain) -> Result<(Vec<QueuedSignal>, usize), Error> {
    let released = node.poll_activation();
    for queued in &released {
        let _ = (&queued.id, &queued.origin, queued.delivery);
    }
    let resolved = node.sweep_timeouts(128)?;
    node.checkpoint()?;

    Ok((released, resolved))
}
fn routing_a_released_signal(node: &mut Plain, signal: &Signal) -> Result<usize, Error> {
    Ok(node.plan_release(signal, None)?.len())
}
fn connecting_a_peer(node: &mut Plain, peer: &NodeId) -> Result<SynapseRecord, Error> {
    node.upsert_synapse(peer)
}
fn listing_synapses(node: &Plain) -> Result<usize, StoreError> {
    let synapses = node.store().list_synapses(&SynapseFilter::eligible())?;
    for synapse in &synapses {
        let _ = (&synapse.peer, synapse.weight, synapse.state);
    }
    Ok(synapses.len())
}
fn applying_a_receipt(
    node: &mut Plain,
    receipt: &Receipt,
    from_peer: &NodeId,
) -> Result<Option<WeightUpdate>, Error> {
    node.apply_receipt(receipt, from_peer)
}
fn a_forward_that_never_left(
    node: &mut Plain,
    journal_id: JournalId,
) -> Result<Option<WeightUpdate>, Error> {
    node.fail_forward(journal_id)
}
fn an_unverifiable_signature(
    node: &mut Plain,
    synapse: &SynapseId,
) -> Result<Option<SignatureFailureOutcome>, Error> {
    node.penalize_signature_failure(synapse)
}
fn rebalancing(node: &mut Plain) -> Result<Option<Scalar>, Error> {
    node.normalize_outbound_weights()
}
fn checking_learning_health(node: &Plain) -> Result<LearningHealth, Error> {
    node.learning_health(256)
}
fn node_id(byte: u8) -> NodeId {
    NodeId(vec![byte; 32])
}
fn arriving_from(signal: &Signal, origin: u8) -> Signal {
    let mut arrival = signal.clone();
    arrival.origin = node_id(origin);
    let mut bytes = signal.id.to_bytes();
    bytes[15] ^= origin;
    bytes[14] ^= 0xA5;
    arrival.id = SignalId::from_bytes(bytes);
    arrival
}

#[test]
fn every_sample_on_the_node_page_compiles_and_runs() {
    let plain = building_a_node().expect("a node with a memory store builds");
    assert_eq!(
        plain.config().synapse.max_synapses,
        NodeConfig::default().synapse.max_synapses
    );

    let (mut node, clock) = a_deterministic_node(node_id(200)).expect("a deterministic node builds");
    assert_eq!(node.identity(), &node_id(200));
    assert_eq!(node.now_ns(), 1_700_000_000_000_000_000);

    let (identity, max_synapses, now_ns) = inspecting_a_node(&node);
    assert!(!identity.is_empty());
    assert!(max_synapses > 0);
    assert_eq!(now_ns, node.now_ns());
    let peer = node_id(1);
    let synapse = connecting_a_peer(&mut node, &peer).expect("the peer's synapse is registered");
    assert_eq!(synapse.peer, peer);
    assert_eq!(listing_synapses(&node).expect("listing synapses"), 1);
    let signal = emitting_a_signal(&mut node).expect("emitting an acknowledged data signal");
    assert!(signal.requires_receipt());
    let disposition = routing_our_own_signal(&mut node, &signal).expect("planning routes");
    assert!(
        !disposition.was_rejected(),
        "one eligible synapse is a route"
    );
    let local_forward = disposition
        .forward_to
        .first()
        .cloned()
        .expect("the one eligible synapse carries it");
    let arrival = arriving_from(&signal, 9);
    let handled = handling_an_arrival(&mut node, &arrival, None).expect("handling an arrival");
    let forward = handled
        .forward_to
        .first()
        .cloned()
        .expect("the arrival is forwarded over the one eligible synapse");
    let receipt = Receipt::delivered(arrival.id, 1);
    let update = applying_a_receipt(&mut node, &receipt, &forward.peer)
        .expect("applying the receipt")
        .expect("the receipt matches a pending decision");
    assert!(g(update.applied_delta) > 0.0, "delivery strengthens the path");
    a_forward_that_never_left(&mut node, local_forward.journal_id)
        .expect("resolving an untransmitted forward")
        .expect("an unresolved decision is resolved exactly once");
    an_unverifiable_signature(&mut node, &synapse.id)
        .expect("penalising a signature failure")
        .expect("the synapse exists");
    rebalancing(&mut node).expect("normalising outbound weights");
    clock.advance_secs(60);
    let (released, resolved) = one_turn_of_the_drive_loop(&mut node).expect("one turn of the loop");
    let _ = (released.len(), resolved);
    routing_a_released_signal(&mut node, &signal).expect("planning a route for a released signal");
    let health = checking_learning_health(&node).expect("reading learning health");
    assert!(health.decisions_sampled > 0, "decisions were journalled");
}

#[test]
fn a_node_needs_a_store() {
    assert!(matches!(
        PlainParts::builder(Host).build(),
        Err(Error::Config(ConfigError::NoStore))
    ));
}

#[test]
fn a_node_refuses_a_broken_configuration() {
    let mut config = NodeConfig::default();
    config.activation.fire_batch_size = 0;
    let built = PlainParts::builder(Host)
        .with_config(config)
        .with_store(MemoryStore::new())
        .build();
    assert!(matches!(built, Err(Error::Config(_))));
}

#[test]
fn a_pruned_synapse_forms_anew_after_its_cooldown() {
    let (mut node, clock) = a_deterministic_node(node_id(200)).expect("build");
    let peer = node_id(1);
    let formed = node.upsert_synapse(&peer).expect("synapse");
    for _ in 0..node.config().learning.signature_failure_prune_threshold {
        node.penalize_signature_failure(&formed.id).expect("penalise");
    }
    let cooldown = node.config().learning.signature_failure_cooldown_secs;
    clock.advance_secs(cooldown - 1);
    for _ in 0..3 {
        // However often it is asked, the pruned record stands.
        assert!(matches!(node.upsert_synapse(&peer), Err(Error::CoolingDown)));
        let held = node.store().get_synapse(&formed.id).expect("store").expect("record");
        assert_eq!(held.state, SynapseState::Pruned);
    }
    clock.advance_secs(1);
    let again = node.upsert_synapse(&peer).expect("the cooldown is over");
    assert_eq!(again.state, SynapseState::Active);
    assert_eq!(again.signature_failures, 0);
    assert_ne!(again.id, formed.id);
    assert!(node.store().get_synapse(&formed.id).expect("store").is_none());
}

#[test]
fn a_penalty_on_no_synapse_is_none() {
    let (mut node, _clock) = a_deterministic_node(node_id(200)).expect("build");
    let missing = SynapseId("missing".into());
    assert!(node.penalize_signature_failure(&missing).expect("store").is_none());
}

#[test]
fn a_node_does_not_take_its_own_signal_for_an_arrival() {
    let (mut node, _clock) = a_deterministic_node(node_id(200)).expect("build");
    node.upsert_synapse(&node_id(1)).expect("synapse");
    let signal = node.emit(Signal::data("q").with_weight(f(0.9))).expect("emit");
    assert!(has_seen(node.store(), &signal.id, node.now_ns()).expect("store"));
    let d = node.receive(&signal, None).expect("receive");
    assert!(d.forward_to.is_empty() && d.handle_locally.is_empty());
    assert!(d.receipt.is_none() && d.rejected.is_none() && !d.queued);
}

#[test]
fn an_emission_is_stamped_by_the_node() {
    let (mut node, _clock) = a_deterministic_node(node_id(200)).expect("build");
    let signal = node
        .emit_at(Signal::data("q").with_weight(f(0.3)), 1_234_000_000)
        .expect("emit");
    assert_eq!(signal.timestamp, 1_234_000_000);
    assert_eq!(signal.id.timestamp_ms(), 1_234);
    assert_eq!(&signal.origin, node.identity());
}

#[test]
fn two_nodes_with_the_same_seed_agree() {
    let (mut one, _clock) = a_deterministic_node(node_id(200)).expect("build");
    let (mut two, _clock) = a_deterministic_node(node_id(200)).expect("build");
    for n in 1..5 {
        one.upsert_synapse(&node_id(n)).expect("synapse");
        two.upsert_synapse(&node_id(n)).expect("synapse");
    }
    let a = one.emit(Signal::data("q").with_weight(f(0.9))).expect("emit");
    let b = two.emit(Signal::data("q").with_weight(f(0.9))).expect("emit");
    assert_eq!(a.id, b.id);
    let routed_a = one.receive_local(&a).expect("route");
    let routed_b = two.receive_local(&b).expect("route");
    assert_eq!(routed_a, routed_b);
}

#[test]
fn a_forward_that_fails_is_resolved_once() {
    let (mut node, clock) = a_deterministic_node(node_id(200)).expect("build");
    node.upsert_synapse(&node_id(1)).expect("synapse");
    let signal = node
        .emit(Signal::data("q").with_weight(f(0.9)).acknowledged())
        .expect("emit");
    let forward = node.receive_local(&signal).expect("route").forward_to[0].clone();
    assert!(node.fail_forward(forward.journal_id).expect("fail").is_some());
    // The clock has not moved, and still the decision counts once.
    assert!(node.fail_forward(forward.journal_id).expect("fail").is_none());
    clock.advance_secs(1);
    assert!(node.fail_forward(forward.journal_id).expect("fail").is_none());
    let recent = node.store().recent_decisions(None, 1).expect("journal");
    assert_eq!(recent[0].outcome, Outcome::TransportFailure);
    // A receipt that comes after has nothing left to resolve.
    let late = Receipt::delivered(signal.id, 1);
    assert!(node.apply_receipt(&late, &forward.peer).expect("apply").is_none());
}

#[test]
fn a_refused_acknowledged_signal_is_answered() {
    let (mut node, _clock) = a_deterministic_node(node_id(200)).expect("build");
    let mut signal = node
        .emit(Signal::data("q").with_weight(f(0.9)).acknowledged())
        .expect("emit");
    signal = arriving_from(&signal, 9);
    signal.ttl = 0;
    let d = node.receive(&signal, None).expect("receive");
    assert_eq!(d.rejected, Some(RejectReason::TtlExhausted));
    let receipt = d.receipt.expect("an answer is owed");
    assert_eq!(receipt.correlation_id, signal.id);
    assert!(!receipt.is_delivered());
}

#[test]
fn a_flood_stops_at_its_depth() {
    let (mut node, _clock) = a_deterministic_node(node_id(200)).expect("build");
    for n in 1..4 {
        node.upsert_synapse(&node_id(n)).expect("synapse");
    }
    let flood = ntl::propagation::PropagationScope::Flood { max_hops: 1 };
    let emitted = node
        .emit(Signal::event("alarm").with_weight(f(0.9)).with_scope(flood))
        .expect("emit");
    assert_eq!(node.receive_local(&emitted).expect("route").forward_to.len(), 3);
    let mut arrived = arriving_from(&emitted, 9);
    arrived.hop(node_id(9));
    let d = node.receive(&arrived, None).expect("receive");
    assert!(d.forward_to.is_empty() && d.rejected.is_none());
}

#[test]
fn identities_are_minted_from_the_time() {
    let first = mint_identity(1);
    assert_eq!(first.0.len(), 32);
    assert_eq!(first, mint_identity(1));
    assert_ne!(first, mint_identity(2));
}

#[test]
fn types_have_names() {
    assert_eq!(signal_type_name_of(&SignalType::Data), "Data");
    assert_eq!(signal_type_name_of(&SignalType::Receipt), "Receipt");
    assert_eq!(signal_type_name_of(&SignalType::Custom("orders".into())), "orders");
    assert_eq!(transactional(), DeliveryClass::Acknowledged);
}

#[test]
fn health_without_decisions_is_empty() {
    let (node, _clock) = a_deterministic_node(node_id(200)).expect("build");
    assert_eq!(node.learning_health(10).expect("health"), LearningHealth::default());
}

#[test]
fn a_node_that_does_not_learn_moves_no_weight() {
    let mut config = NodeConfig::default();
    config.learning.enabled = false;
    let mut node = PlainParts::builder(Host)
        .with_config(config)
        .with_identity(node_id(200))
        .with_store(MemoryStore::new())
        .build()
        .expect("build");
    let synapse = node.upsert_synapse(&node_id(1)).expect("synapse");
    let signal = node
        .emit(Signal::data("q").with_weight(f(0.9)).acknowledged())
        .expect("emit");
    let forward = node.receive_local(&signal).expect("route").forward_to[0].clone();
    let receipt = Receipt::delivered(signal.id, 1);
    let update = node
        .apply_receipt(&receipt, &forward.peer)
        .expect("apply")
        .expect("the decision is resolved");
    assert_eq!(g(update.applied_delta), 0.0);
    let recent = node.store().recent_decisions(None, 1).expect("journal");
    assert_eq!(recent[0].outcome, Outcome::Delivered);
    let failure = node
        .penalize_signature_failure(&synapse.id)
        .expect("penalise")
        .expect("the synapse exists");
    assert_eq!(failure.failures_in_window, 1);
    assert_eq!(node.normalize_outbound_weights().expect("normalise"), None);
    let held = node.store().get_synapse(&synapse.id).expect("store").expect("record");
    assert_eq!(g(held.weight), g(synapse.weight));
}
