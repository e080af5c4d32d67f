use ntl::curves::Curves;
use ntl::error::Error;
use ntl::memory::MemoryStore;
use ntl::node::{BuiltNode, Node};
use ntl::rng::SplitMix64;
use ntl::scalar::Scalar;
use ntl::signal::{NodeId, Signal};
use ntl::store::{NodeStore, StoreError, SynapseFilter, SynapseRecord};
use ntl::synapse::{Synapse, SynapseId, SynapseState};
use ntl::time::{ManualClock, NANOS_PER_HOUR};

fn f(x: f32) -> Scalar {
    Scalar::from_bits(x.to_bits())
}

fn g(x: Scalar) -> f32 {
    f32::from_bits(x.to_bits())
}

#[derive(Debug, Clone, Copy)]
struct Host;

impl Curves for Host {
    fn exp(&self, x: Scalar) -> Scalar {
        f(g(x).exp())
    }

    fn exp2(&self, x: Scalar) -> Scalar {
        f(g(x).exp2())
    }

    fn log2(&self, x: Scalar) -> Scalar {
        f(g(x).log2())
    }

    fn ns_to_hours(&self, ns: u64) -> Scalar {
        f((ns as f64 / NANOS_PER_HOUR as f64) as f32)
    }

    fn hours_to_ns(&self, hours: Scalar) -> u64 {
        (f64::from(g(hours)) * NANOS_PER_HOUR as f64) as u64
    }
}

type PlainParts = Node<MemoryStore, ManualClock, SplitMix64, Host>;
type Plain = BuiltNode<MemoryStore, ManualClock, SplitMix64, Host>;

fn creating_a_node() -> Result<Plain, Error> {
    let store = MemoryStore::new();
    PlainParts::builder(Host).with_store(store).build()
}
fn forming_a_synapse(node: &mut Plain, peer: &NodeId) -> Result<SynapseRecord, Error> {
    node.upsert_synapse(peer)
}
fn listing_eligible_synapses(node: &Plain) -> Result<Vec<SynapseRecord>, StoreError> {
    let eligible = node.store().list_synapses(&SynapseFilter::eligible())?;
    for synapse in &eligible {
        let _ = format!(
            "{} -> {}: weight={:.3} state={:?}",
            synapse.id.to_string(),
            synapse.peer.to_string(),
            g(synapse.weight),
            synapse.state
        );
    }
    Ok(eligible)
}
fn narrowing_the_filter(node: &Plain) -> Result<Vec<SynapseRecord>, StoreError> {
    let filter = SynapseFilter {
        states: vec![SynapseState::Weakening],
        min_weight: Some(f(0.02)),
        last_active_before_ns: Some(node.now_ns()),
        limit: Some(50),
    };
    node.store().list_synapses(&filter)
}
fn looking_up_one_synapse(node: &Plain, peer: &NodeId) -> Result<Option<SynapseId>, StoreError> {
    let Some(record) = node.store().synapse_for_peer(peer)? else {
        return Ok(None);
    };
    let same = node.store().get_synapse(&record.id)?;
    assert_eq!(same.as_ref().map(|r| &r.id), Some(&record.id));
    Ok(Some(record.id))
}
fn reading_a_record(record: &SynapseRecord) -> u64 {
    let idle_ns = record
        .last_active_ns
        .saturating_sub(record.established_at_ns);
    let _ = (
        record.weight,
        record.attenuation_factor,
        record.error_rate,
        record.avg_latency_ns,
        record.signals_transmitted,
        record.signals_received,
        record.signature_failures,
        record.failure_window_start_ns,
        record.type_affinity.len(),
    );
    idle_ns
}
fn writing_and_deleting(node: &mut Plain, record: &SynapseRecord) -> Result<(), StoreError> {
    let mut updated = record.clone();
    updated.weight = f(0.5);
    node.store_mut().put_synapse(&updated)?;
    node.store_mut().delete_synapse(&updated.id)?;
    node.store_mut().delete_synapse(&updated.id)
}
fn eligibility_by_state() {
    assert!(SynapseState::Active.can_carry());
    assert!(SynapseState::Weakening.can_carry());
    assert!(!SynapseState::Forming.can_carry());
    assert!(!SynapseState::Dormant.can_carry());
    assert!(!SynapseState::Pruned.can_carry());
    assert!(SynapseState::Pruned.is_terminal());
}
fn live_synapse_from_record(node: &Plain, record: &SynapseRecord) -> f32 {
    let synapse = Synapse::from_record(record, node.identity().clone(), &node.config().synapse);
    assert_eq!(synapse.remote_node, record.peer);
    let affinity = synapse.affinity_for("data");
    assert_eq!(synapse.to_record().id, record.id);
    g(affinity)
}
fn pruned_synapses_refuse_to_re_form(node: &mut Plain, peer: &NodeId) -> Result<(), Error> {
    let record = node.upsert_synapse(peer)?;
    let threshold = node.config().learning.signature_failure_prune_threshold;
    for _ in 0..threshold {
        node.penalize_signature_failure(&record.id)?;
    }

    let pruned = node
        .store()
        .get_synapse(&record.id)
        .expect("the store is in memory and cannot fail here")
        .expect("the synapse is still on record after pruning");
    assert_eq!(pruned.state, SynapseState::Pruned);
    assert!(node.upsert_synapse(peer).is_err());
    Ok(())
}

#[test]
fn every_sample_on_the_synapse_page_compiles_and_runs() {
    let mut node = creating_a_node().expect("a node with a memory store builds");
    let peer = NodeId(vec![7u8; 32]);

    let record = forming_a_synapse(&mut node, &peer).expect("forming a synapse to a peer");
    assert_eq!(record.peer, peer);
    assert_eq!(record.state, SynapseState::Active);

    let eligible = listing_eligible_synapses(&node).expect("listing eligible synapses");
    assert_eq!(eligible.len(), 1, "the freshly formed synapse is eligible");

    narrowing_the_filter(&node).expect("a narrowed filter is still a valid query");

    let found = looking_up_one_synapse(&node, &peer).expect("looking a synapse up");
    assert_eq!(found.as_ref(), Some(&record.id));

    assert_eq!(
        reading_a_record(&record),
        0,
        "a new synapse has not been idle"
    );
    let _ = live_synapse_from_record(&node, &record);

    writing_and_deleting(&mut node, &record).expect("writing a record back and removing it");

    eligibility_by_state();
    let mut victim = creating_a_node().expect("a second node builds");
    pruned_synapses_refuse_to_re_form(&mut victim, &peer).expect("pruning on signature failures");
}

fn emitting_signals(node: &mut Plain) -> Result<(), Error> {
    let signal = node.emit(
        Signal::data("user-created")
            .with_payload("{\"user_id\":\"abc123\"}")
            .with_weight(f(0.7))
            .with_tags(vec!["user", "event"]),
    )?;
    assert_eq!(g(signal.weight), 0.7);
    Ok(())
}
fn receiving_signals(node: &mut Plain, signal: &Signal) -> Result<(), Error> {
    let disposition = node.receive_local(signal)?;
    let _ = disposition.queued;
    Ok(())
}
fn managing_synapses(node: &Plain) -> Result<(), StoreError> {
    for synapse in node.store().list_synapses(&SynapseFilter::eligible())? {
        let _ = (&synapse.id, synapse.weight, synapse.state);
    }
    Ok(())
}

#[test]
fn every_sample_on_the_api_reference_page_compiles_and_runs() {
    let mut node = creating_a_node().expect("a node with a memory store builds");
    emitting_signals(&mut node).expect("emitting a data signal");

    let signal = node
        .emit(Signal::data("probe").with_weight(f(0.5)))
        .expect("emit for the receive sample");
    receiving_signals(&mut node, &signal).expect("receiving a local signal");
    managing_synapses(&node).expect("listing synapses through the store");
}
