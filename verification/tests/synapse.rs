use ntl::curves::Curves;
use ntl::learning::LearningConfig;
use ntl::rng::SplitMix64;
use ntl::scalar::Scalar;
use ntl::signal::NodeId;
use ntl::store::Outcome;
use ntl::synapse::{Synapse, SynapseConfig, SynapseId, SynapseState, Transport};
use ntl::time::NANOS_PER_HOUR;

fn f(x: f32) -> Scalar {
    Scalar::from_bits(x.to_bits())
}

fn g(x: Scalar) -> f32 {
    f32::from_bits(x.to_bits())
}

#[derive(Debug, Clone, Copy)]
struct Host;

impl Curves for Host {
    fn exp(&self, x: Scalar) -> Scalar {
        f(g(x).exp())
    }

    fn exp2(&self, x: Scalar) -> Scalar {
        f(g(x).exp2())
    }

    fn log2(&self, x: Scalar) -> Scalar {
        f(g(x).log2())
    }

    fn ns_to_hours(&self, ns: u64) -> Scalar {
        f((ns as f64 / NANOS_PER_HOUR as f64) as f32)
    }

    fn hours_to_ns(&self, hours: Scalar) -> u64 {
        (f64::from(g(hours)) * NANOS_PER_HOUR as f64) as u64
    }
}

fn test_config() -> SynapseConfig {
    SynapseConfig::default()
}

fn test_nodes() -> (NodeId, NodeId) {
    (NodeId(vec![0u8; 32]), NodeId(vec![1u8; 32]))
}

#[test]
fn a_weight_update_does_not_promote_a_forming_synapse() {
    // Forming means that the handshake is incomplete, and a weight change says
    // nothing about the handshake.
    let (local, remote) = test_nodes();
    let mut synapse = Synapse::new(local, remote, &test_config());
    assert_eq!(synapse.state, SynapseState::Forming);

    synapse.strengthen(f(1.0), f(0.5));
    assert_eq!(
        synapse.state,
        SynapseState::Forming,
        "a weight update must not complete the handshake"
    );
    assert!(!synapse.state.can_carry());

    synapse.activate();
    assert_eq!(synapse.state, SynapseState::Active);
}

#[test]
fn state_thresholds_follow_configuration() {
    let (local, remote) = test_nodes();
    let config = SynapseConfig {
        active_threshold: f(0.5),
        dormancy_threshold: f(0.2),
        initial_weight: f(0.6),
        ..test_config()
    };
    let mut synapse = Synapse::new(local, remote, &config);
    synapse.activate();
    assert_eq!(synapse.state, SynapseState::Active);

    // 0.6 * 0.9 = 0.54, still above the active threshold of 0.5.
    synapse.weaken_failure();
    assert_eq!(synapse.state, SynapseState::Active);

    // 0.54 * 0.9 = 0.486, below it.
    synapse.weaken_failure();
    assert_eq!(synapse.state, SynapseState::Weakening);

    synapse.weight = f(0.19);
    synapse.weaken_failure();
    assert_eq!(synapse.state, SynapseState::Dormant);
}

#[test]
fn display_truncates_by_character_not_byte() {
    // Identifiers come from a text column, so a store may hold anything.
    let id = SynapseId("héllo wörld synapse".to_string());
    assert_eq!(id.to_string(), "syn:héllo wö");
    assert_eq!(SynapseId("ab".to_string()).to_string(), "syn:ab");
    assert_eq!(SynapseId(String::new()).to_string(), "syn:");
}

#[test]
fn new_synapse_starts_forming() {
    let (local, remote) = test_nodes();
    let synapse = Synapse::new(local, remote, &test_config());
    assert_eq!(synapse.state, SynapseState::Forming);
    assert!((g(synapse.weight) - 0.1).abs() < f32::EPSILON);
}

#[test]
fn strengthen_increases_weight() {
    let (local, remote) = test_nodes();
    let mut synapse = Synapse::new(local, remote, &test_config());
    synapse.state = SynapseState::Active;

    let initial = synapse.weight;
    synapse.strengthen(f(0.5), f(0.01));
    assert!(g(synapse.weight) > g(initial));
}

#[test]
fn weight_respects_max() {
    let (local, remote) = test_nodes();
    let mut synapse = Synapse::new(local, remote, &test_config());
    synapse.state = SynapseState::Active;
    synapse.weight = f(0.99);
    synapse.strengthen(f(1.0), f(0.1));
    assert!(g(synapse.weight) <= g(synapse.max_weight));
}

#[test]
fn decay_reduces_weight() {
    let (local, remote) = test_nodes();
    let mut synapse = Synapse::new(local, remote, &test_config());
    synapse.state = SynapseState::Active;
    synapse.weight = f(0.5);

    let initial = synapse.weight;
    synapse.decay();
    assert!(g(synapse.weight) < g(initial));
    assert_eq!(g(synapse.weight), 0.5 * (1.0 - 0.01));
}

#[test]
fn state_transitions_on_weight() {
    let (local, remote) = test_nodes();
    let mut synapse = Synapse::new(local, remote, &test_config());
    synapse.state = SynapseState::Active;

    synapse.weight = f(0.5);
    synapse.update_state();
    assert_eq!(synapse.state, SynapseState::Active);

    synapse.weight = f(0.05);
    synapse.update_state();
    assert_eq!(synapse.state, SynapseState::Weakening);

    synapse.weight = f(0.005);
    synapse.update_state();
    assert_eq!(synapse.state, SynapseState::Dormant);
}

#[test]
fn weakening_synapses_can_still_carry_traffic() {
    // A synapse recovers weight only by carrying traffic that succeeds.
    assert!(SynapseState::Active.can_carry());
    assert!(
        SynapseState::Weakening.can_carry(),
        "a weakening synapse is still connected: excluding it would make weight recovery \
         impossible"
    );
    assert!(!SynapseState::Dormant.can_carry());
    assert!(!SynapseState::Pruned.can_carry());
    assert!(!SynapseState::Forming.can_carry());
}

#[test]
fn only_pruned_is_terminal() {
    assert!(SynapseState::Pruned.is_terminal());
    for state in [
        SynapseState::Forming,
        SynapseState::Active,
        SynapseState::Weakening,
        SynapseState::Dormant,
    ] {
        assert!(!state.is_terminal());
    }
}

#[test]
fn a_single_failure_does_not_permanently_exclude_a_new_synapse() {
    // The initial weight and the active floor are both a tenth, so one negative
    // outcome drops a fresh synapse to weakening. It must remain eligible.
    let (local, remote) = test_nodes();
    let config = test_config();
    let mut rng = SplitMix64::seeded(1);
    let mut synapse = Synapse::new_with(local, remote, &config, 1_000, &mut rng);
    synapse.state = SynapseState::Active;

    let learning = LearningConfig::default();
    synapse.apply_outcome(Outcome::Rejected, f(0.8), "data", f(0.0), &learning);

    assert!(
        g(synapse.weight) < g(config.initial_weight),
        "a rejection should reduce the weight"
    );
    assert!(
        synapse.state.can_carry(),
        "but the synapse must still be able to earn its weight back, state was {:?} at weight {}",
        synapse.state,
        g(synapse.weight)
    );
}

#[test]
fn record_roundtrip_preserves_learned_state() {
    let (local, remote) = test_nodes();
    let mut rng = SplitMix64::seeded(2);
    let mut synapse = Synapse::new_with(local.clone(), remote, &test_config(), 1_000, &mut rng);
    synapse.weight = f(0.42);
    synapse.type_affinity.insert("Query", 9);
    synapse.state = SynapseState::Weakening;

    let record = synapse.to_record();
    let restored = Synapse::from_record(&record, local, &test_config());

    assert!((g(restored.weight) - 0.42).abs() < f32::EPSILON);
    assert_eq!(restored.type_affinity.get("Query"), 9);
    assert_eq!(restored.state, SynapseState::Weakening);
    assert_eq!(restored.id, synapse.id);
}

#[test]
fn half_life_decay_replaces_per_interval_decay() {
    let (local, remote) = test_nodes();
    let mut rng = SplitMix64::seeded(3);
    let mut synapse = Synapse::new_with(local, remote, &test_config(), 0, &mut rng);
    synapse.weight = f(0.8);
    synapse.last_active_ns = 0;
    synapse.state = SynapseState::Active;

    let learning = LearningConfig::default();
    let half_life_ns = (g(learning.decay_half_life_hours) as u64) * NANOS_PER_HOUR;
    synapse.apply_decay(half_life_ns, &learning, &Host);

    assert!(
        (g(synapse.weight) - 0.4).abs() < 0.01,
        "one half-life should halve the weight, got {}",
        g(synapse.weight)
    );
}

#[test]
fn type_affinity_tracking() {
    let (local, remote) = test_nodes();
    let mut synapse = Synapse::new(local, remote, &test_config());

    synapse.record_transmission(1000, "query", 5_000);
    synapse.record_transmission(1000, "query", 5_000);
    synapse.record_transmission(1000, "data", 5_000);

    assert!((g(synapse.affinity_for("query")) - 0.666).abs() < 0.01);
    assert!((g(synapse.affinity_for("data")) - 0.333).abs() < 0.01);
    assert!((g(synapse.affinity_for("event")) - 0.0).abs() < f32::EPSILON);
}

#[test]
fn transmissions_and_receptions_are_counted() {
    let (local, remote) = test_nodes();
    let mut synapse = Synapse::new(local, remote, &test_config());
    synapse.record_transmission(1_000, "data", 10);
    assert_eq!(synapse.avg_latency_ns, 1_000, "the first latency is taken as it is");
    synapse.record_transmission(2_000, "data", 20);
    assert_eq!(synapse.avg_latency_ns, 1_100);
    synapse.record_reception(30);
    assert_eq!((synapse.signals_transmitted, synapse.signals_received), (2, 1));
    assert_eq!(synapse.last_active_ns, 30);
}

#[test]
fn only_a_dormant_synapse_reactivates() {
    let (local, remote) = test_nodes();
    let config = test_config();
    let mut synapse = Synapse::new(local, remote, &config);
    synapse.state = SynapseState::Pruned;
    synapse.reactivate(&config);
    assert_eq!(synapse.state, SynapseState::Pruned);
    synapse.state = SynapseState::Dormant;
    synapse.weight = f(0.001);
    synapse.reactivate(&config);
    assert_eq!(synapse.state, SynapseState::Active);
    assert_eq!(synapse.weight, config.initial_weight);
}

#[test]
fn signature_failures_prune_within_one_window() {
    let (local, remote) = test_nodes();
    let learning = LearningConfig::default();
    let mut rng = SplitMix64::seeded(4);
    let start = 10_000_000_000_000;
    let mut synapse = Synapse::new_with(local, remote, &test_config(), start, &mut rng);
    synapse.activate();
    synapse.weight = f(0.8);
    synapse.failure_window_start_ns = start;
    for n in 1..5 {
        let outcome = synapse.apply_signature_failure(start, &learning);
        assert_eq!((outcome.failures_in_window, outcome.pruned), (n, false));
    }
    assert_eq!(g(synapse.weight), 0.05, "each failure halves the weight");
    let last = synapse.apply_signature_failure(start, &learning);
    assert!(last.pruned);
    assert_eq!(synapse.state, SynapseState::Pruned);
    // After the window the count starts again.
    let later = start + 3_601_000_000_000;
    assert_eq!(synapse.apply_signature_failure(later, &learning).failures_in_window, 1);
}

#[test]
fn transports_have_a_default() {
    assert_eq!(Transport::default(), Transport::Quic);
    assert_eq!(test_config().fallback_transport, Transport::Tcp);
}
