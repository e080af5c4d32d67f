use ntl::cli::{
    class_named, emission, emission_of, expand_home, EmissionError, join_path, model_status, parse_tags, parse_type, parse_type_name,
    resolve_home, top_types, total_weight, type_of_name, TypeError,
};
use ntl::delivery::DeliveryClass;
use ntl::learning::DeploymentClass;
use ntl::scalar::Scalar;
use ntl::signal::{NodeId, SignalId, SignalType};
use ntl::store::{Affinity, JournalEntry, Outcome, SynapseRecord};
use ntl::synapse::{SynapseId, SynapseState};

fn f(x: f32) -> Scalar {
    Scalar::from_bits(x.to_bits())
}

fn g(x: Scalar) -> f32 {
    f32::from_bits(x.to_bits())
}

fn record(weight: f32, state: SynapseState) -> SynapseRecord {
    SynapseRecord {
        id: SynapseId("s".into()),
        peer: NodeId(vec![7u8; 32]),
        weight: f(weight),
        attenuation_factor: f(0.9),
        state,
        type_affinity: Affinity::new(),
        established_at_ns: 1_000,
        last_active_ns: 2_000,
        signals_transmitted: 0,
        signals_received: 0,
        avg_latency_ns: 0,
        error_rate: f(0.0),
        signature_failures: 0,
        failure_window_start_ns: 0,
    }
}

fn entry(outcome: Outcome, explored: bool) -> JournalEntry {
    JournalEntry {
        id: None,
        signal: SignalId::from_parts(1_700_000_000_000, 1),
        signal_type: SignalType::Data,
        synapse: SynapseId("s".into()),
        peer: NodeId(vec![7u8; 32]),
        score: f(0.5),
        signal_weight: f(0.8),
        explored,
        decided_at_ns: 1_000,
        outcome,
        resolved_at_ns: None,
    }
}

#[test]
fn classes_are_named() {
    assert_eq!(class_named("edge"), Some(DeploymentClass::Edge));
    assert_eq!(class_named("full-node"), Some(DeploymentClass::FullNode));
    assert_eq!(class_named("high-traffic"), Some(DeploymentClass::HighTraffic));
    assert_eq!(class_named("Edge"), None);
}

#[test]
fn types_are_named_in_whatever_case() {
    assert_eq!(parse_type_name("DATA"), SignalType::Data);
    assert_eq!(parse_type_name("Receipt"), SignalType::Receipt);
    assert_eq!(parse_type_name("Orders"), SignalType::Custom("orders".into()));
    assert_eq!(type_of_name("heartbeat"), SignalType::Heartbeat);
    assert_eq!(type_of_name("DATA"), SignalType::Custom("DATA".into()));
}

#[test]
fn a_signal_is_drafted_from_a_name() {
    let origin = NodeId(vec![1; 32]);
    let built = parse_type("Query").expect("a type").build_unsigned(origin.clone());
    assert_eq!(built.signal_type, SignalType::Query);
    assert_eq!(built.tags, vec!["cli".to_string()]);
    let built = parse_type("discovery").expect("a type").build_unsigned(origin);
    assert_eq!(built.tags, vec!["discovery".to_string()]);
    assert!(matches!(parse_type("RECEIPT"), Err(TypeError::Receipt)));
    match parse_type("Bogus") {
        Err(TypeError::Unknown(name)) => assert_eq!(name, "bogus"),
        other => panic!("expected an unknown type, got {other:?}"),
    }
}

#[test]
fn tags_are_split_at_commas_and_trimmed() {
    assert_eq!(parse_tags(" a, b\t,,c "), vec!["a", "b", "", "c"]);
    assert_eq!(parse_tags(""), vec![""]);
}

#[test]
fn paths_are_joined() {
    assert_eq!(join_path("/home/me", ".ntl"), "/home/me/.ntl");
    assert_eq!(join_path("/home/me/", ".ntl"), "/home/me/.ntl");
    assert_eq!(join_path("/home/me", "/etc"), "/etc");
    assert_eq!(join_path("", ".ntl"), ".ntl");
}

#[test]
fn the_node_directory_is_found_in_order() {
    assert_eq!(resolve_home(Some("/a"), Some("/b"), Some("/c")), "/a");
    assert_eq!(resolve_home(None, Some("/b"), Some("/c")), "/b");
    assert_eq!(resolve_home(None, None, Some("/c")), "/c/.ntl");
    assert_eq!(resolve_home(None, None, None), ".ntl");
}

#[test]
fn a_leading_tilde_is_the_home_directory() {
    assert_eq!(expand_home("~/node.db", Some("/home/me")), "/home/me/node.db");
    assert_eq!(expand_home("~/node.db", None), "~/node.db");
    assert_eq!(expand_home("~node.db", Some("/home/me")), "~node.db");
    assert_eq!(expand_home("/node.db", Some("/home/me")), "/node.db");
}

#[test]
fn the_types_carried_most_come_first() {
    let mut synapse = record(0.5, SynapseState::Active);
    synapse.type_affinity.insert("Data", 2);
    synapse.type_affinity.insert("Query", 9);
    synapse.type_affinity.insert("Event", 4);
    let top: Vec<(String, u64)> = top_types(&synapse, 2)
        .into_iter()
        .map(|t| (t.name, t.count))
        .collect();
    assert_eq!(top, vec![("Query".to_string(), 9), ("Event".to_string(), 4)]);
    assert_eq!(top_types(&synapse, 10).len(), 3);
}

#[test]
fn a_status_report_counts_outcomes() {
    let recent = vec![
        entry(Outcome::Delivered, false),
        entry(Outcome::Pending, true),
        entry(Outcome::Rejected, false),
        entry(Outcome::Delivered, false),
    ];
    let synapses = vec![
        record(0.5, SynapseState::Active),
        record(0.25, SynapseState::Weakening),
        record(0.125, SynapseState::Pruned),
    ];
    let status = model_status(&recent, &synapses);
    assert_eq!(status.eligible, 2);
    assert_eq!(status.sampled, 4);
    assert_eq!(g(status.delivered), 50.0);
    assert_eq!(g(status.explored), 25.0);
    assert_eq!(g(status.pending), 25.0);
    assert!(!status.stopped_learning && !status.without_receipts);
    assert_eq!(g(total_weight(&synapses)), 0.875);
}

#[test]
fn a_status_report_warns() {
    let recent: Vec<JournalEntry> = (0..10).map(|_| entry(Outcome::Pending, false)).collect();
    let two = vec![record(0.5, SynapseState::Active), record(0.5, SynapseState::Active)];
    let status = model_status(&recent, &two);
    assert!(status.stopped_learning && status.without_receipts);
    // With one path there was no choice.
    let one = vec![record(0.5, SynapseState::Active)];
    assert!(!model_status(&recent, &one).stopped_learning);
    // With no decisions there is nothing to say.
    let empty = model_status(&Vec::new(), &two);
    assert!(!empty.stopped_learning && !empty.without_receipts);
}

#[test]
fn a_signal_is_emitted_by_hand() {
    let origin = NodeId(vec![1; 32]);
    let built = emission("Event", Some(" { \"n\" : 1 } "), f(2.0), Some("a, b"), true)
        .expect("a type")
        .build_unsigned(origin.clone());
    assert_eq!(built.signal_type, SignalType::Event);
    assert_eq!(built.payload, "{\"n\":1}");
    assert_eq!(g(built.weight), 1.0);
    assert_eq!(built.tags, vec!["cli", "a", "b"]);
    assert_eq!(built.delivery, DeliveryClass::Acknowledged);
    let plain = emission("data", None, f(0.5), None, false)
        .expect("a type")
        .build_unsigned(origin);
    assert_eq!(plain.payload, "null");
    assert_eq!(plain.tags, vec!["cli"]);
    assert_eq!(plain.delivery, DeliveryClass::BestEffort);
    assert!(matches!(
        emission("Receipt", None, f(0.5), None, false),
        Err(EmissionError::Type(TypeError::Receipt))
    ));
    match emission("gossip", Some("[1]"), f(0.5), None, false) {
        Err(EmissionError::Type(TypeError::Unknown(name))) => assert_eq!(name, "gossip"),
        other => panic!("an unknown type, saw {other:?}"),
    }
    // What is not JSON is refused before anything else.
    for raw in ["", "{", "nul", "{\"n\":1} x"] {
        assert!(matches!(
            emission("gossip", Some(raw), f(0.5), None, false),
            Err(EmissionError::Payload)
        ));
    }
    let given = emission_of("query", "{\"q\":[2]}", f(0.5), None, false)
        .expect("a type")
        .build_unsigned(NodeId(vec![2; 32]));
    assert_eq!(given.payload, "{\"q\":[2]}");
}
