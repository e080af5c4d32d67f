use ntl::delivery::{DeliveryClass, Receipt, RejectReason};
use ntl::error::Error;
use ntl::propagation::PropagationScope;
use ntl::rng::SplitMix64;
use ntl::scalar::Scalar;
use ntl::signal::{Encoding, NodeId, Signal, SignalId, SignalType, MAX_SIZE, MAX_TRACE};
use ntl::time::ManualClock;

fn f(x: f32) -> Scalar {
    Scalar::from_bits(x.to_bits())
}

fn g(x: Scalar) -> f32 {
    f32::from_bits(x.to_bits())
}

#[test]
fn signal_id_is_unique() {
    let clock = ManualClock::starting_at(1_700_000_000 * 1_000_000_000);
    let mut rng = SplitMix64::seeded(1);
    let a = SignalId::generate(&clock, &mut rng);
    let b = SignalId::generate(&clock, &mut rng);
    assert_ne!(
        a, b,
        "two ids from the same millisecond must still differ in randomness"
    );
}

#[test]
fn signal_id_is_time_ordered() {
    // No sleeping: with a clock driven by hand the order of identifiers can be
    // asserted directly.
    let mut clock = ManualClock::starting_at(1_700_000_000 * 1_000_000_000);
    let mut rng = SplitMix64::seeded(2);
    let a = SignalId::generate(&clock, &mut rng);
    clock.advance_ns(5_000_000);
    let b = SignalId::generate(&clock, &mut rng);
    assert!(b.timestamp_ms() > a.timestamp_ms());
    assert!(
        b.to_string() > a.to_string(),
        "identifiers must sort lexicographically by emission time"
    );
    assert!(a.precedes(b) && !b.precedes(a));
}

#[test]
fn signal_id_bytes_roundtrip() {
    let id = SignalId::from_parts(1_700_000_000_123, 42);
    assert_eq!(SignalId::from_bytes(id.to_bytes()), id);
}

#[test]
fn an_identifier_holds_its_parts() {
    let id = SignalId::from_parts(0x0123_4567_89AB, 0x0A0B_0C0D_0E0F_1011_1213);
    assert_eq!(id.timestamp_ms(), 0x0123_4567_89AB);
    assert_eq!(
        id.to_bytes(),
        [
            0x01, 0x23, 0x45, 0x67, 0x89, 0xAB, 0x0A, 0x0B, 0x0C, 0x0D, 0x0E, 0x0F, 0x10, 0x11,
            0x12, 0x13,
        ]
    );
    assert_eq!(SignalId::from_parts(0, 31).to_string(), "0000000000000000000000000Z");
    assert_eq!(SignalId::from_parts(0, 32).to_string(), "00000000000000000000000010");
    // What does not fit is cut off.
    assert_eq!(SignalId::from_parts(1 << 48, 1 << 80), SignalId::from_parts(0, 0));
}

#[test]
fn signal_builder_defaults() {
    let origin = NodeId(vec![0u8; 32]);
    let signal = Signal::data("test").build_unsigned(origin);

    assert_eq!(signal.signal_type, SignalType::Data);
    assert!((g(signal.weight) - 0.5).abs() < f32::EPSILON);
    assert_eq!(signal.ttl, 10);
    assert!(signal.tags.contains(&"test".to_string()));
}

#[test]
fn the_builder_sets_every_field() {
    let other = SignalId::from_parts(3, 4);
    let signal = Signal::query("weather")
        .with_payload("{\"k\":1}")
        .with_weight(f(0.25))
        .with_ttl(3)
        .with_scope(PropagationScope::Flood { max_hops: 2 })
        .with_correlation(other)
        .with_tags(vec!["a", "b"])
        .with_delivery(DeliveryClass::Acknowledged)
        .build_at(NodeId(vec![9]), 77, SignalId::from_parts(1, 2));
    assert_eq!(signal.id, SignalId::from_parts(1, 2));
    assert_eq!(signal.signal_type, SignalType::Query);
    assert_eq!(signal.version, 1);
    assert_eq!(signal.origin, NodeId(vec![9]));
    assert!(signal.signature.is_empty());
    assert_eq!(signal.timestamp, 77);
    assert_eq!(signal.payload, "{\"k\":1}");
    assert_eq!(signal.encoding, Encoding::Cbor);
    assert_eq!(g(signal.weight), 0.25);
    assert_eq!(signal.ttl, 3);
    assert_eq!(signal.scope, PropagationScope::Flood { max_hops: 2 });
    assert_eq!(signal.correlation_id, Some(other));
    assert!(signal.trace.is_empty());
    assert_eq!(signal.tags, vec!["weather", "a", "b"]);
    assert!(signal.requires_receipt());
}

#[test]
fn an_empty_topic_is_no_tag() {
    let signal = Signal::event("").build_at(NodeId(vec![1]), 0, SignalId::from_parts(1, 1));
    assert!(signal.tags.is_empty());
    assert_eq!(signal.payload, "null");
}

#[test]
fn receipts_are_never_acknowledged() {
    let id = SignalId::from_parts(5, 6);
    let receipt = Receipt::rejected(id, RejectReason::NoRoute, 2);
    let signal = Signal::receipt(&receipt, NodeId(vec![7; 32]), "{}")
        .acknowledged()
        .build_unsigned(NodeId(vec![8; 32]));
    assert_eq!(signal.signal_type, SignalType::Receipt);
    assert_eq!(signal.delivery, DeliveryClass::BestEffort);
    assert_eq!(signal.correlation_id, Some(id));
    assert_eq!(
        signal.scope,
        PropagationScope::Targeted { destination: NodeId(vec![7; 32]) }
    );
    assert!(!SignalType::Receipt.can_be_acknowledged());
    assert!(SignalType::Custom("x".to_string()).can_be_acknowledged());
}

#[test]
fn signal_weight_clamping() {
    let origin = NodeId(vec![0u8; 32]);
    let signal = Signal::data("test").with_weight(f(1.5)).build_unsigned(origin);
    assert!((g(signal.weight) - 1.0).abs() < f32::EPSILON);
}

#[test]
fn signal_hop_decrements_ttl() {
    let origin = NodeId(vec![0u8; 32]);
    let mut signal = Signal::data("test").with_ttl(5).build_unsigned(origin);

    let hop_node = NodeId(vec![1u8; 32]);
    signal.hop(hop_node.clone());

    assert_eq!(signal.ttl, 4);
    assert!(signal.has_visited(&hop_node));
}

#[test]
fn the_trace_is_bounded_and_hops_do_not_wrap() {
    let mut signal = Signal::data("test").with_ttl(1).build_unsigned(NodeId(vec![0; 32]));
    for i in 0..100u8 {
        signal.hop(NodeId(vec![i; 32]));
    }
    assert_eq!(signal.trace.len(), MAX_TRACE);
    assert_eq!(signal.ttl, 0);
    assert!(signal.is_expired());
}

#[test]
fn signal_attenuation() {
    let origin = NodeId(vec![0u8; 32]);
    let mut signal = Signal::data("test").with_weight(f(1.0)).build_unsigned(origin);

    signal.attenuate(f(0.9));
    assert!((g(signal.weight) - 0.9).abs() < f32::EPSILON);

    signal.attenuate(f(0.9));
    assert!((g(signal.weight) - 0.81).abs() < 0.001);
}

#[test]
fn a_hop_holds_an_acknowledged_signal_at_the_floor() {
    let mut signal = Signal::data("t")
        .with_weight(f(0.1))
        .acknowledged()
        .build_unsigned(NodeId(vec![0; 32]));
    signal.attenuate_for_hop(f(0.5), f(0.08));
    assert_eq!(g(signal.weight), 0.08);

    let mut light = Signal::data("t").with_weight(f(0.1)).build_unsigned(NodeId(vec![0; 32]));
    light.attenuate_for_hop(f(0.5), f(0.08));
    assert_eq!(g(light.weight), 0.05);
}

#[test]
fn signal_validation_rejects_invalid_weight() {
    let origin = NodeId(vec![0u8; 32]);
    let mut signal = Signal::data("test").build_unsigned(origin);
    signal.weight = f(1.5);
    signal.signature = vec![1]; // Not empty, to pass the signature check.
    assert!(signal.validate().is_err());
}

#[test]
fn validation_names_the_first_fault() {
    let mut signal = Signal::data("test").build_unsigned(NodeId(vec![0; 32]));
    assert!(matches!(signal.validate(), Err(Error::MissingSignature)));
    signal.signature = vec![1];
    assert!(signal.validate().is_ok());
    signal.ttl = 0;
    assert!(matches!(signal.validate(), Err(Error::TtlExpired(id)) if id == signal.id));
    signal.weight = f(f32::NAN);
    assert!(matches!(signal.validate(), Err(Error::WeightOutOfRange(w)) if w.is_nan()));
}

#[test]
fn the_size_of_an_encoding_is_bounded() {
    assert_eq!(Signal::encode(vec![0; MAX_SIZE]).expect("fits").len(), MAX_SIZE);
    assert!(matches!(
        Signal::encode(vec![0; MAX_SIZE + 1]),
        Err(Error::TooLarge(n)) if n == MAX_SIZE + 1
    ));
    assert!(Signal::decode(&vec![0; MAX_SIZE]).is_ok());
    assert!(matches!(
        Signal::decode(&vec![0; MAX_SIZE + 1]),
        Err(Error::TooLarge(n)) if n == MAX_SIZE + 1
    ));
}

#[test]
fn the_size_estimate_counts_bytes() {
    let mut signal = Signal::data("ab").with_payload("\u{e9}").build_at(
        NodeId(vec![0; 32]),
        0,
        SignalId::from_parts(0, 0),
    );
    signal.hop(NodeId(vec![1; 32]));
    // The fixed part, the origin, two bytes of payload, one node of trace and
    // the tag.
    assert_eq!(signal.estimated_size(), 38 + 32 + 2 + 32 + 2);
}

#[test]
fn signal_type_byte_roundtrip() {
    let types: Vec<SignalType> = vec![
        SignalType::Data,
        SignalType::Query,
        SignalType::Event,
        SignalType::Command,
        SignalType::Heartbeat,
        SignalType::Discovery,
        SignalType::Receipt,
    ];
    for t in types {
        let byte = t.to_type_byte();
        let parsed = SignalType::from_type_byte(byte).expect("known type must parse");
        assert_eq!(t, parsed);
    }
}

#[test]
fn an_application_type_has_no_byte_of_its_own() {
    let custom = SignalType::Custom("x".to_string());
    assert_eq!(custom.to_type_byte(), 0x0F);
    assert_eq!(SignalType::from_type_byte(0x0F), None);
    assert_eq!(SignalType::from_type_byte(7), None);
    assert!(custom.same(&custom.clone()));
    assert!(!custom.same(&SignalType::Custom("y".to_string())));
}

#[test]
fn signal_loop_detection() {
    let origin = NodeId(vec![0u8; 32]);
    let mut signal = Signal::data("test").build_unsigned(origin.clone());

    let node_a = NodeId(vec![1u8; 32]);
    let node_b = NodeId(vec![2u8; 32]);

    signal.hop(node_a.clone());
    signal.hop(node_b.clone());

    assert!(signal.has_visited(&node_a));
    assert!(signal.has_visited(&node_b));
    assert!(!signal.has_visited(&origin));
}

#[test]
fn an_identity_is_shown_by_its_first_bytes() {
    assert_eq!(NodeId(vec![0xAB; 32]).to_string(), "ntl:abababababababab...");
    assert_eq!(NodeId(vec![0x01, 0xF0]).to_string(), "ntl:01f0...");
}
