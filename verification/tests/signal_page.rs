use std::collections::BTreeMap;

use ntl::crypto::{node_id_from_public_key, ClassicalModule, CryptoModule, Signature};
use ntl::curves::Curves;
use ntl::delivery::{DeliveryClass, Receipt, RejectReason};
use ntl::error::Error;
use ntl::memory::MemoryStore;
use ntl::node::{BuiltNode, Node};
use ntl::propagation::PropagationScope;
use ntl::rng::SplitMix64;
use ntl::scalar::Scalar;
use ntl::signal::{Encoding, NodeId, Signal, SignalId, SignalType, MAX_SIZE};
use ntl::time::{ManualClock, NANOS_PER_HOUR};
use serde_cbor::Value;

fn f(x: f32) -> Scalar {
    Scalar::from_bits(x.to_bits())
}

fn g(x: Scalar) -> f32 {
    f32::from_bits(x.to_bits())
}

#[derive(Debug, Clone, Copy)]
struct Host;

impl Curves for Host {
    fn exp(&self, x: Scalar) -> Scalar {
        f(g(x).exp())
    }

    fn exp2(&self, x: Scalar) -> Scalar {
        f(g(x).exp2())
    }

    fn log2(&self, x: Scalar) -> Scalar {
        f(g(x).log2())
    }

    fn ns_to_hours(&self, ns: u64) -> Scalar {
        f((ns as f64 / NANOS_PER_HOUR as f64) as f32)
    }

    fn hours_to_ns(&self, hours: Scalar) -> u64 {
        (f64::from(g(hours)) * NANOS_PER_HOUR as f64) as u64
    }
}

fn text(s: &str) -> Value {
    Value::Text(s.to_string())
}

/// The bytes that a signature of the signal covers.
fn signing_bytes(signal: &Signal) -> Vec<u8> {
    let s = signal.signing_bytes();
    let mut map: BTreeMap<Value, Value> = BTreeMap::new();
    map.insert(text("id"), Value::Bytes(s.id.to_bytes().to_vec()));
    map.insert(text("signal_type"), text(&format!("{:?}", s.signal_type)));
    map.insert(text("version"), Value::Integer(i128::from(s.version)));
    map.insert(text("origin"), Value::Bytes(s.origin.0.clone()));
    map.insert(text("signature"), Value::Bytes(s.signature.clone()));
    map.insert(text("timestamp"), Value::Integer(i128::from(s.timestamp)));
    map.insert(text("payload"), text(&s.payload));
    map.insert(text("weight"), Value::Integer(i128::from(s.weight.to_bits())));
    map.insert(text("ttl"), Value::Integer(i128::from(s.ttl)));
    map.insert(text("scope"), text(&format!("{:?}", s.scope)));
    map.insert(text("correlation_id"), text(&format!("{:?}", s.correlation_id)));
    map.insert(
        text("trace"),
        Value::Array(s.trace.iter().map(|n| Value::Bytes(n.0.clone())).collect()),
    );
    map.insert(
        text("tags"),
        Value::Array(s.tags.iter().map(|t| text(t)).collect()),
    );
    map.insert(text("delivery"), Value::Integer(i128::from(s.delivery.to_wire())));
    serde_cbor::to_vec(&Value::Map(map)).expect("a value encodes")
}

type PlainParts = Node<MemoryStore, ManualClock, SplitMix64, Host>;
type Plain = BuiltNode<MemoryStore, ManualClock, SplitMix64, Host>;

fn build_node() -> Result<Plain, Error> {
    let store = MemoryStore::new();
    PlainParts::builder(Host).with_store(store).build()
}
fn constructors(origin: &NodeId) {
    let data = Signal::data("orders.created").build_unsigned(origin.clone());
    let query = Signal::query("orders.lookup").build_unsigned(origin.clone());
    let event = Signal::event("order.shipped").build_unsigned(origin.clone());
    let command = Signal::command("order.cancel").build_unsigned(origin.clone());
    let discovery = Signal::discovery().build_unsigned(origin.clone());
    let heartbeat = Signal::heartbeat().build_unsigned(origin.clone());

    assert_eq!(data.signal_type, SignalType::Data);
    assert_eq!(query.signal_type, SignalType::Query);
    assert_eq!(event.signal_type, SignalType::Event);
    assert_eq!(command.signal_type, SignalType::Command);
    assert_eq!(discovery.signal_type, SignalType::Discovery);
    assert_eq!(heartbeat.signal_type, SignalType::Heartbeat);
    assert_eq!(discovery.tags, vec!["discovery".to_string()]);
    assert_eq!(heartbeat.tags, vec!["heartbeat".to_string()]);
}
fn builder_defaults(origin: &NodeId) {
    let signal = Signal::data("orders.created").build_unsigned(origin.clone());

    assert_eq!(g(signal.weight), 0.5);
    assert_eq!(signal.ttl, 10);
    assert_eq!(signal.delivery, DeliveryClass::BestEffort);
    assert_eq!(signal.encoding, Encoding::Cbor);
    assert!(matches!(
        signal.scope,
        PropagationScope::Weighted {
            min_synapse_weight
        } if g(min_synapse_weight) == 0.0
    ));
    assert_eq!(signal.tags, vec!["orders.created".to_string()]);
    let clamped = Signal::data("orders.created")
        .with_weight(f(1.5))
        .build_unsigned(origin.clone());
    assert_eq!(g(clamped.weight), 1.0);
}
fn full_builder_chain(node: &mut Plain) -> Result<Signal, Error> {
    let signal = node.emit(
        Signal::event("order.shipped")
            .with_payload("{\"order_id\":\"A-1\"}")
            .with_weight(f(0.7))
            .with_ttl(6)
            .with_tags(vec!["orders", "fulfilment"])
            .with_scope(PropagationScope::Weighted {
                min_synapse_weight: f(0.2),
            })
            .with_delivery(DeliveryClass::Acknowledged),
    )?;

    assert_eq!(g(signal.weight), 0.7);
    assert_eq!(signal.ttl, 6);
    assert_eq!(
        signal.tags,
        vec![
            "order.shipped".to_string(),
            "orders".to_string(),
            "fulfilment".to_string(),
        ]
    );
    Ok(signal)
}
fn correlating_a_reply(node: &mut Plain, request: &Signal) -> Result<Signal, Error> {
    let reply = node.emit(
        Signal::data("orders.lookup.reply")
            .with_payload("{\"status\":\"shipped\"}")
            .with_correlation(request.id),
    )?;

    assert_eq!(reply.correlation_id, Some(request.id));
    Ok(reply)
}
fn reading_fields(node: &Plain, signal: &Signal) {
    assert_eq!(&signal.origin, node.identity());
    assert_eq!(signal.version, 1);
    assert_eq!(signal.encoding, Encoding::Cbor);
    assert!(signal.timestamp > 0);
    assert!(signal.trace.is_empty());
    assert!(signal.signature.is_empty());
}
fn validation(origin: &NodeId) {
    let unsigned = Signal::data("orders.created").build_unsigned(origin.clone());
    assert!(unsigned.validate().is_err());

    let mut signed = unsigned;
    signed.signature = vec![0u8; 64];
    assert!(signed.validate().is_ok());
    let mut expired = signed;
    expired.ttl = 0;
    assert!(expired.is_expired());
    assert!(expired.validate().is_err());
}
fn signal_types_on_the_wire() {
    for signal_type in [
        SignalType::Data,
        SignalType::Query,
        SignalType::Event,
        SignalType::Command,
        SignalType::Heartbeat,
        SignalType::Discovery,
        SignalType::Receipt,
    ] {
        let byte = signal_type.to_type_byte();
        assert_eq!(SignalType::from_type_byte(byte), Some(signal_type));
    }

    let custom = SignalType::Custom("orders.bespoke".to_string());
    assert_eq!(custom.to_type_byte(), 15);
    assert_eq!(SignalType::from_type_byte(15), None);
    assert!(!SignalType::Receipt.can_be_acknowledged());
    assert!(SignalType::Data.can_be_acknowledged());
}
fn propagation_scopes(origin: &NodeId, destination: &NodeId) {
    let scopes = [
        PropagationScope::Flood { max_hops: 3 },
        PropagationScope::Weighted {
            min_synapse_weight: f(0.4),
        },
        PropagationScope::Targeted {
            destination: destination.clone(),
        },
        PropagationScope::Gradient {
            signal_type: "orders".to_string(),
        },
    ];

    for scope in scopes {
        let signal = Signal::data("orders.created")
            .with_scope(scope)
            .build_unsigned(origin.clone());
        assert!(Signal::encode(signing_bytes(&signal)).is_ok());
    }
}
fn delivery_and_receipts(node: &mut Plain) -> Result<(), Error> {
    let command = node.emit(Signal::command("payment.capture").acknowledged())?;
    assert_eq!(command.delivery, DeliveryClass::Acknowledged);
    assert!(command.requires_receipt());

    let receipt = Receipt::rejected(command.id, RejectReason::NoRoute, 3);
    assert!(!receipt.is_delivered());
    assert!(RejectReason::NoRoute.is_transient());
    assert_eq!(RejectReason::NoRoute.as_str(), "no_route");
    let reply = node.emit(Signal::receipt(&receipt, command.origin.clone(), "{}").acknowledged())?;
    assert_eq!(reply.signal_type, SignalType::Receipt);
    assert_eq!(reply.correlation_id, Some(command.id));
    assert_eq!(reply.delivery, DeliveryClass::BestEffort);
    assert!(matches!(reply.scope, PropagationScope::Targeted { .. }));
    Ok(())
}
fn hop_mechanics(origin: &NodeId) {
    let mut signal = Signal::data("orders.created")
        .with_weight(f(1.0))
        .with_ttl(2)
        .build_unsigned(origin.clone());

    let relay = NodeId(vec![7u8; 32]);
    signal.hop(relay.clone());
    assert_eq!(signal.ttl, 1);
    assert!(signal.has_visited(&relay));
    assert!(!signal.has_visited(origin));

    signal.attenuate(f(0.9));
    assert!((g(signal.weight) - 0.9).abs() < 1e-6);

    signal.hop(NodeId(vec![8u8; 32]));
    assert_eq!(signal.ttl, 0);
    assert!(signal.is_expired());
}
fn wire_encoding(signal: &Signal) -> Result<(), Error> {
    let bytes = Signal::encode(signing_bytes(signal))?;
    assert!(bytes.len() <= MAX_SIZE);
    Signal::decode(&bytes)?;

    let oversize = vec![0u8; MAX_SIZE + 1];
    assert!(Signal::decode(&oversize).is_err());
    Ok(())
}

fn signature_coverage(origin: &NodeId) -> Result<(), Error> {
    let signal = Signal::data("orders.created")
        .with_payload("{\"order_id\":\"A-1\"}")
        .with_weight(f(0.8))
        .with_ttl(9)
        .build_unsigned(origin.clone());
    let covered = signing_bytes(&signal);
    let mut relayed = signal.clone();
    relayed.ttl = 64;
    relayed.weight = f(1.0);
    relayed.trace.push(NodeId(vec![7u8; 32]));
    relayed.signature = vec![1u8; 64];
    assert_eq!(signing_bytes(&relayed), covered);
    let mut tampered = signal.clone();
    tampered.payload = "{\"order_id\":\"A-2\"}".to_string();
    assert_ne!(signing_bytes(&tampered), covered);
    let mut reclassified = signal;
    reclassified.delivery = DeliveryClass::Acknowledged;
    assert_ne!(signing_bytes(&reclassified), covered);
    Ok(())
}
fn signing_a_signal() -> Result<(), Error> {
    let (public, private) = ClassicalModule::keypair_from_seed(&[7u8; 32])?;
    let origin = node_id_from_public_key(&public);

    let module = ClassicalModule;
    let mut signal = Signal::data("orders.created").build_unsigned(origin);
    signal.signature = module.sign(&signing_bytes(&signal), &private).expect("sign").0;
    assert!(signal.validate().is_ok());

    let signature = Signature(signal.signature.clone());
    assert!(module.verify(&signing_bytes(&signal), &signature, &public).expect("verify"));
    signal.hop(NodeId(vec![7u8; 32]));
    signal.attenuate(f(0.9));
    assert!(module.verify(&signing_bytes(&signal), &signature, &public).expect("verify"));
    Ok(())
}
fn identifiers(signal: &Signal) {
    let bytes: [u8; 16] = signal.id.to_bytes();
    assert_eq!(SignalId::from_bytes(bytes), signal.id);
    assert_eq!(signal.id.to_string().len(), 26);
    assert!(signal.id.timestamp_ms() > 0);
}

#[test]
fn every_sample_on_the_signal_page_compiles_and_runs() {
    let mut node = build_node().expect("a node with a memory store builds");
    let origin = node.identity().clone();
    let peer = NodeId(vec![9u8; 32]);

    constructors(&origin);
    builder_defaults(&origin);

    let signal = full_builder_chain(&mut node).expect("emitting an event signal");
    correlating_a_reply(&mut node, &signal).expect("emitting a correlated reply");
    reading_fields(&node, &signal);
    validation(&origin);
    signal_types_on_the_wire();
    propagation_scopes(&origin, &peer);
    delivery_and_receipts(&mut node).expect("acknowledged delivery and its receipt");
    hop_mechanics(&origin);
    wire_encoding(&signal).expect("CBOR round trip");
    signature_coverage(&origin).expect("signing-byte coverage");
    identifiers(&signal);

        signing_a_signal().expect("signing and verifying a signal");
}
