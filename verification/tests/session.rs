use std::cell::Cell;
use std::collections::BTreeMap;
use std::rc::Rc;

use ntl::config::NodeConfig;
use ntl::crypto::{
    node_id_from_public_key, sign_signal, ClassicalModule, CryptoError, Encoder, PrivateKey,
    PublicKey,
};
use ntl::curves::Curves;
use ntl::delivery::{Receipt, ReceiptStatus, RejectReason};
use ntl::memory::MemoryStore;
use ntl::node::BuiltNode;
use ntl::rng::SplitMix64;
use ntl::scalar::Scalar;
use ntl::session::{
    check_hello, check_proof, hello_payload, inbound, origin_key, outbound, proof_payload,
    refuses_duplicate, release_receipt, sweep_due, HandshakeError, HandshakeFrame, Inbound,
    PendingBodies, Presented,
};
use ntl::signal::{NodeId, Signal, SignalBuilder, SignalId};
use ntl::store::NodeStore;
use ntl::testing::{test_node, test_node_id, test_node_with_config, TEST_EPOCH_NS};
use ntl::time::{Clock, NANOS_PER_HOUR};
use serde_cbor::Value;

fn f(x: f32) -> Scalar {
    Scalar::from_bits(x.to_bits())
}

fn g(x: Scalar) -> f32 {
    f32::from_bits(x.to_bits())
}

#[derive(Debug, Clone, Copy)]
struct Host;

impl Curves for Host {
    fn exp(&self, x: Scalar) -> Scalar {
        f(g(x).exp())
    }

    fn exp2(&self, x: Scalar) -> Scalar {
        f(g(x).exp2())
    }

    fn log2(&self, x: Scalar) -> Scalar {
        f(g(x).log2())
    }

    fn ns_to_hours(&self, ns: u64) -> Scalar {
        f((ns as f64 / NANOS_PER_HOUR as f64) as f32)
    }

    fn hours_to_ns(&self, hours: Scalar) -> u64 {
        (f64::from(g(hours)) * NANOS_PER_HOUR as f64) as u64
    }
}

fn text(s: &str) -> Value {
    Value::Text(s.to_string())
}

/// Signals as maps in CBOR.
struct Cbor;

impl Encoder for Cbor {
    fn encode(&self, s: &Signal) -> Option<Vec<u8>> {
        let mut map: BTreeMap<Value, Value> = BTreeMap::new();
        map.insert(text("id"), Value::Bytes(s.id.to_bytes().to_vec()));
        map.insert(text("signal_type"), text(&format!("{:?}", s.signal_type)));
        map.insert(text("version"), Value::Integer(i128::from(s.version)));
        map.insert(text("origin"), Value::Bytes(s.origin.0.clone()));
        map.insert(text("signature"), Value::Bytes(s.signature.clone()));
        map.insert(text("timestamp"), Value::Integer(i128::from(s.timestamp)));
        map.insert(text("payload"), text(&s.payload));
        map.insert(text("weight"), Value::Integer(i128::from(s.weight.to_bits())));
        map.insert(text("ttl"), Value::Integer(i128::from(s.ttl)));
        map.insert(text("scope"), text(&format!("{:?}", s.scope)));
        map.insert(text("correlation_id"), text(&format!("{:?}", s.correlation_id)));
        map.insert(
            text("trace"),
            Value::Array(s.trace.iter().map(|n| Value::Bytes(n.0.clone())).collect()),
        );
        map.insert(
            text("tags"),
            Value::Array(s.tags.iter().map(|t| text(t)).collect()),
        );
        map.insert(text("delivery"), Value::Integer(i128::from(s.delivery.to_wire())));
        serde_cbor::to_vec(&Value::Map(map)).ok()
    }
}

/// An encoder that has no bytes for any signal.
struct Mute;

impl Encoder for Mute {
    fn encode(&self, _signal: &Signal) -> Option<Vec<u8>> {
        None
    }
}

/// A clock that the test and the node share.
#[derive(Debug, Clone)]
struct Ticks(Rc<Cell<u64>>);

impl Ticks {
    fn starting_at(now_ns: u64) -> Ticks {
        Ticks(Rc::new(Cell::new(now_ns)))
    }

    fn advance_ms(&self, ms: u64) {
        self.0.set(self.0.get() + ms * 1_000_000);
    }
}

impl Clock for Ticks {
    fn now_ns(&self) -> u64 {
        self.0.get()
    }
}

type TestNode = BuiltNode<MemoryStore, Ticks, SplitMix64, Host>;

fn start_node() -> (TestNode, Ticks) {
    let clock = Ticks::starting_at(TEST_EPOCH_NS);
    (test_node(250, clock.clone(), Host), clock)
}

/// A node whose activation gate fires a batch: two signals of weight 0.15 over
/// a fresh synapse cross the threshold together.
fn start_batching_node() -> (TestNode, Ticks) {
    let mut config = NodeConfig::default();
    config.activation.base_threshold = f(0.025);
    config.activation.fire_batch_size = 8;
    config.activation.max_queue_latency_ms = 60_000;
    config.activation.refractory_period_ms = 0;
    config.activation.dynamic_threshold = false;
    let clock = Ticks::starting_at(TEST_EPOCH_NS);
    (test_node_with_config(250, config, clock.clone(), Host), clock)
}

/// A peer with a key of its own.
struct Peer {
    public: PublicKey,
    private: PrivateKey,
    id: NodeId,
}

impl Peer {
    fn keyed(seed: u8) -> Peer {
        let (public, private) =
            ClassicalModule::keypair_from_seed(&[seed; 32]).expect("keypair from seed");
        let id = node_id_from_public_key(&public);
        Peer { public, private, id }
    }

    /// A peer whose handshake with the node is over.
    fn connected(node: &mut TestNode, seed: u8) -> Peer {
        let peer = Peer::keyed(seed);
        node.upsert_synapse(&peer.id).expect("synapse");
        peer
    }

    fn signed(&self, builder: SignalBuilder) -> Signal {
        let mut signal = builder.build_unsigned(self.id.clone());
        self.sign(&mut signal);
        signal
    }

    fn sign(&self, signal: &mut Signal) {
        sign_signal(&ClassicalModule, &Cbor, signal, &self.private).expect("sign");
    }

    fn hello(&self, challenge: &Vec<u8>) -> Signal {
        self.signed(Signal::discovery().with_payload(&hello_payload(&self.public, challenge)))
    }

    fn answer(&self, challenge: &Vec<u8>) -> Signal {
        self.signed(Signal::discovery().with_payload(&proof_payload(challenge)))
    }
}

/// Hand a signal over as the peer, whose key the node knows.
fn hand_over(node: &mut TestNode, peer: &Peer, signal: &Signal) -> Inbound {
    let mut arrived = signal.clone();
    let key = origin_key(&signal.origin, &peer.id, &peer.public, None);
    inbound(node, &ClassicalModule, &Cbor, &mut arrived, &peer.id, key, None).expect("inbound")
}

fn weight_of(node: &TestNode, peer: &NodeId) -> f32 {
    g(node
        .store()
        .synapse_for_peer(peer)
        .expect("store")
        .expect("synapse")
        .weight)
}

#[test]
fn a_signal_from_an_unknown_origin_is_dropped_rather_than_processed() {
    let (mut node, _clock) = start_node();
    let peer = Peer::connected(&mut node, 1);

    // Signed correctly by an identity that the node has never met.
    let ghost = Peer::keyed(9);
    let relayed = ghost.signed(Signal::data("relayed").with_weight(f(0.6)));
    let seen = hand_over(&mut node, &peer, &relayed);

    assert!(
        matches!(seen, Inbound::OriginKeyUnknown),
        "expected the drop to be reported, saw {seen:?}"
    );
    assert!(!node
        .store()
        .has_seen(&relayed.id, TEST_EPOCH_NS)
        .expect("store"));
}

#[test]
fn a_forged_signature_from_a_known_peer_is_dropped_and_penalised() {
    let (mut node, _clock) = start_node();
    let peer = Peer::connected(&mut node, 2);
    let before = weight_of(&node, &peer.id);

    let mut forged = peer.signed(Signal::data("forged").with_weight(f(0.6)));
    forged.payload = "{\"tampered\":true}".to_string();
    let seen = hand_over(&mut node, &peer, &forged);

    assert!(
        matches!(seen, Inbound::SignatureFailed { .. }),
        "expected a signature failure, saw {seen:?}"
    );
    let after = weight_of(&node, &peer.id);
    assert!(
        after < before,
        "a signature failure must cost the synapse weight: {before} -> {after}"
    );
}

#[test]
fn a_signal_from_the_connected_peer_is_accepted() {
    let (mut node, clock) = start_node();
    let peer = Peer::connected(&mut node, 3);

    let good = peer.signed(Signal::data("hello").with_weight(f(0.9)));
    let handled = match hand_over(&mut node, &peer, &good) {
        Inbound::Disposed(_, d) => d.handle_locally.iter().any(|q| q.id == good.id),
        other => panic!("the control case must not trip any verification failure, saw {other:?}"),
    };
    clock.advance_ms(1_500);
    let released = node.poll_activation().iter().any(|q| q.id == good.id);
    assert!(
        handled || released,
        "a correctly signed signal from a connected peer must be handled or \
         released by the latency guard"
    );
}

#[test]
fn an_expired_ttl_is_refused_and_reported_not_silently_dropped() {
    let (mut node, _clock) = start_node();
    let peer = Peer::connected(&mut node, 4);

    let expired = peer.signed(
        Signal::data("expired")
            .with_weight(f(0.5))
            .with_ttl(0)
            .acknowledged(),
    );
    match hand_over(&mut node, &peer, &expired) {
        Inbound::Disposed(_, d) => {
            assert_eq!(d.rejected, Some(RejectReason::TtlExhausted));
            assert!(d.handle_locally.is_empty(), "an expired signal must not be handled");
            let receipt = d.receipt.expect("an acknowledged refusal must produce a receipt");
            assert_eq!(receipt.correlation_id, expired.id);
            assert!(!receipt.is_delivered());
        }
        other => panic!("an exhausted TTL must be refused, not silently dropped, saw {other:?}"),
    }
}

#[test]
fn a_weight_outside_the_valid_range_is_malformed() {
    let (mut node, _clock) = start_node();
    let peer = Peer::connected(&mut node, 8);

    let mut bad = Signal::data("overweight")
        .with_weight(f(0.5))
        .build_unsigned(peer.id.clone());
    bad.weight = f(4.0);
    peer.sign(&mut bad);
    let seen = hand_over(&mut node, &peer, &bad);
    assert!(
        matches!(seen, Inbound::Malformed),
        "expected a malformed-signal drop, saw {seen:?}"
    );
}

#[test]
fn every_signal_a_batch_releases_is_handled_not_only_the_arrival() {
    let (mut node, clock) = start_batching_node();
    let peer = Peer::connected(&mut node, 5);

    let mut sent = Vec::new();
    let mut handled: Vec<SignalId> = Vec::new();
    for (i, weight) in [0.15_f32, 0.15].into_iter().enumerate() {
        let signal = peer.signed(
            Signal::data("batch")
                .with_weight(f(weight))
                .with_payload(&format!("{{\"n\":{i}}}")),
        );
        sent.push(signal.id);
        match hand_over(&mut node, &peer, &signal) {
            Inbound::Disposed(_, d) => handled.extend(d.handle_locally.iter().map(|q| q.id)),
            other => panic!("the signal must be routed, saw {other:?}"),
        }
        clock.advance_ms(30);
    }

    assert!(
        node.poll_activation().is_empty(),
        "the latency guard must not be what released these"
    );
    for id in &sent {
        assert!(
            handled.contains(id),
            "every signal the batch released must be handled, not just the \
             arrival that triggered it. Missing {id:?}; handled {handled:?}"
        );
    }
}

#[test]
fn a_signal_released_by_the_latency_guard_is_still_forwarded() {
    let (mut relay, clock) = start_node();
    let sender = Peer::connected(&mut relay, 6);
    let onward = Peer::connected(&mut relay, 7);
    let mut bodies = PendingBodies::new(relay.config().activation.max_queue_depth);

    let signal = sender.signed(Signal::data("relayed-onward").with_weight(f(0.9)));
    match hand_over(&mut relay, &sender, &signal) {
        Inbound::Disposed(_, d) => {
            assert!(d.queued, "over a fresh synapse only the guard releases it");
            bodies.remember(&signal);
        }
        other => panic!("the signal must be routed, saw {other:?}"),
    }

    clock.advance_ms(2_000);
    let released = relay.poll_activation();
    assert!(
        released.iter().any(|q| q.id == signal.id),
        "the guard should have released it, saw {released:?}"
    );
    let body = bodies.take(signal.id).expect("the body was retained");
    let arrival = relay
        .store()
        .synapse_for_peer(&sender.id)
        .expect("store")
        .expect("synapse")
        .id;
    let forwards = relay.plan_release(&body, Some(&arrival)).expect("plan");
    assert!(
        forwards.iter().any(|forward| forward.peer == onward.id),
        "a released signal must still be forwarded onward, saw {forwards:?}"
    );

    let received = outbound(&body, relay.identity(), &relay.config().propagation);
    assert_eq!(received.id, signal.id);
    assert_eq!(received.ttl, signal.ttl - 1);
    assert!(
        received.trace.contains(relay.identity()),
        "the relay must appear in the trace of what it forwarded"
    );
}

#[test]
fn a_handshake_with_fresh_challenges_succeeds() {
    let me = Peer::keyed(20);
    let other = Peer::keyed(21);
    let ours: Vec<u8> = vec![1; 32];
    let theirs: Vec<u8> = vec![2; 32];

    let hello = other.hello(&theirs);
    let presented = check_hello(&ClassicalModule, &Cbor, &hello, &me.id)
        .expect("an honest hello is accepted");
    assert_eq!(presented.node_id, other.id);
    assert_eq!(presented.public_key.0, other.public.0);
    assert_eq!(presented.challenge, theirs);

    let proof = other.answer(&ours);
    check_proof(&ClassicalModule, &Cbor, &proof, &presented, &ours)
        .expect("an honest proof is accepted");

    // The same proof answers no other challenge.
    let fresh: Vec<u8> = vec![3; 32];
    assert!(matches!(
        check_proof(&ClassicalModule, &Cbor, &proof, &presented, &fresh),
        Err(HandshakeError::WrongEcho)
    ));
}

#[test]
fn the_payloads_are_json_objects() {
    let peer = Peer::keyed(22);
    let hello: serde_json::Value =
        serde_json::from_str(&hello_payload(&peer.public, &vec![7, 8])).expect("JSON");
    assert_eq!(hello["module"], "classical-v1");
    let key: Vec<u8> = serde_json::from_value(hello["public_key"].clone()).expect("bytes");
    assert_eq!(key, peer.public.0);
    let challenge: Vec<u8> = serde_json::from_value(hello["challenge"].clone()).expect("bytes");
    assert_eq!(challenge, vec![7, 8]);

    let proof: serde_json::Value =
        serde_json::from_str(&proof_payload(&vec![9])).expect("JSON");
    let echo: Vec<u8> = serde_json::from_value(proof["proof_for"].clone()).expect("bytes");
    assert_eq!(echo, vec![9]);
}

fn refused_hello(hello: &Signal, me: &NodeId) -> HandshakeError {
    check_hello(&ClassicalModule, &Cbor, hello, me)
        .expect_err("the hello must be refused")
}

#[test]
fn every_fault_of_a_hello_is_named() {
    let me = Peer::keyed(23);
    let peer = Peer::keyed(24);
    let challenge: Vec<u8> = vec![4; 32];

    let empty = peer.signed(Signal::discovery().with_payload("{}"));
    assert_eq!(refused_hello(&empty, &me.id), HandshakeError::NoPublicKey);

    // A key field whose numbers are no bytes is no key.
    let wide = peer.signed(Signal::discovery().with_payload("{\"public_key\":[256]}"));
    assert_eq!(refused_hello(&wide, &me.id), HandshakeError::NoPublicKey);

    let mut stolen = peer.hello(&challenge);
    stolen.origin = test_node_id(1);
    assert_eq!(refused_hello(&stolen, &me.id), HandshakeError::IdentityMismatch);

    let data = peer.signed(Signal::data("hello").with_payload(&hello_payload(&peer.public, &challenge)));
    assert_eq!(
        refused_hello(&data, &me.id),
        HandshakeError::WrongType(HandshakeFrame::Hello)
    );

    let mut unsigned = peer.hello(&challenge);
    unsigned.signature = vec![0; 64];
    assert_eq!(
        refused_hello(&unsigned, &me.id),
        HandshakeError::BadSignature(HandshakeFrame::Hello)
    );

    // The node's own hello, sent back to it.
    let own = me.hello(&challenge);
    assert_eq!(refused_hello(&own, &me.id), HandshakeError::OwnIdentity);

    let silent = peer.signed(Signal::discovery().with_payload(&format!(
        "{{\"public_key\":{:?}}}",
        peer.public.0
    )));
    assert_eq!(refused_hello(&silent, &me.id), HandshakeError::NoChallenge);

    let short = peer.hello(&vec![4; 31]);
    assert_eq!(refused_hello(&short, &me.id), HandshakeError::ChallengeLength(31));

    // A key that is too short to be one, with the identity that it would give.
    let stub = PublicKey(vec![1, 2, 3]);
    let mut weak = Signal::discovery()
        .with_payload(&hello_payload(&stub, &challenge))
        .build_unsigned(node_id_from_public_key(&stub));
    peer.sign(&mut weak);
    assert_eq!(
        refused_hello(&weak, &me.id),
        HandshakeError::Crypto(CryptoError::PublicKeyLength(3))
    );
}

#[test]
fn every_fault_of_a_proof_is_named() {
    let peer = Peer::keyed(25);
    let presented = Presented {
        node_id: peer.id.clone(),
        public_key: PublicKey(peer.public.0.clone()),
        challenge: vec![0; 32],
    };
    let ours: Vec<u8> = vec![5; 32];
    let refused = |answer: &Signal| {
        check_proof(&ClassicalModule, &Cbor, answer, &presented, &ours)
            .expect_err("the proof must be refused")
    };

    let data = peer.signed(Signal::data("proof"));
    assert_eq!(refused(&data), HandshakeError::WrongType(HandshakeFrame::Proof));

    let mut other = peer.answer(&ours);
    other.origin = test_node_id(1);
    assert_eq!(refused(&other), HandshakeError::OtherIdentity(HandshakeFrame::Proof));

    let mut unsigned = peer.answer(&ours);
    unsigned.signature = vec![0; 64];
    assert_eq!(refused(&unsigned), HandshakeError::BadSignature(HandshakeFrame::Proof));

    let silent = peer.signed(Signal::discovery().with_payload("{}"));
    assert_eq!(refused(&silent), HandshakeError::NoEcho);

    let stale = peer.answer(&vec![6; 32]);
    assert_eq!(refused(&stale), HandshakeError::WrongEcho);
}

#[test]
fn a_receipt_from_a_peer_teaches_the_node() {
    let (mut node, _clock) = start_node();
    let peer = Peer::connected(&mut node, 26);
    let emitted = node
        .emit(Signal::data("order").with_weight(f(0.8)).acknowledged())
        .expect("emit");
    let planned = node.receive_local(&emitted).expect("route");
    assert_eq!(planned.forward_to.len(), 1);
    let before = weight_of(&node, &peer.id);

    let receipt = Receipt::delivered(emitted.id, 1);
    let carrier = peer.signed(Signal::receipt(&receipt, node.identity().clone(), "{}"));
    let mut arrived = carrier.clone();
    let seen = inbound(
        &mut node,
        &ClassicalModule,
        &Cbor,
        &mut arrived,
        &peer.id,
        Some(&peer.public),
        Some(receipt),
    )
    .expect("inbound");
    assert!(matches!(seen, Inbound::Receipt(_, Some(_))), "saw {seen:?}");
    assert!(weight_of(&node, &peer.id) > before);

    let unreadable = inbound(
        &mut node,
        &ClassicalModule,
        &Cbor,
        &mut arrived,
        &peer.id,
        Some(&peer.public),
        None,
    )
    .expect("inbound");
    assert!(matches!(unreadable, Inbound::UnreadableReceipt(_)));
}

#[test]
fn hops_beyond_our_own_limit_are_cut() {
    let (mut node, _clock) = start_node();
    let peer = Peer::connected(&mut node, 27);
    let far = peer.signed(Signal::data("far").with_weight(f(0.5)).with_ttl(60_000));
    match hand_over(&mut node, &peer, &far) {
        Inbound::Disposed(clamp, _) => assert!(clamp.ttl_clamped && !clamp.weight_clamped),
        other => panic!("the signal must be routed, saw {other:?}"),
    }
}

#[test]
fn enough_forged_signatures_prune_the_synapse() {
    let (mut node, _clock) = start_node();
    let peer = Peer::connected(&mut node, 28);
    let threshold = node.config().learning.signature_failure_prune_threshold;
    let mut pruned_at = None;
    for n in 1..=threshold {
        let mut forged = peer.signed(Signal::data("forged").with_weight(f(0.6)));
        forged.payload = "{}x".to_string();
        match hand_over(&mut node, &peer, &forged) {
            Inbound::SignatureFailed { pruned } => {
                if pruned {
                    pruned_at = Some(n);
                    break;
                }
            }
            other => panic!("expected a signature failure, saw {other:?}"),
        }
    }
    assert_eq!(pruned_at, Some(threshold));
}

#[test]
fn a_key_is_found_by_the_origin() {
    let peer = Peer::keyed(29);
    let other = Peer::keyed(30);
    let of = |origin: &NodeId, session: Option<&PublicKey>| {
        origin_key(origin, &peer.id, &peer.public, session).map(|k| k.0.clone())
    };
    assert_eq!(of(&peer.id, None), Some(peer.public.0.clone()));
    assert_eq!(of(&peer.id, Some(&other.public)), Some(peer.public.0.clone()));
    assert_eq!(of(&other.id, Some(&other.public)), Some(other.public.0.clone()));
    assert_eq!(of(&other.id, None), None);
}

#[test]
fn only_an_open_session_stands_in_the_way() {
    assert!(refuses_duplicate(Some(true)));
    assert!(!refuses_duplicate(Some(false)));
    assert!(!refuses_duplicate(None));
}

#[test]
fn a_sweep_is_due_every_hundred_polls() {
    let due: Vec<u64> = (0..=250).filter(|t| sweep_due(*t)).collect();
    assert_eq!(due, vec![0, 100, 200]);
}

#[test]
fn a_released_signal_answers_for_its_forwards() {
    let peer = Peer::keyed(31);
    let mut body = peer.signed(Signal::data("order").acknowledged());
    body.hop(test_node_id(1));
    let status = |planned, sent| {
        let receipt = release_receipt(&body, planned, sent).expect("acknowledged");
        assert_eq!(receipt.correlation_id, body.id);
        assert_eq!(receipt.hops, 1);
        receipt.status
    };
    assert_eq!(status(0, 0), ReceiptStatus::Delivered);
    assert_eq!(status(2, 1), ReceiptStatus::Delivered);
    assert_eq!(
        status(2, 0),
        ReceiptStatus::Rejected(RejectReason::TransportFailure)
    );
    let silent = peer.signed(Signal::data("telemetry"));
    assert!(release_receipt(&silent, 2, 0).is_none());
}

#[test]
fn bodies_are_held_up_to_twice_the_queue() {
    let peer = Peer::keyed(32);
    let mut bodies = PendingBodies::new(1);
    let held: Vec<Signal> = (0..3u128)
        .map(|i| {
            let mut signal = peer.signed(Signal::data("held"));
            signal.id = SignalId::from_parts(1_000 + i as u64, i);
            signal
        })
        .collect();
    assert_eq!(bodies.remember(&held[0]), None);
    assert_eq!(bodies.remember(&held[1]), None);
    assert_eq!(bodies.len(), 2);
    // The oldest goes.
    assert_eq!(bodies.remember(&held[2]), Some(held[0].id));
    assert_eq!(bodies.len(), 2);
    assert!(bodies.take(held[0].id).is_none());
    assert_eq!(bodies.take(held[2].id).expect("held").id, held[2].id);
    assert_eq!(bodies.len(), 1);
}

#[test]
fn a_receipt_whose_hops_were_cut_is_reported() {
    let (mut node, _clock) = start_node();
    let peer = Peer::connected(&mut node, 31);
    let receipt = Receipt::delivered(peer.signed(Signal::data("x")).id, 1);
    let carrier =
        peer.signed(Signal::receipt(&receipt, node.identity().clone(), "{}").with_ttl(60_000));
    let mut arrived = carrier.clone();
    let seen = inbound(
        &mut node,
        &ClassicalModule,
        &Cbor,
        &mut arrived,
        &peer.id,
        Some(&peer.public),
        Some(receipt),
    )
    .expect("inbound");
    match seen {
        Inbound::Receipt(clamp, None) => assert!(clamp.ttl_clamped),
        other => panic!("a receipt that matches nothing, saw {other:?}"),
    }
}

#[test]
fn a_signal_without_signed_bytes_counts_as_forged() {
    let (mut node, _clock) = start_node();
    let peer = Peer::connected(&mut node, 32);
    let mut arrived = peer.signed(Signal::data("odd").with_weight(f(0.5)));
    let seen = inbound(
        &mut node,
        &ClassicalModule,
        &Mute,
        &mut arrived,
        &peer.id,
        Some(&peer.public),
        None,
    )
    .expect("inbound");
    assert!(matches!(seen, Inbound::SignatureFailed { pruned: false }));
}

#[test]
fn a_handshake_frame_without_signed_bytes_is_refused() {
    let me = Peer::keyed(33);
    let other = Peer::keyed(34);
    let hello = other.hello(&vec![2; 32]);
    assert!(matches!(
        check_hello(&ClassicalModule, &Mute, &hello, &me.id),
        Err(HandshakeError::Encoding(HandshakeFrame::Hello))
    ));
    let presented = check_hello(&ClassicalModule, &Cbor, &hello, &me.id).expect("accepted");
    let ours: Vec<u8> = vec![1; 32];
    assert!(matches!(
        check_proof(&ClassicalModule, &Mute, &other.answer(&ours), &presented, &ours),
        Err(HandshakeError::Encoding(HandshakeFrame::Proof))
    ));
}
