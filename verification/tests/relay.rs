use ntl::activation::QueuedSignal;
use ntl::config::NodeConfig;
use ntl::curves::Curves;
use ntl::delivery::{DeliveryClass, Receipt, ReceiptStatus, RejectReason};
use ntl::error::Error;
use ntl::identity::IdentityError;
use ntl::memory::MemoryStore;
use ntl::node::{Disposition, Evicted, Forward};
use ntl::relay::{dispose, release_forwards, start, StartError, Step};
use ntl::scalar::Scalar;
use ntl::session::PendingBodies;
use ntl::signal::{NodeId, Signal, SignalId, SignalType};
use ntl::store::{JournalId, NodeStore};
use ntl::synapse::SynapseId;
use ntl::testing::{test_node, test_node_id, test_signal_from, TEST_EPOCH_NS};
use ntl::time::{ManualClock, NANOS_PER_HOUR};

fn f(x: f32) -> Scalar {
    Scalar::from_bits(x.to_bits())
}

fn g(x: Scalar) -> f32 {
    f32::from_bits(x.to_bits())
}

#[derive(Debug, Clone, Copy)]
struct Host;

impl Curves for Host {
    fn exp(&self, x: Scalar) -> Scalar {
        f(g(x).exp())
    }

    fn exp2(&self, x: Scalar) -> Scalar {
        f(g(x).exp2())
    }

    fn log2(&self, x: Scalar) -> Scalar {
        f(g(x).log2())
    }

    fn ns_to_hours(&self, ns: u64) -> Scalar {
        f((ns as f64 / NANOS_PER_HOUR as f64) as f32)
    }

    fn hours_to_ns(&self, hours: Scalar) -> u64 {
        (f64::from(g(hours)) * NANOS_PER_HOUR as f64) as u64
    }
}

fn body(n: u8) -> Signal {
    test_signal_from(SignalType::Data, f(0.5), n)
}

fn queued(signal: &Signal, delivery: DeliveryClass) -> QueuedSignal {
    QueuedSignal {
        id: signal.id,
        origin: signal.origin.clone(),
        weight: signal.weight,
        delivery,
        enqueued_at_ns: TEST_EPOCH_NS,
    }
}

fn forward(peer: u8) -> Forward {
    Forward {
        synapse: SynapseId(format!("s{peer}")),
        peer: test_node_id(peer),
        journal_id: JournalId(u64::from(peer)),
        explored: false,
    }
}

fn quiet() -> Disposition {
    Disposition {
        forward_to: Vec::new(),
        handle_locally: Vec::new(),
        receipt: None,
        rejected: None,
        evicted: None,
        queued: false,
    }
}

#[test]
fn a_batch_is_handled_with_the_bodies_at_hand() {
    let arrival = body(1);
    let waiting = body(2);
    let forgotten = body(3);
    let mut bodies = PendingBodies::new(8);
    bodies.remember(&waiting);
    let d = Disposition {
        forward_to: vec![forward(7)],
        handle_locally: vec![
            queued(&waiting, DeliveryClass::BestEffort),
            queued(&arrival, DeliveryClass::BestEffort),
            queued(&forgotten, DeliveryClass::BestEffort),
            queued(&waiting, DeliveryClass::BestEffort),
        ],
        ..quiet()
    };
    let steps = dispose(&arrival, &test_node_id(9), &d, &mut bodies);
    let seen: Vec<(SignalId, Option<SignalId>, Option<usize>)> = steps
        .iter()
        .map(|s| match s {
            Step::Release { id, body, plan } => {
                (*id, body.as_ref().map(|b| b.id), plan.as_ref().map(Vec::len))
            }
            other => panic!("only releases are due, saw {other:?}"),
        })
        .collect();
    assert_eq!(
        seen,
        vec![
            (waiting.id, Some(waiting.id), None),
            (arrival.id, Some(arrival.id), Some(1)),
            (forgotten.id, None, None),
            (waiting.id, None, None),
        ]
    );
    assert_eq!(bodies.len(), 0);
}

#[test]
fn a_displaced_signal_is_answered_for_on_its_own() {
    let arrival = body(1);
    let mut displaced = body(2);
    displaced.hop(test_node_id(5));
    displaced.hop(test_node_id(6));
    let mut bodies = PendingBodies::new(8);
    bodies.remember(&displaced);
    let d = Disposition {
        evicted: Some(Evicted {
            signal: queued(&displaced, DeliveryClass::Acknowledged),
            reason: RejectReason::QueueFull,
        }),
        queued: true,
        ..quiet()
    };
    let steps = dispose(&arrival, &test_node_id(9), &d, &mut bodies);
    assert_eq!(steps.len(), 2);
    match &steps[0] {
        Step::Refused(id, reason) => {
            assert_eq!((*id, *reason), (displaced.id, RejectReason::QueueFull));
        }
        other => panic!("the refusal is reported first, saw {other:?}"),
    }
    match &steps[1] {
        Step::Answer { receipt, origin, via } => {
            assert_eq!(receipt.correlation_id, displaced.id);
            assert_eq!(receipt.status, ReceiptStatus::Rejected(RejectReason::QueueFull));
            assert_eq!(receipt.hops, 2);
            assert_eq!(*origin, displaced.origin);
            assert!(via.is_none());
        }
        other => panic!("its origin is answered, saw {other:?}"),
    }
    // The arrival took its place.
    assert_eq!(bodies.len(), 1);
    assert!(bodies.take(arrival.id).is_some());
}

#[test]
fn a_refusal_is_answered_and_the_batch_still_handled() {
    let arrival = body(1);
    let waiting = body(2);
    let mut bodies = PendingBodies::new(8);
    bodies.remember(&waiting);
    let peer: NodeId = test_node_id(9);
    let d = Disposition {
        handle_locally: vec![queued(&waiting, DeliveryClass::BestEffort)],
        receipt: Some(Receipt::rejected(arrival.id, RejectReason::NoRoute, 1)),
        rejected: Some(RejectReason::NoRoute),
        ..quiet()
    };
    let steps = dispose(&arrival, &peer, &d, &mut bodies);
    assert_eq!(steps.len(), 3);
    assert!(matches!(&steps[0], Step::Answer { origin, via: Some(via), .. }
        if *origin == arrival.origin && *via == peer));
    assert!(matches!(&steps[1], Step::Refused(id, RejectReason::NoRoute) if *id == arrival.id));
    assert!(matches!(&steps[2], Step::Release { id, body: Some(_), plan: None }
        if *id == waiting.id));
}

#[test]
fn a_plan_made_on_arrival_is_kept() {
    let mut node = test_node(1, ManualClock::starting_at(TEST_EPOCH_NS), Host);
    node.upsert_synapse(&test_node_id(2)).expect("synapse");
    let planned = release_forwards(&mut node, &body(3), Some(vec![forward(7)]));
    assert_eq!(planned, vec![forward(7)]);
    assert_eq!(node.store().journal_len(), 0);
}

#[test]
fn a_released_signal_does_not_go_back_the_way_it_came() {
    let mut node = test_node(1, ManualClock::starting_at(TEST_EPOCH_NS), Host);
    node.upsert_synapse(&test_node_id(2)).expect("synapse");
    node.upsert_synapse(&test_node_id(4)).expect("synapse");
    let mut signal = body(3);
    signal.hop(test_node_id(2));
    let forwards = release_forwards(&mut node, &signal, None);
    let peers: Vec<NodeId> = forwards.into_iter().map(|f| f.peer).collect();
    assert_eq!(peers, vec![test_node_id(4)]);
    assert_eq!(node.store().journal_len(), 1);
}

#[test]
fn a_node_starts_with_an_identity_that_its_store_keeps() {
    let (node, identity) =
        start(MemoryStore::new(), NodeConfig::default(), Host).expect("the node starts");
    assert_eq!(node.identity(), &identity.node_id);
    let kept = node.store().get_meta("node-id").expect("store").expect("kept");
    assert_eq!(kept, identity.node_id.0);
    let seed = node.store().get_meta("identity-seed").expect("store").expect("kept");
    assert_eq!(seed.len(), 32);
}

#[test]
fn a_node_does_not_start_with_a_broken_setup() {
    let mut config = NodeConfig::default();
    config.propagation.max_fanout = 0;
    assert!(matches!(
        start(MemoryStore::new(), config, Host),
        Err(StartError::Node(Error::Config(_)))
    ));
    let mut store = MemoryStore::new();
    store.put_meta("identity-seed", &vec![1, 2, 3]).expect("meta");
    assert!(matches!(
        start(store, NodeConfig::default(), Host),
        Err(StartError::Identity(IdentityError::Malformed(3)))
    ));
}
