use ntl::activation::{
    ActivationConfig, ActivationFunction, ActivationState, AdmitOutcome, NodeClass, OverflowPolicy,
    QueuedSignal,
};
use ntl::config::ConfigError;
use ntl::curves::Curves;
use ntl::delivery::{DeliveryClass, RejectReason};
use ntl::rng::{FixedRng, Rng, SplitMix64};
use ntl::scalar::Scalar;
use ntl::signal::{NodeId, SignalId};
use ntl::store::ActivationSnapshot;
use ntl::time::NANOS_PER_HOUR;

fn f(x: f32) -> Scalar {
    Scalar::from_bits(x.to_bits())
}

fn g(x: Scalar) -> f32 {
    f32::from_bits(x.to_bits())
}

#[derive(Debug, Clone, Copy)]
struct Host;

impl Curves for Host {
    fn exp(&self, x: Scalar) -> Scalar {
        f(g(x).exp())
    }

    fn exp2(&self, x: Scalar) -> Scalar {
        f(g(x).exp2())
    }

    fn log2(&self, x: Scalar) -> Scalar {
        f(g(x).log2())
    }

    fn ns_to_hours(&self, ns: u64) -> Scalar {
        f((ns as f64 / NANOS_PER_HOUR as f64) as f32)
    }

    fn hours_to_ns(&self, hours: Scalar) -> u64 {
        (f64::from(g(hours)) * NANOS_PER_HOUR as f64) as u64
    }
}

fn offer<R: Rng>(
    st: &mut ActivationState,
    signal: QueuedSignal,
    synapse_weight: f32,
    now_ns: u64,
    rng: &mut R,
) -> AdmitOutcome {
    st.offer(signal, f(synapse_weight), now_ns, rng, &Host)
}

const MS: u64 = 1_000_000;

fn cfg() -> ActivationConfig {
    ActivationConfig {
        refractory_period_ms: 0,
        dynamic_threshold: false,
        fire_batch_size: 4,
        max_queue_depth: 8,
        max_queue_latency_ms: 0,
        ..ActivationConfig::for_class(NodeClass::Edge)
    }
}

fn sig(n: u64, weight: f32) -> QueuedSignal {
    QueuedSignal {
        id: SignalId::from_parts(1_700_000_000_000 + n, u128::from(n) << 64),
        origin: NodeId(vec![9u8; 32]),
        weight: f(weight),
        delivery: DeliveryClass::BestEffort,
        enqueued_at_ns: 0,
    }
}

fn ack_sig(n: u64, weight: f32) -> QueuedSignal {
    QueuedSignal {
        delivery: DeliveryClass::Acknowledged,
        ..sig(n, weight)
    }
}


#[test]
fn node_class_defaults_scale_with_capability() {
    let edge = ActivationConfig::for_class(NodeClass::Edge);
    let server = ActivationConfig::for_class(NodeClass::Server);

    assert_eq!(edge.refractory_period_ms, 10);
    assert_eq!(
        server.refractory_period_ms, 0,
        "a server-class node must not be capped at 100 fires/second"
    );
    assert!(server.fire_batch_size > edge.fire_batch_size);
    assert!(server.max_queue_depth > edge.max_queue_depth);
}

#[test]
fn activation_all_class_defaults_validate() {
    for c in [
        NodeClass::Edge,
        NodeClass::Standard,
        NodeClass::Server,
        NodeClass::Infrastructure,
    ] {
        ActivationConfig::for_class(c)
            .validate()
            .unwrap_or_else(|e| panic!("{c:?} invalid: {e:?}"));
    }
}

#[test]
fn validate_rejects_zero_batch_size() {
    let c = ActivationConfig {
        fire_batch_size: 0,
        ..cfg()
    };
    assert!(c.validate().unwrap_err().message().contains("fire_batch_size"));
}

#[test]
fn validate_rejects_unreachable_threshold() {
    let c = ActivationConfig {
        base_threshold: f(100.0),
        max_potential: f(1.0),
        ..cfg()
    };
    assert!(c.validate().is_err());
}

#[test]
fn fires_once_potential_reaches_threshold() {
    let mut st = ActivationState::new(&cfg());
    let mut rng = SplitMix64::seeded(1);

    let out = offer(&mut st, sig(1, 0.3), 1.0, 0, &mut rng);
    assert!(!out.did_fire(), "0.3 < 0.5 must not fire");
    assert_eq!(st.queue_depth(), 1);

    let out = offer(&mut st, sig(2, 0.3), 1.0, 0, &mut rng);
    assert!(out.did_fire(), "0.6 >= 0.5 must fire");
    assert!((g(st.potential()) - 0.0).abs() < f32::EPSILON);
}

#[test]
fn firing_drains_a_batch_not_one_signal() {
    let mut st = ActivationState::new(&cfg());
    let mut rng = SplitMix64::seeded(2);

    for i in 0..4 {
        offer(&mut st, sig(i, 0.1), 1.0, 0, &mut rng);
    }
    assert_eq!(st.queue_depth(), 4, "below threshold, all should queue");

    let out = offer(&mut st, sig(99, 0.5), 1.0, 0, &mut rng);
    assert!(out.did_fire());
    assert_eq!(
        out.fired.len(),
        4,
        "a fire must drain up to fire_batch_size, not a single signal"
    );
    assert_eq!(st.queue_depth(), 1, "the remainder must stay queued");
}

#[test]
fn batch_is_ordered_by_weight_descending() {
    let mut st = ActivationState::new(&ActivationConfig {
        base_threshold: f(1_000.0),
        ..cfg()
    });
    let mut rng = SplitMix64::seeded(3);
    for (i, w) in [(1, 0.1), (2, 0.9), (3, 0.4), (4, 0.7)] {
        assert!(!offer(&mut st, sig(i, w), 1.0, 0, &mut rng).did_fire());
    }
    let batch = st.drain_batch(0);
    let weights: Vec<f32> = batch.iter().map(|s| g(s.weight)).collect();
    assert_eq!(
        weights,
        vec![0.9, 0.7, 0.4, 0.1],
        "the highest-weight signals must be processed first"
    );
}

#[test]
fn leftover_signals_are_not_discarded() {
    let mut st = ActivationState::new(&ActivationConfig {
        fire_batch_size: 2,
        max_queue_depth: 16,
        ..cfg()
    });
    let mut rng = SplitMix64::seeded(4);

    let total: usize = 20;
    let mut fired = 0;
    let mut dropped = 0;

    for i in 0..total as u64 {
        let out = offer(&mut st, sig(i, 0.4), 1.0, 0, &mut rng);
        fired += out.fired.len();
        if out.dropped.is_some() {
            dropped += 1;
        }
    }
    loop {
        let batch = st.drain_batch(0);
        if batch.is_empty() {
            break;
        }
        fired += batch.len();
    }

    assert_eq!(st.queue_depth(), 0, "the queue should be fully drained");
    assert_eq!(
        fired + dropped,
        total,
        "every signal must be accounted for: {fired} fired + {dropped} \
         dropped should equal {total} offered"
    );
}

#[test]
fn potential_is_capped() {
    let mut st = ActivationState::new(&ActivationConfig {
        base_threshold: f(1_000.0),
        max_potential: f(5.0),
        ..cfg()
    });
    let mut rng = SplitMix64::seeded(5);
    for i in 0..100 {
        offer(&mut st, sig(i, 1.0), 1.0, 0, &mut rng);
    }
    assert!(g(st.potential()) <= 5.0);
}

#[test]
fn synapse_weight_modulates_contribution() {
    let mut st = ActivationState::new(&cfg());
    let mut rng = SplitMix64::seeded(6);
    let out = offer(&mut st, sig(1, 1.0), 0.1, 0, &mut rng);
    assert!(!out.did_fire(), "1.0 * 0.1 = 0.1 < 0.5");
    assert!((g(st.potential()) - 0.1).abs() < 1e-6);
}

#[test]
fn empty_queue_never_fires() {
    let mut st = ActivationState::new(&cfg());
    let mut rng = SplitMix64::seeded(7);
    offer(&mut st, sig(1, 1.0), 1.0, 0, &mut rng);
    assert!(st.drain_batch(0).len() <= 1);
    assert!(st.drain_batch(0).is_empty());
}

#[test]
fn refractory_period_blocks_firing() {
    let mut st = ActivationState::new(&ActivationConfig {
        refractory_period_ms: 10,
        ..cfg()
    });
    let mut rng = SplitMix64::seeded(8);

    let out = offer(&mut st, sig(1, 1.0), 1.0, 0, &mut rng);
    assert!(out.did_fire());
    assert!(st.in_refractory(5 * MS));

    let out = offer(&mut st, sig(2, 1.0), 1.0, 5 * MS, &mut rng);
    assert!(
        !out.did_fire(),
        "must not fire inside the refractory period"
    );
    assert_eq!(st.queue_depth(), 1, "but the signal must still queue");

    let out = offer(&mut st, sig(3, 1.0), 1.0, 11 * MS, &mut rng);
    assert!(out.did_fire(), "must fire once the period elapses");
}

#[test]
fn zero_refractory_allows_back_to_back_fires() {
    let mut st = ActivationState::new(&ActivationConfig {
        refractory_period_ms: 0,
        ..cfg()
    });
    let mut rng = SplitMix64::seeded(9);
    for i in 0..5 {
        assert!(offer(&mut st, sig(i, 1.0), 1.0, 0, &mut rng).did_fire());
    }
}

#[test]
fn load_factor_stays_in_unit_interval() {
    let mut st = ActivationState::new(&ActivationConfig {
        base_threshold: f(1_000.0),
        max_queue_depth: 4,
        ..cfg()
    });
    let mut rng = SplitMix64::seeded(10);
    assert!((g(st.load_factor()) - 0.0).abs() < f32::EPSILON);
    for i in 0..20 {
        offer(&mut st, sig(i, 0.1), 1.0, 0, &mut rng);
        assert!((0.0..=1.0).contains(&g(st.load_factor())));
    }
    assert!((g(st.load_factor()) - 1.0).abs() < f32::EPSILON);
}

#[test]
fn queue_is_bounded() {
    let mut st = ActivationState::new(&ActivationConfig {
        base_threshold: f(1_000.0), // never fires
        max_queue_depth: 4,
        ..cfg()
    });
    let mut rng = SplitMix64::seeded(11);
    for i in 0..50 {
        offer(&mut st, sig(i, 0.5), 1.0, 0, &mut rng);
    }
    assert_eq!(st.queue_depth(), 4, "the queue must respect its bound");
    assert!(st.overflow_count() > 0);
}

#[test]
fn drop_lowest_weight_evicts_the_weakest() {
    let mut st = ActivationState::new(&ActivationConfig {
        base_threshold: f(1_000.0),
        max_queue_depth: 3,
        overflow_policy: OverflowPolicy::DropLowestWeight,
        ..cfg()
    });
    let mut rng = SplitMix64::seeded(12);
    offer(&mut st, sig(1, 0.9), 1.0, 0, &mut rng);
    offer(&mut st, sig(2, 0.1), 1.0, 0, &mut rng);
    offer(&mut st, sig(3, 0.8), 1.0, 0, &mut rng);

    let out = offer(&mut st, sig(4, 0.5), 1.0, 0, &mut rng);
    let dropped = out.dropped.expect("queue was full");
    assert!(
        (g(dropped.weight) - 0.1).abs() < f32::EPSILON,
        "the weakest queued signal should be evicted, not the arrival"
    );
    assert_eq!(out.drop_reason, Some(RejectReason::QueueFull));
}

#[test]
fn drop_lowest_weight_rejects_a_weaker_arrival() {
    let mut st = ActivationState::new(&ActivationConfig {
        base_threshold: f(1_000.0),
        max_queue_depth: 2,
        overflow_policy: OverflowPolicy::DropLowestWeight,
        ..cfg()
    });
    let mut rng = SplitMix64::seeded(13);
    offer(&mut st, sig(1, 0.9), 1.0, 0, &mut rng);
    offer(&mut st, sig(2, 0.8), 1.0, 0, &mut rng);

    let out = offer(&mut st, sig(3, 0.01), 1.0, 0, &mut rng);
    let dropped = out.dropped.expect("queue was full");
    assert_eq!(
        dropped.id,
        sig(3, 0.01).id,
        "the weak arrival should be dropped"
    );
}

#[test]
fn equal_weight_flood_cannot_displace_committed_signals() {
    let mut st = ActivationState::new(&ActivationConfig {
        base_threshold: f(1_000.0),
        max_queue_depth: 2,
        overflow_policy: OverflowPolicy::DropLowestWeight,
        ..cfg()
    });
    let mut rng = SplitMix64::seeded(14);
    offer(&mut st, sig(1, 0.5), 1.0, 0, &mut rng);
    offer(&mut st, sig(2, 0.5), 1.0, 0, &mut rng);

    for i in 10..20 {
        let out = offer(&mut st, sig(i, 0.5), 1.0, 0, &mut rng);
        assert_eq!(
            out.dropped.map(|d| d.id),
            Some(sig(i, 0.5).id),
            "on a tie the arrival is dropped, so a flood cannot evict \
             what is already queued"
        );
    }
}

#[test]
fn drop_newest_and_oldest_behave_as_named() {
    let mut rng = SplitMix64::seeded(15);

    let mut newest = ActivationState::new(&ActivationConfig {
        base_threshold: f(1_000.0),
        max_queue_depth: 2,
        overflow_policy: OverflowPolicy::DropNewest,
        ..cfg()
    });
    offer(&mut newest, sig(1, 0.1), 1.0, 0, &mut rng);
    offer(&mut newest, sig(2, 0.1), 1.0, 0, &mut rng);
    let out = offer(&mut newest, sig(3, 0.9), 1.0, 0, &mut rng);
    assert_eq!(out.dropped.map(|d| d.id), Some(sig(3, 0.9).id));

    let mut oldest = ActivationState::new(&ActivationConfig {
        base_threshold: f(1_000.0),
        max_queue_depth: 2,
        overflow_policy: OverflowPolicy::DropOldest,
        ..cfg()
    });
    offer(&mut oldest, sig(1, 0.1), 1.0, 0, &mut rng);
    offer(&mut oldest, sig(2, 0.1), 1.0, 0, &mut rng);
    let out = offer(&mut oldest, sig(3, 0.9), 1.0, 0, &mut rng);
    assert_eq!(out.dropped.map(|d| d.id), Some(sig(1, 0.1).id));
}

#[test]
fn drop_oldest_evicts_by_arrival_time_not_by_position() {
    let mut rng = SplitMix64::seeded(41);
    let mut st = ActivationState::new(&ActivationConfig {
        base_threshold: f(0.5),
        fire_batch_size: 1,
        max_queue_depth: 3,
        overflow_policy: OverflowPolicy::DropOldest,
        ..cfg()
    });

    let at = |n: u64, w: f32, t: u64| QueuedSignal {
        enqueued_at_ns: t,
        ..sig(n, w)
    };
    let a = at(1, 0.10, 1_000);
    let b = at(2, 0.20, 2_000);
    offer(&mut st, a.clone(), 1.0, 1_000, &mut rng);
    offer(&mut st, b.clone(), 1.0, 2_000, &mut rng);
    let fired = offer(&mut st, at(3, 0.30, 3_000), 1.0, 3_000, &mut rng);
    assert_eq!(fired.fired.len(), 1, "0.10+0.20+0.30 should cross 0.5");
    assert_eq!(st.queue_depth(), 2, "a batch of 1 leaves two behind");
    offer(&mut st, at(4, 0.05, 4_000), 1.0, 4_000, &mut rng);
    assert_eq!(st.queue_depth(), 3);

    let out = offer(&mut st, at(5, 0.05, 5_000), 1.0, 5_000, &mut rng);
    let dropped = out.dropped.expect("the queue was full, so something went");
    assert_eq!(
        dropped.id, a.id,
        "DropOldest must evict the earliest arrival; index 0 was the \
         heaviest remaining signal"
    );
}

#[test]
fn acknowledged_drop_demands_a_receipt() {
    let mut st = ActivationState::new(&ActivationConfig {
        base_threshold: f(1_000.0),
        max_queue_depth: 1,
        overflow_policy: OverflowPolicy::DropNewest,
        ..cfg()
    });
    let mut rng = SplitMix64::seeded(16);
    offer(&mut st, sig(1, 0.5), 1.0, 0, &mut rng);

    let out = offer(&mut st, ack_sig(2, 0.5), 1.0, 0, &mut rng);
    assert!(
        out.needs_receipt(),
        "overload is not an exemption from the delivery guarantee"
    );
    assert_eq!(out.drop_reason, Some(RejectReason::QueueFull));
}

#[test]
fn best_effort_drop_needs_no_receipt() {
    let mut st = ActivationState::new(&ActivationConfig {
        base_threshold: f(1_000.0),
        max_queue_depth: 1,
        overflow_policy: OverflowPolicy::DropNewest,
        ..cfg()
    });
    let mut rng = SplitMix64::seeded(17);
    offer(&mut st, sig(1, 0.5), 1.0, 0, &mut rng);
    let out = offer(&mut st, sig(2, 0.5), 1.0, 0, &mut rng);
    assert!(out.dropped.is_some());
    assert!(!out.needs_receipt());
}

#[test]
fn a_signal_below_threshold_eventually_fires_anyway() {
    let mut st = ActivationState::new(&ActivationConfig {
        max_queue_latency_ms: 1_000,
        ..cfg()
    });
    let mut rng = SplitMix64::seeded(30);

    let out = offer(&mut st, sig(1, 0.45), 0.1, 0, &mut rng);
    assert!(!out.did_fire(), "0.045 is far below the 0.5 threshold");
    assert_eq!(st.queue_depth(), 1);
    let out = offer(&mut st, sig(2, 0.45), 0.1, 500 * MS, &mut rng);
    assert!(!out.did_fire());
    let out = offer(&mut st, sig(3, 0.45), 0.1, 1_100 * MS, &mut rng);
    assert!(
        out.did_fire(),
        "a signal must not be starved indefinitely; backpressure is a \
         delay, not a silent drop"
    );
}

#[test]
fn the_guard_respects_the_refractory_period() {
    let mut st = ActivationState::new(&ActivationConfig {
        max_queue_latency_ms: 100,
        refractory_period_ms: 50,
        ..cfg()
    });
    let mut rng = SplitMix64::seeded(31);
    assert!(offer(&mut st, sig(1, 1.0), 1.0, 0, &mut rng).did_fire());
    let out = offer(&mut st, sig(2, 0.01), 0.01, 20 * MS, &mut rng);
    assert!(!out.did_fire(), "refractory must win over the guard");
}

#[test]
fn a_zero_guard_disables_it() {
    let mut st = ActivationState::new(&ActivationConfig {
        max_queue_latency_ms: 0,
        ..cfg()
    });
    let mut rng = SplitMix64::seeded(32);
    offer(&mut st, sig(1, 0.01), 0.01, 0, &mut rng);
    assert!(!st.is_starving(u64::MAX / 2));
    assert!(
        !offer(&mut st, sig(2, 0.01), 0.01, u64::MAX / 2, &mut rng)
            .did_fire()
    );
}

#[test]
fn every_class_default_enables_the_guard() {
    for c in [
        NodeClass::Edge,
        NodeClass::Standard,
        NodeClass::Server,
        NodeClass::Infrastructure,
    ] {
        let config = ActivationConfig::for_class(c);
        assert!(
            config.max_queue_latency_ms > 0,
            "{c:?} must not ship able to starve a signal forever"
        );
        assert!(config.max_queue_latency_ms >= config.refractory_period_ms);
    }
}

#[test]
fn validate_rejects_a_guard_shorter_than_the_refractory_period() {
    let c = ActivationConfig {
        max_queue_latency_ms: 5,
        refractory_period_ms: 50,
        ..cfg()
    };
    assert!(c.validate().is_err());
}

#[test]
fn threshold_rises_with_load() {
    let mut st = ActivationState::new(&ActivationConfig {
        dynamic_threshold: true,
        ..cfg()
    });
    st.adjust_for_load(f(1.0));
    assert!(
        (g(st.threshold()) - 1.0).abs() < f32::EPSILON,
        "0.5 * (1 + 1.0)"
    );
    st.adjust_for_load(f(0.0));
    assert!((g(st.threshold()) - 0.5).abs() < f32::EPSILON);
}

#[test]
fn static_threshold_ignores_load() {
    let mut st = ActivationState::new(&ActivationConfig {
        dynamic_threshold: false,
        ..cfg()
    });
    st.adjust_for_load(f(1.0));
    assert!((g(st.threshold()) - 0.5).abs() < f32::EPSILON);
}

#[test]
fn dynamic_threshold_provides_backpressure() {
    let mut st = ActivationState::new(&ActivationConfig {
        dynamic_threshold: true,
        base_threshold: f(0.5),
        max_queue_depth: 10,
        fire_batch_size: 1,
        ..cfg()
    });
    let mut rng = SplitMix64::seeded(18);
    for i in 0..9 {
        offer(&mut st, sig(i, 0.05), 1.0, 0, &mut rng);
    }
    assert!(
        g(st.threshold()) > 0.5,
        "a loaded node must become more selective, got {}",
        g(st.threshold())
    );
}

#[test]
fn leaky_passes_occasionally_below_threshold() {
    let mut st = ActivationState::new(&ActivationConfig {
        activation_function: ActivationFunction::Leaky,
        base_threshold: f(100.0),
        leak_rate: f(0.5),
        fire_batch_size: 1,
        ..cfg()
    });
    let mut rng = SplitMix64::seeded(19);
    let mut fires = 0;
    for i in 0..200 {
        if offer(&mut st, sig(i, 0.001), 1.0, 0, &mut rng).did_fire() {
            fires += 1;
        }
    }
    assert!(fires > 50, "leaky should pass a fraction; got {fires}");
    assert!(fires < 200, "leaky should not pass everything");
}

#[test]
fn sigmoid_is_probabilistic_around_the_threshold() {
    let mut st = ActivationState::new(&ActivationConfig {
        activation_function: ActivationFunction::Sigmoid,
        fire_batch_size: 1,
        ..cfg()
    });
    let mut rng = SplitMix64::seeded(20);
    let mut fires = 0;
    for i in 0..500 {
        if offer(&mut st, sig(i, 0.5), 1.0, 0, &mut rng).did_fire() {
            fires += 1;
        }
    }
    assert!(
        fires > 0 && fires < 500,
        "sigmoid should be stochastic; got {fires}"
    );
}

#[test]
fn snapshot_roundtrip_preserves_backpressure() {
    let mut st = ActivationState::new(&ActivationConfig {
        refractory_period_ms: 10,
        base_threshold: f(1_000.0),
        ..cfg()
    });
    let mut rng = SplitMix64::seeded(21);
    offer(&mut st, sig(1, 0.8), 1.0, 0, &mut rng);
    let snap = st.snapshot(1_000);

    let mut restored = ActivationState::new(&ActivationConfig {
        refractory_period_ms: 10,
        base_threshold: f(1_000.0),
        ..cfg()
    });
    restored.restore(&snap);
    assert!((g(restored.potential()) - g(st.potential())).abs() < 1e-6);
    assert_eq!(restored.threshold(), st.threshold());
}

#[test]
fn restore_carries_the_refractory_deadline() {
    let snap = ActivationSnapshot {
        potential: f(0.0),
        threshold: f(0.5),
        refractory_until_ns: 50 * MS,
        signals_fired: 7,
        taken_at_ns: 10 * MS,
    };
    let mut st = ActivationState::new(&cfg());
    st.restore(&snap);
    assert!(
        st.in_refractory(20 * MS),
        "the deadline must survive a restart"
    );
    assert_eq!(st.fire_count(), 7);
}

#[test]
fn restore_clamps_potential_to_the_configured_max() {
    let snap = ActivationSnapshot {
        potential: f(1e9),
        threshold: f(0.5),
        refractory_until_ns: 0,
        signals_fired: 0,
        taken_at_ns: 0,
    };
    let mut st = ActivationState::new(&cfg());
    st.restore(&snap);
    assert!(
        g(st.potential()) <= g(cfg().max_potential),
        "a corrupt or foreign snapshot must not exceed local limits"
    );
}

#[test]
fn reset_clears_everything() {
    let mut st = ActivationState::new(&cfg());
    let mut rng = SplitMix64::seeded(22);
    offer(&mut st, sig(1, 1.0), 1.0, 0, &mut rng);
    st.reset();
    assert_eq!(st.queue_depth(), 0);
    assert_eq!(st.fire_count(), 0);
    assert!((g(st.potential()) - 0.0).abs() < f32::EPSILON);
}

#[test]
fn every_fault_of_a_configuration_is_named() {
    let fault = |c: ActivationConfig| c.validate().expect_err("must be refused");
    assert!(matches!(
        fault(ActivationConfig { max_queue_depth: 0, ..cfg() }),
        ConfigError::MaxQueueDepth
    ));
    assert!(matches!(
        fault(ActivationConfig { base_threshold: f(0.0), ..cfg() }),
        ConfigError::BaseThreshold(_)
    ));
    assert!(matches!(
        fault(ActivationConfig { max_potential: f(0.25), ..cfg() }),
        ConfigError::MaxPotential(_, _)
    ));
    assert!(matches!(
        fault(ActivationConfig { leak_rate: f(1.5), ..cfg() }),
        ConfigError::LeakRate(_)
    ));
    assert!(matches!(
        fault(ActivationConfig { max_queue_latency_ms: 1, refractory_period_ms: 2, ..cfg() }),
        ConfigError::MaxQueueLatency(1, 2)
    ));
}

#[test]
fn the_smooth_function_fires_by_its_probability() {
    // At the threshold the probability is one half.
    let config = ActivationConfig { activation_function: ActivationFunction::Sigmoid, ..cfg() };
    let fires = |draw: f32| {
        let mut st = ActivationState::new(&config);
        offer(&mut st, sig(1, 0.5), 1.0, 0, &mut FixedRng::from_f32s(&[f(draw)])).did_fire()
    };
    assert!(fires(0.49));
    assert!(!fires(0.51));
}

#[test]
fn draining_waits_for_the_guard() {
    let mut st = ActivationState::new(&ActivationConfig {
        base_threshold: f(1_000.0),
        max_potential: f(2_000.0),
        max_queue_latency_ms: 100,
        ..cfg()
    });
    let mut rng = SplitMix64::seeded(50);
    offer(&mut st, sig(1, 0.5), 1.0, 0, &mut rng);
    assert!(st.drain_if_starving(99 * MS).is_empty());
    assert_eq!(st.drain_if_starving(100 * MS).len(), 1);
    assert_eq!(st.fire_count(), 1);
    assert_eq!(st.dropped_count(), 0);
}
