use ntl::config::ConfigError;
use ntl::curves::Curves;
use ntl::delivery::{RejectReason, RetryPolicy};
use ntl::learning::{ExplorationPolicy, LearningConfig};
use ntl::propagation::{
    check_propagable, clamp_inbound_headers, flood_depth_reached, score_synapse, select_synapses,
    Chosen, PropagationConfig, PropagationScope, ScoringWeights,
};
use ntl::rng::SplitMix64;
use ntl::scalar::Scalar;
use ntl::signal::{NodeId, Signal};
use ntl::synapse::{Synapse, SynapseConfig, SynapseId, SynapseState};
use ntl::time::NANOS_PER_HOUR;

fn f(x: f32) -> Scalar {
    Scalar::from_bits(x.to_bits())
}

fn g(x: Scalar) -> f32 {
    f32::from_bits(x.to_bits())
}

#[derive(Debug, Clone, Copy)]
struct Host;

impl Curves for Host {
    fn exp(&self, x: Scalar) -> Scalar {
        f(g(x).exp())
    }

    fn exp2(&self, x: Scalar) -> Scalar {
        f(g(x).exp2())
    }

    fn log2(&self, x: Scalar) -> Scalar {
        f(g(x).log2())
    }

    fn ns_to_hours(&self, ns: u64) -> Scalar {
        f((ns as f64 / NANOS_PER_HOUR as f64) as f32)
    }

    fn hours_to_ns(&self, hours: Scalar) -> u64 {
        (f64::from(g(hours)) * NANOS_PER_HOUR as f64) as u64
    }
}

fn score(synapse: &Synapse, signal_type: &str, now_ns: u64, weights: &ScoringWeights) -> f32 {
    g(score_synapse(synapse, signal_type, now_ns, weights))
}

const NOW: u64 = 1_700_000_000 * 1_000_000_000;

fn make_synapse(id: &str, weight: f32, remote: u8) -> Synapse {
    let local = NodeId(vec![0u8; 32]);
    let mut rng = SplitMix64::seeded(u64::from(remote));
    let mut s = Synapse::new_with(
        local,
        NodeId(vec![remote; 32]),
        &SynapseConfig::default(),
        NOW,
        &mut rng,
    );
    s.id = SynapseId(id.to_string());
    s.weight = f(weight);
    s.state = SynapseState::Active;
    s.last_active_ns = NOW;
    s
}

fn select<'a>(
    synapses: &'a Vec<Synapse>,
    scope: &PropagationScope,
    arrival: Option<&str>,
    config: &PropagationConfig,
    seed: u64,
) -> Vec<Chosen<'a>> {
    let mut rng = SplitMix64::seeded(seed);
    select_synapses(
        synapses,
        scope,
        "data",
        arrival,
        config,
        &LearningConfig::default(),
        NOW,
        &mut rng,
        &Host,
    )
}

#[test]
fn flood_max_hops_bounds_forwarding_not_acceptance() {
    let config = PropagationConfig::default();
    let local = NodeId(vec![0u8; 32]);

    let mut signal = Signal::data("flood")
        .with_weight(f(0.9))
        .with_scope(PropagationScope::Flood { max_hops: 2 })
        .build_unsigned(NodeId(vec![7u8; 32]));
    assert!(check_propagable(&signal, &local, &config).is_ok());
    assert!(!flood_depth_reached(&signal));
    signal.trace.push(NodeId(vec![1u8; 32]));
    assert!(check_propagable(&signal, &local, &config).is_ok());
    assert!(!flood_depth_reached(&signal));
    signal.trace.push(NodeId(vec![2u8; 32]));
    assert!(
        check_propagable(&signal, &local, &config).is_ok(),
        "reaching max_hops must not make the signal unacceptable"
    );
    assert!(
        flood_depth_reached(&signal),
        "a flood must stop forwarding at max_hops even with TTL to spare"
    );
    assert!(signal.ttl > 0, "the point is that TTL was not the bound");
    let mut weighted = Signal::data("weighted")
        .with_weight(f(0.9))
        .build_unsigned(NodeId(vec![7u8; 32]));
    weighted.trace = vec![NodeId(vec![1u8; 32]), NodeId(vec![2u8; 32])];
    assert!(check_propagable(&weighted, &local, &config).is_ok());
    assert!(!flood_depth_reached(&weighted));
}

#[test]
fn default_scoring_weights_are_normalized() {
    assert!(
        ScoringWeights::default().is_normalized(),
        "factors must sum to 1, or the exploration temperature changes meaning"
    );
}

#[test]
fn higher_weight_scores_higher() {
    let w = ScoringWeights::default();
    let strong = make_synapse("strong", 0.9, 1);
    let weak = make_synapse("weak", 0.1, 2);
    assert!(score(&strong, "data", NOW, &w) > score(&weak, "data", NOW, &w));
}

#[test]
fn type_affinity_raises_the_score() {
    let w = ScoringWeights::default();
    let plain = make_synapse("plain", 0.5, 1);
    let mut affine = make_synapse("affine", 0.5, 2);
    affine.type_affinity.insert("data", 10);
    assert!(
        score(&affine, "data", NOW, &w) > score(&plain, "data", NOW, &w),
        "a synapse with history for this type should be preferred"
    );
}

#[test]
fn staleness_lowers_the_score() {
    let w = ScoringWeights::default();
    let fresh = make_synapse("fresh", 0.5, 1);
    let mut stale = make_synapse("stale", 0.5, 2);
    stale.last_active_ns = NOW - 100 * NANOS_PER_HOUR;
    assert!(score(&fresh, "data", NOW, &w) > score(&stale, "data", NOW, &w));
}

#[test]
fn weighted_selection_respects_fanout() {
    let synapses: Vec<Synapse> = (0..10)
        .map(|i| make_synapse(&format!("syn-{i:03}"), 0.5, i + 1))
        .collect();
    let config = PropagationConfig {
        max_fanout: 3,
        ..Default::default()
    };
    let picked = select(&synapses, &PropagationScope::default(), None, &config, 1);
    assert_eq!(picked.len(), 3);
}

#[test]
fn selection_excludes_the_arrival_synapse() {
    let synapses = vec![
        make_synapse("arrival", 0.9, 1),
        make_synapse("other-1", 0.5, 2),
        make_synapse("other-2", 0.3, 3),
    ];
    let config = PropagationConfig::default();
    for seed in 0..50 {
        let picked = select(
            &synapses,
            &PropagationScope::default(),
            Some("arrival"),
            &config,
            seed,
        );
        assert!(
            picked.iter().all(|c| c.synapse.id.0 != "arrival"),
            "a signal must never be sent back the way it came"
        );
    }
}

#[test]
fn selection_excludes_inactive_synapses() {
    let mut dormant = make_synapse("dormant", 0.9, 1);
    dormant.state = SynapseState::Dormant;
    let synapses = vec![dormant, make_synapse("active", 0.2, 2)];
    let picked = select(
        &synapses,
        &PropagationScope::default(),
        None,
        &PropagationConfig::default(),
        2,
    );
    assert!(picked.iter().all(|c| c.synapse.id.0 == "active"));
}

#[test]
fn weighted_scope_applies_its_weight_floor() {
    let synapses = vec![
        make_synapse("heavy", 0.9, 1),
        make_synapse("light", 0.05, 2),
    ];
    let scope = PropagationScope::Weighted {
        min_synapse_weight: f(0.5),
    };
    for seed in 0..30 {
        let picked = select(&synapses, &scope, None, &PropagationConfig::default(), seed);
        assert!(
            picked.iter().all(|c| g(c.synapse.weight) >= 0.5),
            "exploration widens the choice among eligible paths; it does \
             not override eligibility"
        );
    }
}

#[test]
fn empty_topology_selects_nothing() {
    assert!(
        select(
            &Vec::new(),
            &PropagationScope::default(),
            None,
            &PropagationConfig::default(),
            1
        )
        .is_empty()
    );
}

#[test]
fn selection_is_stochastic_not_greedy() {
    let synapses = vec![
        make_synapse("best", 0.9, 1),
        make_synapse("mid", 0.5, 2),
        make_synapse("worst", 0.05, 3),
    ];
    let config = PropagationConfig {
        max_fanout: 1,
        ..Default::default()
    };
    let mut rng = SplitMix64::seeded(7);
    let mut picked_worst = 0;
    for _ in 0..3_000 {
        let picked = select_synapses(
            &synapses,
            &PropagationScope::Weighted {
                min_synapse_weight: f(0.0),
            },
            "data",
            None,
            &config,
            &LearningConfig::default(),
            NOW,
            &mut rng,
            &Host,
        );
        if picked[0].synapse.id.0 == "worst" {
            picked_worst += 1;
        }
    }
    assert!(
        picked_worst > 0,
        "greedy selection would starve the weak path forever, and its \
         weight would only decay — this is ossification"
    );
}

#[test]
fn best_synapse_still_dominates() {
    let synapses = vec![make_synapse("best", 0.9, 1), make_synapse("worst", 0.05, 2)];
    let config = PropagationConfig {
        max_fanout: 1,
        ..Default::default()
    };
    let mut rng = SplitMix64::seeded(8);
    let mut best = 0;
    for _ in 0..1_000 {
        let picked = select_synapses(
            &synapses,
            &PropagationScope::default(),
            "data",
            None,
            &config,
            &LearningConfig::default(),
            NOW,
            &mut rng,
            &Host,
        );
        if picked[0].synapse.id.0 == "best" {
            best += 1;
        }
    }
    assert!(
        best > 500,
        "exploration must not swamp exploitation; got {best}/1000"
    );
}

#[test]
fn epsilon_greedy_is_supported() {
    let synapses: Vec<Synapse> = (0..5)
        .map(|i| make_synapse(&format!("s{i}"), 0.1 * f32::from(i + 1), i + 1))
        .collect();
    let config = PropagationConfig {
        max_fanout: 2,
        exploration: ExplorationPolicy::EpsilonGreedy { epsilon: f(0.5) },
        ..Default::default()
    };
    let picked = select(&synapses, &PropagationScope::default(), None, &config, 9);
    assert_eq!(picked.len(), 2);
}

#[test]
fn propagation_results_are_ordered_by_score_descending() {
    let synapses: Vec<Synapse> = (0..6)
        .map(|i| make_synapse(&format!("s{i}"), 0.15 * f32::from(i + 1), i + 1))
        .collect();
    let config = PropagationConfig {
        max_fanout: 4,
        ..Default::default()
    };
    for seed in 0..20 {
        let picked = select(&synapses, &PropagationScope::default(), None, &config, seed);
        for w in picked.windows(2) {
            assert!(g(w[0].score) >= g(w[1].score));
        }
    }
}

#[test]
fn flood_selects_every_active_synapse() {
    let synapses: Vec<Synapse> = (0..7)
        .map(|i| make_synapse(&format!("s{i}"), 0.3, i + 1))
        .collect();
    let config = PropagationConfig {
        max_fanout: 2, // deliberately smaller than the topology
        ..Default::default()
    };
    let picked = select(
        &synapses,
        &PropagationScope::Flood { max_hops: 3 },
        None,
        &config,
        3,
    );
    assert_eq!(picked.len(), 7, "flood must ignore the fanout limit");
}

#[test]
fn targeted_prefers_a_direct_synapse_and_does_not_explore() {
    let synapses = vec![
        make_synapse("indirect-strong", 0.99, 1),
        make_synapse("direct", 0.05, 42),
    ];
    let scope = PropagationScope::Targeted {
        destination: NodeId(vec![42u8; 32]),
    };
    for seed in 0..50 {
        let picked = select(&synapses, &scope, None, &PropagationConfig::default(), seed);
        assert_eq!(picked.len(), 1);
        assert_eq!(
            picked[0].synapse.id.0, "direct",
            "a direct synapse is not a routing guess, even against a \
             much stronger indirect path"
        );
        assert!(
            !picked[0].explored,
            "there is no uncertainty to explore here"
        );
    }
}

#[test]
fn targeted_without_a_direct_synapse_picks_one_path() {
    let synapses = vec![make_synapse("a", 0.7, 1), make_synapse("b", 0.5, 2)];
    let scope = PropagationScope::Targeted {
        destination: NodeId(vec![99u8; 32]),
    };
    let picked = select(&synapses, &scope, None, &PropagationConfig::default(), 4);
    assert_eq!(
        picked.len(),
        1,
        "targeted routing commits to one best guess"
    );
}

#[test]
fn ttl_zero_blocks_propagation() {
    let me = NodeId(vec![1u8; 32]);
    let mut sig = Signal::data("t")
        .with_ttl(1)
        .build_unsigned(NodeId(vec![9u8; 32]));
    sig.ttl = 0;
    assert_eq!(
        check_propagable(&sig, &me, &PropagationConfig::default()),
        Err(RejectReason::TtlExhausted)
    );
}

#[test]
fn own_id_in_trace_blocks_propagation() {
    let me = NodeId(vec![1u8; 32]);
    let mut sig = Signal::data("t").build_unsigned(NodeId(vec![9u8; 32]));
    sig.hop(me.clone());
    assert_eq!(
        check_propagable(&sig, &me, &PropagationConfig::default()),
        Err(RejectReason::NoRoute),
        "loop prevention: a node must not forward a signal it already saw"
    );
}

#[test]
fn weight_below_floor_blocks_propagation() {
    let me = NodeId(vec![1u8; 32]);
    let mut sig = Signal::data("t").build_unsigned(NodeId(vec![9u8; 32]));
    sig.weight = f(0.001);
    assert_eq!(
        check_propagable(&sig, &me, &PropagationConfig::default()),
        Err(RejectReason::BelowThreshold)
    );
}

#[test]
fn healthy_signal_propagates() {
    let me = NodeId(vec![1u8; 32]);
    let sig = Signal::data("t")
        .with_weight(f(0.5))
        .build_unsigned(NodeId(vec![9u8; 32]));
    assert!(check_propagable(&sig, &me, &PropagationConfig::default()).is_ok());
}

#[test]
fn default_config_validates_against_default_retry_budget() {
    let retry = RetryPolicy::default();
    PropagationConfig::default()
        .validate(retry.required_dedup_secs())
        .expect("defaults must be self-consistent");
}

#[test]
fn dedup_window_shorter_than_retry_budget_is_rejected() {
    let c = PropagationConfig {
        dedup_cache_seconds: 10,
        ..Default::default()
    };
    let err = c.validate(300).unwrap_err().message();
    assert!(
        err.contains("dedup_cache_seconds"),
        "a dedup window shorter than the retry budget silently breaks \
         idempotent handling: {err}"
    );
}

#[test]
fn zero_fanout_is_rejected() {
    let c = PropagationConfig {
        max_fanout: 0,
        ..Default::default()
    };
    assert!(c.validate(300).is_err());
}

#[test]
fn a_score_is_the_weighted_sum_of_its_parts() {
    let mut synapse = make_synapse("s", 0.5, 1);
    synapse.avg_latency_ns = 3_000_000;
    synapse.last_active_ns = NOW - NANOS_PER_HOUR;
    synapse.type_affinity.insert("data", 1);
    synapse.type_affinity.insert("query", 3);
    let expected = 0.5f32 * 0.4
        + (1.0 / (1.0 + 3_000_000f32 / 1_000_000.0)) * 0.2
        + (1f32 / 4f32) * 0.3
        + (1.0 / (1.0 + (NANOS_PER_HOUR as f32) / (3_600.0 * 1_000_000_000.0))) * 0.1;
    assert_eq!(score(&synapse, "data", NOW, &ScoringWeights::default()), expected);
}

#[test]
fn every_fault_of_a_propagation_configuration_is_named() {
    let fault = |c: PropagationConfig| c.validate(300).expect_err("must be refused");
    assert!(matches!(
        fault(PropagationConfig { max_fanout: 0, ..Default::default() }),
        ConfigError::MaxFanout
    ));
    assert!(matches!(
        fault(PropagationConfig { default_ttl: 0, ..Default::default() }),
        ConfigError::DefaultTtl
    ));
    assert!(matches!(
        fault(PropagationConfig { min_propagation_weight: f(1.0), ..Default::default() }),
        ConfigError::MinPropagationWeight(_)
    ));
    assert!(matches!(
        fault(PropagationConfig { attenuation_factor: f(-0.5), ..Default::default() }),
        ConfigError::AttenuationFactor(_)
    ));
    assert!(matches!(
        fault(PropagationConfig { dedup_cache_seconds: 299, ..Default::default() }),
        ConfigError::DedupWindow(299, 300)
    ));
}

#[test]
fn inbound_headers_are_brought_within_bounds() {
    let config = PropagationConfig::default();
    let mut signal = Signal::data("t").with_ttl(60_000).build_unsigned(NodeId(vec![9; 32]));
    signal.weight = f(7.0);
    let clamp = clamp_inbound_headers(&mut signal, &config);
    assert!(clamp.weight_clamped && clamp.ttl_clamped && clamp.any());
    assert_eq!(g(signal.weight), 1.0);
    assert_eq!(signal.ttl, config.default_ttl);
    let again = clamp_inbound_headers(&mut signal, &config);
    assert!(!again.any());
}
