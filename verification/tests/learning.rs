use ntl::config::ConfigError;
use ntl::curves::Curves;
use ntl::learning::{
    apply_affinity_update, apply_reward, apply_signature_penalty, decay_by, decayed_weight,
    normalize_outbound, pick_weighted, sample_paths, time_to_decay_to, DeploymentClass,
    ExplorationPolicy, LearningConfig, Selection, WeightUpdate,
};
use ntl::rng::{FixedRng, Rng, SplitMix64};
use ntl::scalar::Scalar;
use ntl::store::Outcome;
use ntl::time::{NANOS_PER_HOUR, NANOS_PER_SEC};

fn f(x: f32) -> Scalar {
    Scalar::from_bits(x.to_bits())
}

fn g(x: Scalar) -> f32 {
    f32::from_bits(x.to_bits())
}

#[derive(Debug, Clone, Copy)]
struct Host;

impl Curves for Host {
    fn exp(&self, x: Scalar) -> Scalar {
        f(g(x).exp())
    }

    fn exp2(&self, x: Scalar) -> Scalar {
        f(g(x).exp2())
    }

    fn log2(&self, x: Scalar) -> Scalar {
        f(g(x).log2())
    }

    fn ns_to_hours(&self, ns: u64) -> Scalar {
        f((ns as f64 / NANOS_PER_HOUR as f64) as f32)
    }

    fn hours_to_ns(&self, hours: Scalar) -> u64 {
        (f64::from(g(hours)) * NANOS_PER_HOUR as f64) as u64
    }
}

fn reward(w: f32, outcome: Outcome, signal: f32, used: f32, c: &LearningConfig) -> WeightUpdate {
    apply_reward(f(w), outcome, f(signal), f(used), c)
}

fn decayed(w: f32, from_ns: u64, now_ns: u64, c: &LearningConfig) -> f32 {
    g(decayed_weight(f(w), from_ns, now_ns, c, &Host))
}

fn time_to_decay(w: f32, target: f32, c: &LearningConfig) -> Option<u64> {
    time_to_decay_to(f(w), f(target), c, &Host)
}

fn normalize(weights: &mut Vec<f32>, c: &LearningConfig) -> Option<f32> {
    let mut list: Vec<Scalar> = weights.iter().map(|w| f(*w)).collect();
    let factor = normalize_outbound(&mut list, c);
    *weights = list.iter().map(|w| g(*w)).collect();
    factor.map(g)
}

fn sample<R: Rng>(
    scores: &[f32],
    k: usize,
    policy: ExplorationPolicy,
    c: &LearningConfig,
    rng: &mut R,
) -> Vec<Selection> {
    let list: Vec<Scalar> = scores.iter().map(|s| f(*s)).collect();
    sample_paths(&list, k, policy, c, rng, &Host)
}

fn cfg() -> LearningConfig {
    LearningConfig::for_class(DeploymentClass::Edge)
}

#[test]
fn class_defaults_are_ordered_sensibly() {
    let edge = LearningConfig::for_class(DeploymentClass::Edge);
    let full = LearningConfig::for_class(DeploymentClass::FullNode);
    let high = LearningConfig::for_class(DeploymentClass::HighTraffic);
    assert!(g(edge.learning_rate) > g(full.learning_rate));
    assert!(g(full.learning_rate) > g(high.learning_rate));
    assert!(g(edge.decay_half_life_hours) > g(high.decay_half_life_hours));
    assert!(g(edge.exploration_temperature) > g(high.exploration_temperature));
    assert!(g(edge.max_total_outbound_weight) < g(high.max_total_outbound_weight));
    assert!(g(edge.influence_cap_per_peer) > g(high.influence_cap_per_peer));
}

#[test]
fn learning_all_class_defaults_validate() {
    for class in [
        DeploymentClass::Edge,
        DeploymentClass::FullNode,
        DeploymentClass::HighTraffic,
    ] {
        LearningConfig::for_class(class)
            .validate()
            .unwrap_or_else(|e| panic!("{class:?} defaults invalid: {e:?}"));
    }
}

#[test]
fn validate_rejects_zero_temperature_floor() {
    let c = LearningConfig {
        min_temperature: f(0.0),
        ..cfg()
    };
    assert!(c.validate().unwrap_err().message().contains("min_temperature"));
}

#[test]
fn validate_rejects_budget_below_single_max() {
    let c = LearningConfig {
        max_total_outbound_weight: f(0.5),
        max_weight: f(1.0),
        ..cfg()
    };
    assert!(c.validate().is_err());
}

#[test]
fn temperature_never_falls_below_floor() {
    let c = LearningConfig {
        exploration_temperature: f(0.0),
        min_temperature: f(0.02),
        ..cfg()
    };
    assert!((g(c.effective_temperature()) - 0.02).abs() < f32::EPSILON);
}

#[test]
fn delivered_strengthens_and_timeout_weakens() {
    let c = cfg();
    let up = reward(0.5, Outcome::Delivered, 0.8, 0.0, &c);
    assert!(g(up.after) > 0.5);
    assert!((g(up.applied_delta) - 0.05 * 0.8).abs() < 1e-6);

    let down = reward(0.5, Outcome::TimedOut, 0.8, 0.0, &c);
    assert!(g(down.after) < 0.5);
}

#[test]
fn pending_never_moves_weight() {
    let up = reward(0.5, Outcome::Pending, 1.0, 0.0, &cfg());
    assert!(
        up.is_noop(),
        "an unresolved decision must not move weights in either direction"
    );
}

#[test]
fn rejection_penalised_harder_than_timeout() {
    let c = cfg();
    let t = reward(0.9, Outcome::TimedOut, 1.0, 0.0, &c);
    let r = reward(0.9, Outcome::Rejected, 1.0, 0.0, &c);
    assert!(
        g(r.after) < g(t.after),
        "definite rejection must cost more than ambiguous silence, \
         or the model becomes brittle on lossy links"
    );
}

#[test]
fn signature_failure_is_the_strongest_penalty() {
    let c = cfg();
    let outcomes = [
        Outcome::TimedOut,
        Outcome::Rejected,
        Outcome::TransportFailure,
    ];
    let sig = g(reward(0.9, Outcome::SignatureFailure, 1.0, 0.0, &c).after);
    for o in outcomes {
        assert!(sig <= g(reward(0.9, o, 1.0, 0.0, &c).after));
    }
}

#[test]
fn low_weight_signals_teach_less() {
    let c = cfg();
    let big = reward(0.5, Outcome::Delivered, 1.0, 0.0, &c);
    let small = reward(0.5, Outcome::Delivered, 0.01, 0.0, &c);
    assert!(
        g(big.applied_delta) > g(small.applied_delta) * 10.0,
        "flooding negligible signals must not buy influence cheaply"
    );
}

#[test]
fn weight_respects_bounds() {
    let c = cfg();
    let high = reward(g(c.max_weight), Outcome::Delivered, 1.0, 0.0, &c);
    assert!(g(high.after) <= g(c.max_weight));
    let low = reward(g(c.min_weight), Outcome::SignatureFailure, 1.0, 0.0, &c);
    assert!(g(low.after) >= g(c.min_weight));
}

#[test]
fn exhausted_budget_suppresses_positive_updates() {
    let c = cfg();
    let up = reward(0.5, Outcome::Delivered, 1.0, g(c.influence_cap_per_peer), &c);
    assert!(up.capped);
    assert!(
        up.is_noop(),
        "a peer past its cap must not gain more weight"
    );
}

#[test]
fn partial_budget_allows_only_the_headroom() {
    let c = cfg();
    let used = g(c.influence_cap_per_peer) - 0.01;
    let up = reward(0.5, Outcome::Delivered, 1.0, used, &c);
    assert!(up.capped);
    assert!((g(up.applied_delta) - 0.01).abs() < 1e-6);
}

#[test]
fn cap_is_asymmetric_negatives_always_apply() {
    let c = cfg();
    let up = reward(
        0.5,
        Outcome::Rejected,
        1.0,
        g(c.influence_cap_per_peer) * 10.0,
        &c,
    );
    assert!(
        g(up.after) < 0.5,
        "an attacker must not be able to spend their own budget to \
         become immune to penalties"
    );
    assert!(!up.capped);
}

#[test]
fn one_half_life_halves_the_weight() {
    let c = cfg();
    let t0 = 1_000 * NANOS_PER_HOUR;
    let half_life_ns = (g(c.decay_half_life_hours) as u64) * NANOS_PER_HOUR;
    let w = decayed(0.8, t0, t0 + half_life_ns, &c);
    assert!((w - 0.4).abs() < 0.01, "expected ~0.4, got {w}");
}

#[test]
fn two_half_lives_quarter_the_weight() {
    let c = cfg();
    let t0 = 0;
    let two = 2 * (g(c.decay_half_life_hours) as u64) * NANOS_PER_HOUR;
    let w = decayed(0.8, t0, two, &c);
    assert!((w - 0.2).abs() < 0.01, "expected ~0.2, got {w}");
}

#[test]
fn decay_is_path_independent() {
    let c = cfg();
    let step = 24 * NANOS_PER_HOUR;
    let one_shot = decayed(0.8, 0, 2 * step, &c);
    let two_step = decayed(decayed(0.8, 0, step, &c), step, 2 * step, &c);
    assert!(
        (one_shot - two_step).abs() < 1e-5,
        "decay must not depend on how often the sweep runs: {one_shot} vs {two_step}"
    );
}

#[test]
fn decay_never_goes_below_min_weight() {
    let c = cfg();
    let w = decayed(0.8, 0, 10_000 * NANOS_PER_HOUR, &c);
    assert!(w >= g(c.min_weight));
}

#[test]
fn decay_ignores_clock_going_backwards() {
    let c = cfg();
    assert!((decayed(0.8, 5_000, 1_000, &c) - 0.8).abs() < f32::EPSILON);
}

#[test]
fn time_to_decay_matches_decay() {
    let c = cfg();
    let ns = time_to_decay(0.8, 0.1, &c).unwrap();
    let w = decayed(0.8, 0, ns, &c);
    assert!((w - 0.1).abs() < 0.01, "expected ~0.1, got {w}");
    assert_eq!(time_to_decay(0.1, 0.8, &c), None);
}

#[test]
fn normalisation_is_a_noop_under_budget() {
    let c = cfg();
    let mut w = vec![0.1, 0.2, 0.3];
    assert_eq!(normalize(&mut w, &c), None);
    assert_eq!(w, vec![0.1, 0.2, 0.3]);
}

#[test]
fn normalisation_caps_the_total() {
    let c = cfg();
    let mut w = vec![1.0; 20]; // total 20 > budget 8
    let factor = normalize(&mut w, &c).expect("should rescale");
    assert!((factor - 8.0 / 20.0).abs() < 1e-6);
    let total: f32 = w.iter().sum();
    assert!(
        (total - g(c.max_total_outbound_weight)).abs() < 0.01,
        "total should be at budget, got {total}"
    );
}

#[test]
fn normalisation_preserves_relative_order() {
    let c = cfg();
    let mut w = vec![4.0, 2.0, 1.0, 8.0];
    normalize(&mut w, &c).expect("should rescale");
    assert!(w[3] > w[0] && w[0] > w[1] && w[1] > w[2]);
}

#[test]
fn normalisation_raises_no_weight_but_to_the_floor() {
    let c = cfg();
    let mut w = vec![8.0, 0.001, 4.0, 0.0005];
    let before = w.clone();
    let factor = normalize(&mut w, &c).expect("should rescale");
    assert!(factor < 1.0);
    let floor = g(c.min_weight);
    for (now, then) in w.iter().zip(before.iter()) {
        assert!(*now <= then.max(floor));
        assert!(*now >= floor);
    }
    let total: f64 = w.iter().map(|v| f64::from(*v)).sum();
    assert!(total <= f64::from(g(c.max_total_outbound_weight)) + 1e-5);
}

fn bounded(min: f32, max: f32, budget: f32) -> LearningConfig {
    let c = LearningConfig {
        min_weight: f(min),
        max_weight: f(max),
        max_total_outbound_weight: f(budget),
        ..cfg()
    };
    c.validate().expect("valid bounds");
    c
}

#[test]
fn normalisation_shares_what_the_floors_leave() {
    let c = bounded(0.5, 2.0, 3.0);
    let mut w = vec![2.0, 1.0, 0.5];
    assert_eq!(normalize(&mut w, &c), Some(3.0 / 3.5));
    assert_eq!(w, vec![1.625, 0.875, 0.5]);
}

#[test]
fn normalisation_stops_at_the_floors() {
    // The floors alone are the budget.
    let c = bounded(0.5, 1.0, 1.5);
    let mut w = vec![1.0, 0.5, 0.5];
    assert_eq!(normalize(&mut w, &c), Some(0.75));
    assert_eq!(w, vec![0.5, 0.5, 0.5]);
    // The floors alone exceed it.
    let mut w = vec![1.0, 0.75, 0.5, 0.5];
    assert!(normalize(&mut w, &c).is_some());
    assert_eq!(w, vec![0.5; 4]);
}

#[test]
fn a_normalised_total_exceeds_the_budget_by_rounding_alone() {
    let c = bounded(0.01, 1.0, 8.0);
    for n in [9usize, 33, 500, 800] {
        for spread in [0.13f32, 0.0001] {
            let mut w: Vec<f32> =
                (0..n).map(|k| (0.02 + (k % 7) as f32 * spread).min(1.0)).collect();
            w[0] = 1.0;
            normalize(&mut w, &c);
            let total: f64 = w.iter().map(|v| f64::from(*v)).sum();
            assert!(total * (16777216.0 - n as f64 - 5.0) <= 16777216.0 * 8.0, "{n}: {total}");
        }
    }
}

#[test]
fn saturation_is_prevented_over_many_updates() {
    let c = LearningConfig {
        influence_cap_per_peer: f(f32::MAX), // isolate normalisation
        ..cfg()
    };
    let mut weights = vec![0.4_f32; 20];
    for _ in 0..500 {
        for w in &mut weights {
            *w = g(reward(*w, Outcome::Delivered, 1.0, 0.0, &c).after);
        }
        normalize(&mut weights, &c);
    }
    let total: f32 = weights.iter().sum();
    assert!(
        total <= g(c.max_total_outbound_weight) + 0.01,
        "total weight must stay bounded, got {total}"
    );
    assert!(
        weights.iter().all(|&w| w < g(c.max_weight)),
        "no synapse should saturate at max_weight"
    );
}

#[test]
fn sampling_returns_at_most_k_distinct_indices() {
    let mut rng = SplitMix64::seeded(1);
    let scores = vec![0.9, 0.7, 0.5, 0.3, 0.1];
    let picks = sample(&scores, 3, ExplorationPolicy::Softmax, &cfg(), &mut rng);
    assert_eq!(picks.len(), 3);
    let mut idx: Vec<usize> = picks.iter().map(|s| s.index).collect();
    idx.sort_unstable();
    idx.dedup();
    assert_eq!(idx.len(), 3, "sampling must be without replacement");
}

#[test]
fn sampling_handles_degenerate_inputs() {
    let mut rng = SplitMix64::seeded(2);
    let c = cfg();
    assert!(sample(&[], 3, ExplorationPolicy::Softmax, &c, &mut rng).is_empty());
    assert!(sample(&[0.5], 0, ExplorationPolicy::Softmax, &c, &mut rng).is_empty());
    let picks = sample(&[0.5, 0.4], 10, ExplorationPolicy::Softmax, &c, &mut rng);
    assert_eq!(picks.len(), 2);
}

#[test]
fn softmax_favours_high_scores_but_still_probes_low_ones() {
    let mut rng = SplitMix64::seeded(4);
    let c = cfg();
    let scores = vec![0.62, 0.55, 0.11];
    let mut counts = [0u32; 3];
    for _ in 0..10_000 {
        for pick in sample(&scores, 1, ExplorationPolicy::Softmax, &c, &mut rng) {
            counts[pick.index] += 1;
        }
    }
    assert!(counts[0] > counts[1], "the best path must dominate");
    assert!(counts[1] > counts[2]);
    assert!(
        counts[2] > 0,
        "the weakest path must still be probed sometimes — this is what \
         prevents ossified routing"
    );
}

#[test]
fn low_temperature_approaches_greedy() {
    let c = LearningConfig {
        exploration_temperature: f(0.001),
        min_temperature: f(0.0005),
        ..cfg()
    };
    let mut rng = SplitMix64::seeded(5);
    let scores = vec![0.9, 0.5, 0.1];
    let mut best = 0;
    for _ in 0..500 {
        if sample(&scores, 1, ExplorationPolicy::Softmax, &c, &mut rng)[0].index == 0 {
            best += 1;
        }
    }
    assert!(
        best > 480,
        "low temperature should be near-greedy, got {best}/500"
    );
}

#[test]
fn high_temperature_approaches_uniform() {
    let c = LearningConfig {
        exploration_temperature: f(100.0),
        ..cfg()
    };
    let mut rng = SplitMix64::seeded(6);
    let scores = vec![0.9, 0.5, 0.1];
    let mut counts = [0u32; 3];
    for _ in 0..9_000 {
        counts[sample(&scores, 1, ExplorationPolicy::Softmax, &c, &mut rng)[0].index] +=
            1;
    }
    for (i, &c) in counts.iter().enumerate() {
        assert!(
            (2_400..3_600).contains(&c),
            "index {i} drawn {c} times; high temperature should be ~uniform"
        );
    }
}

#[test]
fn extreme_score_ratio_does_not_produce_nan() {
    let c = LearningConfig {
        exploration_temperature: f(0.001),
        min_temperature: f(0.0001),
        ..cfg()
    };
    let mut rng = SplitMix64::seeded(8);
    let scores = vec![1000.0, 0.0, -1000.0];
    let picks = sample(&scores, 2, ExplorationPolicy::Softmax, &c, &mut rng);
    assert_eq!(picks.len(), 2);
    assert!(picks.iter().all(|p| p.score.is_finite()));
}

#[test]
fn best_score_pick_is_not_marked_explored() {
    let mut rng = FixedRng::from_f32s(&[f(0.0)]);
    let picks = sample(&[0.9, 0.1], 1, ExplorationPolicy::Softmax, &cfg(), &mut rng);
    assert_eq!(picks[0].index, 0);
    assert!(
        !picks[0].explored,
        "selecting the top-scoring path is exploitation, not exploration"
    );
}

#[test]
fn non_best_pick_is_marked_explored() {
    let mut rng = SplitMix64::seeded(12);
    let scores = vec![0.9, 0.5, 0.1];
    let mut saw_explored = false;
    for _ in 0..2_000 {
        for p in sample(&scores, 1, ExplorationPolicy::Softmax, &cfg(), &mut rng) {
            if p.index != 0 {
                assert!(p.explored, "a non-best pick must be flagged as exploration");
                saw_explored = true;
            }
        }
    }
    assert!(saw_explored, "expected at least one exploratory pick");
}

#[test]
fn learning_results_are_ordered_by_score_descending() {
    let mut rng = SplitMix64::seeded(13);
    let scores = vec![0.1, 0.9, 0.5, 0.7];
    for _ in 0..200 {
        let picks = sample(&scores, 3, ExplorationPolicy::Softmax, &cfg(), &mut rng);
        for w in picks.windows(2) {
            assert!(g(w[0].score) >= g(w[1].score));
        }
    }
}

#[test]
fn epsilon_greedy_takes_top_k_when_not_exploring() {
    let mut rng = SplitMix64::seeded(14);
    let scores = vec![0.1, 0.9, 0.5, 0.7];
    let picks = sample(
        &scores,
        2,
        ExplorationPolicy::EpsilonGreedy { epsilon: f(0.0) },
        &cfg(),
        &mut rng,
    );
    let idx: Vec<usize> = picks.iter().map(|s| s.index).collect();
    assert_eq!(idx, vec![1, 3], "should take the two best");
    assert!(picks.iter().all(|p| !p.explored));
}

#[test]
fn epsilon_greedy_explores_when_it_should() {
    let mut rng = SplitMix64::seeded(15);
    let scores = vec![0.1, 0.9, 0.5, 0.7];
    let picks = sample(
        &scores,
        2,
        ExplorationPolicy::EpsilonGreedy { epsilon: f(1.0) },
        &cfg(),
        &mut rng,
    );
    assert_eq!(picks.len(), 2);
    assert_eq!(
        picks.iter().filter(|p| p.explored).count(),
        1,
        "exactly one slot should be exploratory"
    );
}

#[test]
fn ossification_is_prevented_over_a_long_run() {
    let c = cfg();
    let mut rng = SplitMix64::seeded(21);
    let mut weights = [0.9_f32, 0.05_f32];

    for _ in 0..400 {
        let picks = sample(&weights, 1, ExplorationPolicy::Softmax, &c, &mut rng);
        let i = picks[0].index;
        let outcome = if i == 0 {
            Outcome::Rejected
        } else {
            Outcome::Delivered
        };
        weights[i] = g(reward(weights[i], outcome, 1.0, 0.0, &c).after);
    }

    assert!(
        weights[1] > weights[0],
        "the delivering path must overtake the failing one: {weights:?} — \
         if it cannot, routing has ossified"
    );
}

#[test]
fn receipt_deadline_and_influence_window_are_in_the_past() {
    let c = cfg();
    let now = 10_000 * NANOS_PER_SEC;
    assert!(c.receipt_deadline(now) < now);
    assert!(c.influence_window_start(now) < now);
    assert_eq!(c.receipt_deadline(5), 0);
}

#[test]
fn every_fault_of_a_learning_configuration_is_named() {
    let fault = |c: LearningConfig| c.validate().expect_err("must be refused");
    assert!(matches!(
        fault(LearningConfig { learning_rate: f(0.0), ..cfg() }),
        ConfigError::LearningRate(_)
    ));
    assert!(matches!(
        fault(LearningConfig { learning_rate: f(1.5), ..cfg() }),
        ConfigError::LearningRate(_)
    ));
    assert!(matches!(
        fault(LearningConfig { decay_half_life_hours: f(0.0), ..cfg() }),
        ConfigError::DecayHalfLife(_)
    ));
    assert!(matches!(
        fault(LearningConfig { min_weight: f(0.0), ..cfg() }),
        ConfigError::WeightBounds(_, _)
    ));
    assert!(matches!(
        fault(LearningConfig { max_weight: f(0.0005), ..cfg() }),
        ConfigError::WeightBounds(_, _)
    ));
    assert!(matches!(
        fault(LearningConfig { max_total_outbound_weight: f(1.0), ..cfg() }),
        ConfigError::OutboundBudget(_, _)
    ));
    assert!(matches!(
        fault(LearningConfig { influence_cap_per_peer: f(0.0), ..cfg() }),
        ConfigError::InfluenceCap
    ));
    assert!(matches!(
        fault(LearningConfig { signature_failure_penalty: f(0.0), ..cfg() }),
        ConfigError::SignaturePenalty(_)
    ));
}

#[test]
fn a_penalty_takes_its_fraction_down_to_the_bound() {
    let c = cfg();
    assert_eq!(g(apply_signature_penalty(f(0.8), &c)), 0.4);
    assert_eq!(apply_signature_penalty(c.min_weight, &c), c.min_weight);
}

#[test]
fn affinity_stays_in_the_unit_interval() {
    let c = cfg();
    assert_eq!(g(apply_affinity_update(f(1.0), Outcome::Delivered, &c)), 1.0);
    assert_eq!(g(apply_affinity_update(f(0.0), Outcome::Rejected, &c)), 0.0);
    assert_eq!(
        g(apply_affinity_update(f(0.5), Outcome::Delivered, &c)),
        0.5 + 0.05f32 * 1.0
    );
}

#[test]
fn a_fraction_is_left_of_a_decayed_weight() {
    let c = cfg();
    assert_eq!(g(decay_by(f(0.8), f(0.25), &c)), 0.8 * 0.25);
    assert_eq!(decay_by(f(0.8), f(0.0), &c), c.min_weight);
}

#[test]
fn a_weighted_pick_goes_by_the_share_of_the_total() {
    let weights = vec![f(1.0), f(2.0), f(1.0)];
    let pick = |u: f32| pick_weighted(&weights, &mut FixedRng::from_f32s(&[f(u)]));
    assert_eq!(pick(0.0), 0);
    assert_eq!(pick(0.25), 0);
    assert_eq!(pick(0.26), 1);
    assert_eq!(pick(0.75), 1);
    assert_eq!(pick(0.76), 2);
    // Weights without a total give every slot the same chance.
    let none = vec![f(0.0), f(0.0)];
    assert_eq!(pick_weighted(&none, &mut FixedRng::new(vec![u64::MAX])), 1);
}
