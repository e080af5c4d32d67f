//! Propagation: how signals move through the synapse topology.

use vstd::prelude::*;

use crate::config::ConfigError;
use crate::curves::Curves;
use crate::delivery::RejectReason;
use crate::learning::{
    candidates, sample_paths, sampled, selects, ExplorationPolicy, LearningConfig, Selection,
};
use crate::order::{arranges, same_text, sort_stably, sorts};
use crate::rng::Rng;
use crate::scalar::{Scalar, ONE, ZERO};
use crate::signal::{NodeId, Signal, SignalModel};
use crate::store::{chars_of, SynapseRow};
use crate::synapse::{affinity_share, Synapse};

verus! {

/// The pattern of a million, the nanoseconds in a millisecond.
pub const NANOS_PER_MILLI: u32 = 0x4974_2400;

/// The pattern of the nanoseconds in an hour.
pub const HOUR: u32 = 0x5451_8C2E;

/// The pattern of a thousandth.
pub const TOLERANCE: u32 = 0x3A83_126F;

/// How a signal routes through the network.
#[derive(Debug, PartialEq)]
pub enum PropagationScope {
    /// Propagate to every synapse that can carry it. Use sparingly.
    Flood {
        /// How far the emitter lets its flood spread, apart from the hops that
        /// the signal has left. A flood ignores the fanout limit, so its depth
        /// is all that bounds it.
        max_hops: u16,
    },
    /// Propagate to the best-scoring synapses (the default).
    Weighted {
        /// Minimum synapse weight to consider.
        min_synapse_weight: Scalar,
    },
    /// Directed toward a specific node.
    Targeted {
        /// The target node.
        destination: NodeId,
    },
    /// Follow the gradient of type affinity.
    Gradient {
        /// Signal type to follow affinity for.
        signal_type: String,
    },
}

/// A scope as a value.
pub enum ScopeModel {
    /// Every synapse, up to a depth.
    Flood(u16),
    /// The best, from a weight up.
    Weighted(Scalar),
    /// Toward a node.
    Targeted(Seq<u8>),
    /// Along the affinity for a type.
    Gradient(Seq<char>),
}

impl View for PropagationScope {
    type V = ScopeModel;

    open spec fn view(&self) -> ScopeModel {
        match self {
            PropagationScope::Flood { max_hops } => ScopeModel::Flood(*max_hops),
            PropagationScope::Weighted { min_synapse_weight } => ScopeModel::Weighted(
                *min_synapse_weight,
            ),
            PropagationScope::Targeted { destination } => ScopeModel::Targeted(destination@),
            PropagationScope::Gradient { signal_type } => ScopeModel::Gradient(signal_type@),
        }
    }
}

impl Clone for PropagationScope {
    fn clone(&self) -> (r: Self)
        ensures
            r@ == self@,
    {
        match self {
            PropagationScope::Flood { max_hops } => PropagationScope::Flood { max_hops: *max_hops },
            PropagationScope::Weighted { min_synapse_weight } => PropagationScope::Weighted {
                min_synapse_weight: *min_synapse_weight,
            },
            PropagationScope::Targeted { destination } => PropagationScope::Targeted {
                destination: destination.clone(),
            },
            PropagationScope::Gradient { signal_type } => PropagationScope::Gradient {
                signal_type: signal_type.clone(),
            },
        }
    }
}

impl Default for PropagationScope {
    fn default() -> (r: Self)
        ensures
            r@ == ScopeModel::Weighted(Scalar::from_bits(ZERO)),
    {
        PropagationScope::Weighted { min_synapse_weight: Scalar::from_bits(ZERO) }
    }
}

/// Weights of the synapse scoring function.
#[derive(Clone, Copy, Debug, PartialEq, Eq, Structural)]
pub struct ScoringWeights {
    /// Share of the synapse weight.
    pub weight_factor: Scalar,
    /// Share of the latency.
    pub latency_factor: Scalar,
    /// Share of the type affinity.
    pub affinity_factor: Scalar,
    /// Share of the recency.
    pub recency_factor: Scalar,
}

impl ScoringWeights {
    /// The defaults: four, two, three and one tenths.
    pub open spec fn defaults() -> ScoringWeights {
        ScoringWeights {
            weight_factor: Scalar::from_bits(0x3ECC_CCCD),
            latency_factor: Scalar::from_bits(0x3E4C_CCCD),
            affinity_factor: Scalar::from_bits(0x3E99_999A),
            recency_factor: Scalar::from_bits(0x3DCC_CCCD),
        }
    }

    /// The sum of the factors.
    pub open spec fn total(self) -> Scalar {
        self.weight_factor.sum(self.latency_factor).sum(self.affinity_factor).sum(
            self.recency_factor,
        )
    }

    /// Sum of the factors, which should be one.
    pub fn sum(&self) -> (r: Scalar)
        ensures
            r == self.total(),
    {
        self.weight_factor.plus(self.latency_factor).plus(self.affinity_factor).plus(
            self.recency_factor,
        )
    }

    /// Whether the factors sum to one, within a thousandth.
    ///
    /// Factors that do not would rescale every score, which leaves the ranking
    /// as it is but changes what an exploration temperature means.
    pub fn is_normalized(&self) -> (r: bool)
        ensures
            r == self.total().difference(Scalar::from_bits(ONE)).absolute().below(
                Scalar::from_bits(TOLERANCE),
            ),
    {
        self.sum().minus(Scalar::from_bits(ONE)).abs().lt(Scalar::from_bits(TOLERANCE))
    }
}

impl Default for ScoringWeights {
    fn default() -> (r: Self)
        ensures
            r == ScoringWeights::defaults(),
    {
        ScoringWeights {
            weight_factor: Scalar::from_bits(0x3ECC_CCCD),
            latency_factor: Scalar::from_bits(0x3E4C_CCCD),
            affinity_factor: Scalar::from_bits(0x3E99_999A),
            recency_factor: Scalar::from_bits(0x3DCC_CCCD),
        }
    }
}

/// Configuration of the propagation engine.
#[derive(Debug)]
pub struct PropagationConfig {
    /// Default propagation strategy.
    pub default_strategy: PropagationScope,
    /// Default number of hops for signals.
    pub default_ttl: u16,
    /// Minimum signal weight to propagate.
    pub min_propagation_weight: Scalar,
    /// Default attenuation factor.
    pub attenuation_factor: Scalar,
    /// Maximum synapses to propagate to per hop.
    pub max_fanout: usize,
    /// Deduplication window in seconds. It must cover the longest retry budget
    /// on the network: within a shorter one a late retry is processed as a new
    /// signal.
    pub dedup_cache_seconds: u64,
    /// Scoring weights.
    pub scoring: ScoringWeights,
    /// How candidates are selected from their scores.
    pub exploration: ExplorationPolicy,
}

/// A propagation configuration as a value.
pub struct PropagationSetup {
    /// Default propagation strategy.
    pub default_strategy: ScopeModel,
    /// Default number of hops for signals.
    pub default_ttl: u16,
    /// Minimum signal weight to propagate.
    pub min_propagation_weight: Scalar,
    /// Default attenuation factor.
    pub attenuation_factor: Scalar,
    /// Maximum synapses to propagate to per hop.
    pub max_fanout: usize,
    /// Deduplication window in seconds.
    pub dedup_cache_seconds: u64,
    /// Scoring weights.
    pub scoring: ScoringWeights,
    /// How candidates are selected from their scores.
    pub exploration: ExplorationPolicy,
}

impl View for PropagationConfig {
    type V = PropagationSetup;

    open spec fn view(&self) -> PropagationSetup {
        PropagationSetup {
            default_strategy: self.default_strategy@,
            default_ttl: self.default_ttl,
            min_propagation_weight: self.min_propagation_weight,
            attenuation_factor: self.attenuation_factor,
            max_fanout: self.max_fanout,
            dedup_cache_seconds: self.dedup_cache_seconds,
            scoring: self.scoring,
            exploration: self.exploration,
        }
    }
}

impl Clone for PropagationConfig {
    fn clone(&self) -> (r: Self)
        ensures
            r@ == self@,
    {
        PropagationConfig {
            default_strategy: self.default_strategy.clone(),
            default_ttl: self.default_ttl,
            min_propagation_weight: self.min_propagation_weight,
            attenuation_factor: self.attenuation_factor,
            max_fanout: self.max_fanout,
            dedup_cache_seconds: self.dedup_cache_seconds,
            scoring: self.scoring,
            exploration: self.exploration,
        }
    }
}

impl PropagationSetup {
    /// The defaults.
    pub open spec fn defaults() -> PropagationSetup {
        PropagationSetup {
            default_strategy: ScopeModel::Weighted(Scalar::from_bits(ZERO)),
            default_ttl: 10,
            min_propagation_weight: Scalar::from_bits(0x3C23_D70A),
            attenuation_factor: Scalar::from_bits(0x3F66_6666),
            max_fanout: 5,
            dedup_cache_seconds: 300,
            scoring: ScoringWeights::defaults(),
            exploration: ExplorationPolicy::Softmax,
        }
    }

    /// The first field that is invalid, if one is.
    pub open spec fn fault(self, retry_deadline_secs: u64) -> Option<ConfigError> {
        let zero = Scalar::from_bits(ZERO);
        let one = Scalar::from_bits(ONE);
        if self.max_fanout == 0 {
            Some(ConfigError::MaxFanout)
        } else if self.default_ttl == 0 {
            Some(ConfigError::DefaultTtl)
        } else if !(zero.at_most(self.min_propagation_weight) && self.min_propagation_weight.below(
            one,
        )) {
            Some(ConfigError::MinPropagationWeight(self.min_propagation_weight))
        } else if !self.attenuation_factor.between(zero, one) {
            Some(ConfigError::AttenuationFactor(self.attenuation_factor))
        } else if self.dedup_cache_seconds < retry_deadline_secs {
            Some(ConfigError::DedupWindow(self.dedup_cache_seconds, retry_deadline_secs))
        } else {
            None
        }
    }
}

impl PropagationConfig {
    /// Validate the configuration against the senders' retry deadline.
    pub fn validate(&self, retry_deadline_secs: u64) -> (r: Result<(), ConfigError>)
        ensures
            r == (match self@.fault(retry_deadline_secs) {
                Some(e) => Err(e),
                None => Ok(()),
            }),
    {
        let zero = Scalar::from_bits(ZERO);
        let one = Scalar::from_bits(ONE);
        if self.max_fanout == 0 {
            return Err(ConfigError::MaxFanout);
        }
        if self.default_ttl == 0 {
            return Err(ConfigError::DefaultTtl);
        }
        if !(zero.le(self.min_propagation_weight) && self.min_propagation_weight.lt(one)) {
            return Err(ConfigError::MinPropagationWeight(self.min_propagation_weight));
        }
        if !self.attenuation_factor.within(zero, one) {
            return Err(ConfigError::AttenuationFactor(self.attenuation_factor));
        }
        if self.dedup_cache_seconds < retry_deadline_secs {
            return Err(ConfigError::DedupWindow(self.dedup_cache_seconds, retry_deadline_secs));
        }
        Ok(())
    }
}

impl Default for PropagationConfig {
    fn default() -> (r: Self)
        ensures
            r@ == PropagationSetup::defaults(),
    {
        PropagationConfig {
            default_strategy: PropagationScope::default(),
            default_ttl: 10,
            min_propagation_weight: Scalar::from_bits(0x3C23_D70A),
            attenuation_factor: Scalar::from_bits(0x3F66_6666),
            max_fanout: 5,
            dedup_cache_seconds: 300,
            scoring: ScoringWeights::default(),
            exploration: ExplorationPolicy::Softmax,
        }
    }
}

/// The score of a latency: one for none known, falling with the milliseconds.
pub open spec fn latency_score(avg_latency_ns: u64) -> Scalar {
    let one = Scalar::from_bits(ONE);
    if avg_latency_ns == 0 {
        one
    } else {
        one.quotient(
            one.sum(
                Scalar::natural(avg_latency_ns as int).quotient(Scalar::from_bits(NANOS_PER_MILLI)),
            ),
        )
    }
}

/// The score of recency, falling with the hours since the last activity.
pub open spec fn recency_score(now_ns: u64, last_active_ns: u64) -> Scalar {
    let one = Scalar::from_bits(ONE);
    let hours = if now_ns > last_active_ns {
        Scalar::natural(now_ns - last_active_ns).quotient(Scalar::from_bits(HOUR))
    } else {
        Scalar::from_bits(ZERO)
    };
    one.quotient(one.sum(hours))
}

/// The score of a synapse.
pub open spec fn score_of(
    row: SynapseRow,
    signal_type: Seq<char>,
    now_ns: u64,
    weights: ScoringWeights,
) -> Scalar {
    row.weight.product(weights.weight_factor).sum(
        latency_score(row.avg_latency_ns).product(weights.latency_factor),
    ).sum(affinity_share(row.type_affinity, signal_type).product(weights.affinity_factor)).sum(
        recency_score(now_ns, row.last_active_ns).product(weights.recency_factor),
    )
}

/// Score a synapse for signal propagation. Higher is better.
pub fn score_synapse(synapse: &Synapse, signal_type: &str, now_ns: u64, weights: &ScoringWeights) -> (r:
    Scalar)
    ensures
        r == score_of(synapse.row(), signal_type@, now_ns, *weights),
{
    let one = Scalar::from_bits(ONE);
    let latency = if synapse.avg_latency_ns == 0 {
        one
    } else {
        one.over(
            one.plus(
                Scalar::from_u64(synapse.avg_latency_ns).over(Scalar::from_bits(NANOS_PER_MILLI)),
            ),
        )
    };
    let affinity = synapse.affinity_for(signal_type);
    let hours = if now_ns > synapse.last_active_ns {
        Scalar::from_u64(now_ns - synapse.last_active_ns).over(Scalar::from_bits(HOUR))
    } else {
        Scalar::from_bits(ZERO)
    };
    let recency = one.over(one.plus(hours));
    synapse.weight.times(weights.weight_factor).plus(latency.times(weights.latency_factor)).plus(
        affinity.times(weights.affinity_factor),
    ).plus(recency.times(weights.recency_factor))
}

/// One synapse chosen to carry a signal.
#[derive(Clone, Copy, Debug)]
pub struct Chosen<'a> {
    /// The synapse.
    pub synapse: &'a Synapse,
    /// The score it was selected on.
    pub score: Scalar,
    /// Whether this came from exploration rather than exploitation.
    pub explored: bool,
}

/// Whether a synapse may carry a signal of a scope that arrived on `arrival`:
/// not back down the synapse it came from, only where the state allows it, and
/// for a weighted scope only from its floor up.
pub open spec fn may_carry(row: SynapseRow, scope: ScopeModel, arrival: Option<Seq<char>>) -> bool {
    &&& arrival is Some ==> row.id != arrival->0
    &&& row.state.carries()
    &&& scope matches ScopeModel::Weighted(floor) ==> floor.at_most(row.weight)
}

/// The synapses that may carry a signal, in their order.
pub open spec fn eligible(
    synapses: Seq<Synapse>,
    scope: ScopeModel,
    arrival: Option<Seq<char>>,
) -> Seq<Synapse> {
    synapses.filter(|s: Synapse| may_carry(s.row(), scope, arrival))
}

/// The scores of synapses.
pub open spec fn scores_of(
    synapses: Seq<Synapse>,
    signal_type: Seq<char>,
    now_ns: u64,
    weights: ScoringWeights,
) -> Seq<Scalar> {
    synapses.map_values(|s: Synapse| score_of(s.row(), signal_type, now_ns, weights))
}

/// Whether `i` is the first synapse that leads straight to a destination.
pub open spec fn leads_to(synapses: Seq<Synapse>, destination: Seq<u8>, i: int) -> bool {
    &&& 0 <= i < synapses.len()
    &&& synapses[i].remote_node@ == destination
    &&& forall|j: int| 0 <= j < i ==> (#[trigger] synapses[j]).remote_node@ != destination
}

/// Whether choices are the selected ones among synapses.
pub open spec fn chooses<'a>(
    among: Seq<Synapse>,
    selected: Seq<Selection>,
    choices: Seq<Chosen<'a>>,
) -> bool {
    &&& choices.len() == selected.len()
    &&& forall|i: int|
        0 <= i < choices.len() ==> *(#[trigger] choices[i]).synapse
            == among[selected[i].index as int] && choices[i].score == selected[i].score
            && choices[i].explored == selected[i].explored
}

/// How many synapses a scope goes to.
pub open spec fn fanout_of(scope: ScopeModel, max_fanout: usize) -> usize {
    match scope {
        ScopeModel::Targeted(_) => 1,
        _ => max_fanout,
    }
}

/// Whether a selection among scored synapses is what a scope asks for.
pub open spec fn routes<R: Rng, M: Curves>(
    curves: M,
    among: Seq<Synapse>,
    scores: Seq<Scalar>,
    scope: ScopeModel,
    max_fanout: usize,
    exploration: ExplorationPolicy,
    temperature: Scalar,
    before: R,
    after: R,
    selected: Seq<Selection>,
) -> bool {
    if among.len() == 0 {
        selected.len() == 0 && after == before
    } else if scope is Targeted && exists|i: int| leads_to(among, scope->Targeted_0, i) {
        after == before && selected.len() == 1 && leads_to(
            among,
            scope->Targeted_0,
            selected[0].index as int,
        ) && selected[0].score == scores[selected[0].index as int] && !selected[0].explored
    } else if scope is Flood {
        after == before && sorts(candidates(scores), selected)
    } else {
        sampled(
            curves,
            scores,
            fanout_of(scope, max_fanout),
            exploration,
            temperature,
            before,
            after,
            selected,
        )
    }
}

/// Turn selections into choices.
fn choices_of<'a>(among: &Vec<&'a Synapse>, selected: &Vec<Selection>, Ghost(list): Ghost<
    Seq<Synapse>,
>) -> (r: Vec<Chosen<'a>>)
    requires
        among@.len() == list.len(),
        forall|i: int| 0 <= i < list.len() ==> *(#[trigger] among@[i]) == list[i],
        forall|i: int| 0 <= i < selected@.len() ==> (#[trigger] selected@[i]).index < list.len(),
    ensures
        chooses(list, selected@, r@),
{
    let mut out: Vec<Chosen<'a>> = Vec::new();
    let mut i: usize = 0;
    while i < selected.len()
        invariant
            i <= selected@.len(),
            out@.len() == i,
            among@.len() == list.len(),
            forall|k: int| 0 <= k < list.len() ==> *(#[trigger] among@[k]) == list[k],
            forall|k: int|
                0 <= k < selected@.len() ==> (#[trigger] selected@[k]).index < list.len(),
            forall|k: int|
                0 <= k < i ==> *(#[trigger] out@[k]).synapse == list[selected@[k].index as int]
                    && out@[k].score == selected@[k].score && out@[k].explored
                    == selected@[k].explored,
        decreases selected@.len() - i,
    {
        let s = selected[i];
        out.push(Chosen { synapse: among[s.index], score: s.score, explored: s.explored });
        i = i + 1;
    }
    out
}

/// Select synapses to carry a signal, best score first.
///
/// Selection is stochastic. Always taking the best would ossify routing: a
/// synapse that is never chosen is never rewarded, so its weight only decays,
/// so it is never chosen. A synapse straight to the destination is taken
/// without exploring, for there is nothing uncertain about it. A flood takes
/// every synapse.
pub fn select_synapses<'a, R: Rng, M: Curves>(
    synapses: &'a Vec<Synapse>,
    scope: &PropagationScope,
    signal_type: &str,
    arrival_synapse: Option<&str>,
    config: &PropagationConfig,
    learning: &LearningConfig,
    now_ns: u64,
    rng: &mut R,
    curves: &M,
) -> (r: Vec<Chosen<'a>>)
    ensures
        ({
            let among = eligible(synapses@, scope@, chars_of(arrival_synapse));
            let scores = scores_of(among, signal_type@, now_ns, config.scoring);
            exists|selected: Seq<Selection>|
                #![trigger chooses(among, selected, r@)]
                chooses(among, selected, r@) && selects(scores, selected) && routes(
                    *curves,
                    among,
                    scores,
                    scope@,
                    config.max_fanout,
                    config.exploration,
                    learning.temperature(),
                    *old(rng),
                    *final(rng),
                    selected,
                )
        }),
{
    let ghost arrival = chars_of(arrival_synapse);
    let ghost among = eligible(synapses@, scope@, arrival);
    let ghost scored = scores_of(among, signal_type@, now_ns, config.scoring);
    let ghost keep = |s: Synapse| may_carry(s.row(), scope@, arrival);
    let mut open: Vec<&'a Synapse> = Vec::new();
    let mut n: usize = 0;
    proof {
        reveal(Seq::filter);
    }
    assert(synapses@.take(0).filter(keep) =~= Seq::<Synapse>::empty());
    while n < synapses.len()
        invariant
            n <= synapses@.len(),
            arrival == chars_of(arrival_synapse),
            keep == (|s: Synapse| may_carry(s.row(), scope@, arrival)),
            open@.len() == synapses@.take(n as int).filter(keep).len(),
            open@.len() <= n,
            forall|k: int|
                0 <= k < open@.len() ==> *(#[trigger] open@[k]) == synapses@.take(n as int).filter(
                    keep,
                )[k],
        decreases synapses@.len() - n,
    {
        proof {
            reveal(Seq::filter);
            assert(synapses@.take(n + 1).drop_last() =~= synapses@.take(n as int));
            assert(synapses@.take(n + 1).last() == synapses@[n as int]);
        }
        let s: &'a Synapse = &synapses[n];
        let elsewhere: bool = match arrival_synapse {
            Some(id) => !same_text(s.id.0.as_str(), id),
            None => true,
        };
        let heavy: bool = match scope {
            PropagationScope::Weighted { min_synapse_weight } => min_synapse_weight.le(s.weight),
            _ => true,
        };
        assert((elsewhere && s.state.carries() && heavy) == keep(*s));
        if elsewhere && s.state.can_carry() && heavy {
            open.push(s);
        }
        n = n + 1;
    }
    assert(synapses@.take(synapses@.len() as int) =~= synapses@);
    assert(open@.len() == among.len());
    if open.len() == 0 {
        let none: Vec<Chosen<'a>> = Vec::new();
        assert(chooses(among, Seq::<Selection>::empty(), none@));
        return none;
    }
    if let PropagationScope::Targeted { destination } = scope {
        let mut i: usize = 0;
        while i < open.len()
            invariant
                i <= open@.len(),
                open@.len() == among.len(),
                forall|k: int| 0 <= k < open@.len() ==> *(#[trigger] open@[k]) == among[k],
                forall|k: int|
                    0 <= k < i ==> (#[trigger] among[k]).remote_node@ != destination@,
                scope@ == ScopeModel::Targeted(destination@),
                scored == scores_of(among, signal_type@, now_ns, config.scoring),
                among == eligible(synapses@, scope@, chars_of(arrival_synapse)),
                *rng == *old(rng),
            decreases open@.len() - i,
        {
            let s: &'a Synapse = open[i];
            if s.remote_node.same(destination) {
                let score = score_synapse(s, signal_type, now_ns, &config.scoring);
                let mut out: Vec<Chosen<'a>> = Vec::new();
                out.push(Chosen { synapse: s, score, explored: false });
                proof {
                    let pick = Selection { index: i, score, explored: false };
                    let selected = seq![pick];
                    assert(leads_to(among, destination@, i as int));
                    assert(chooses(among, selected, out@));
                    assert(selected[0] == pick);
                    assert(*s == among[i as int]);
                    assert(score == scored[i as int]);
                    assert(selects(scored, selected));
                    assert(scope@ is Targeted && scope@->Targeted_0 == destination@);
                    assert(leads_to(among, scope@->Targeted_0, i as int));
                    assert(routes(
                        *curves,
                        among,
                        scored,
                        scope@,
                        config.max_fanout,
                        config.exploration,
                        learning.temperature(),
                        *old(rng),
                        *rng,
                        selected,
                    ));
                }
                return out;
            }
            i = i + 1;
        }
        assert(!exists|k: int| leads_to(among, destination@, k));
    }
    let mut scores: Vec<Scalar> = Vec::new();
    let mut i: usize = 0;
    while i < open.len()
        invariant
            i <= open@.len(),
            open@.len() == among.len(),
            forall|k: int| 0 <= k < open@.len() ==> *(#[trigger] open@[k]) == among[k],
            scores@.len() == i,
            scored == scores_of(among, signal_type@, now_ns, config.scoring),
            forall|k: int| 0 <= k < i ==> #[trigger] scores@[k] == scored[k],
        decreases open@.len() - i,
    {
        scores.push(score_synapse(open[i], signal_type, now_ns, &config.scoring));
        i = i + 1;
    }
    assert(scores@ =~= scored);
    let selected: Vec<Selection> = match scope {
        PropagationScope::Flood { .. } => {
            let mut all: Vec<Selection> = Vec::new();
            let mut j: usize = 0;
            while j < scores.len()
                invariant
                    j <= scores@.len(),
                    all@.len() == j,
                    forall|k: int| 0 <= k < j ==> #[trigger] all@[k] == candidates(scores@)[k],
                decreases scores@.len() - j,
            {
                all.push(Selection { index: j, score: scores[j], explored: false });
                j = j + 1;
            }
            assert(all@ =~= candidates(scored));
            sort_stably(&mut all);
            proof {
                lemma_flood_selects(scored, all@);
            }
            all
        },
        PropagationScope::Targeted { .. } => sample_paths(
            &scores,
            1,
            config.exploration,
            learning,
            rng,
            curves,
        ),
        _ => sample_paths(&scores, config.max_fanout, config.exploration, learning, rng, curves),
    };
    let out = choices_of(&open, &selected, Ghost(among));
    assert(chooses(among, selected@, out@));
    out
}

/// A flood's selection is of distinct candidates.
proof fn lemma_flood_selects(scores: Seq<Scalar>, selected: Seq<Selection>)
    requires
        scores.len() <= usize::MAX,
        sorts(candidates(scores), selected),
    ensures
        selects(scores, selected),
        selected.len() == scores.len(),
{
    let at = choose|at: Seq<int>| #[trigger] arranges(candidates(scores), selected, at);
    assert forall|i: int| 0 <= i < selected.len() implies (#[trigger] selected[i]).index
        < scores.len() && selected[i].score == scores[selected[i].index as int] by {
        assert(selected[i] == candidates(scores)[at[i]]);
    }
    assert forall|i: int, j: int| 0 <= i < j < selected.len() implies (#[trigger] selected[i]).index
        != (#[trigger] selected[j]).index by {
        assert(selected[i] == candidates(scores)[at[i]]);
        assert(selected[j] == candidates(scores)[at[j]]);
        assert(at[i] != at[j]);
    }
}

/// Whatever is chosen may carry the signal: it is not the synapse that the
/// signal came in on, its state allows it, and it meets a weighted scope's
/// floor. No synapse is chosen twice.
pub proof fn lemma_choices_may_carry<'a>(
    synapses: Seq<Synapse>,
    scope: ScopeModel,
    arrival: Option<Seq<char>>,
    scores: Seq<Scalar>,
    selected: Seq<Selection>,
    choices: Seq<Chosen<'a>>,
)
    requires
        scores.len() == eligible(synapses, scope, arrival).len(),
        selects(scores, selected),
        chooses(eligible(synapses, scope, arrival), selected, choices),
    ensures
        forall|i: int|
            0 <= i < choices.len() ==> may_carry((#[trigger] choices[i]).synapse.row(), scope, arrival)
                && synapses.contains(*choices[i].synapse),
        choices.len() <= scores.len(),
{
    let among = eligible(synapses, scope, arrival);
    let keep = |s: Synapse| may_carry(s.row(), scope, arrival);
    assert forall|i: int| 0 <= i < choices.len() implies may_carry(
        (#[trigger] choices[i]).synapse.row(),
        scope,
        arrival,
    ) && synapses.contains(*choices[i].synapse) by {
        let k = selected[i].index as int;
        assert(synapses.filter(keep).contains(among[k]));
        broadcast use vstd::seq_lib::group_filter_ensures;

        synapses.lemma_filter_contains_rev(keep, among[k]);
        assert(among[k] == synapses.filter(keep)[k]);
        assert(keep(among[k]));
    }
    let picked = selected.map_values(|s: Selection| s.index as int);
    assert(picked.no_duplicates()) by {
        assert forall|i: int, j: int|
            0 <= i < picked.len() && 0 <= j < picked.len() && i != j implies picked[i]
            != picked[j] by {
            if i < j {
                assert(selected[i].index != selected[j].index);
            } else {
                assert(selected[j].index != selected[i].index);
            }
        }
    }
    let range = vstd::set_lib::set_int_range(0, scores.len() as int);
    vstd::set_lib::lemma_int_range(0, scores.len() as int);
    picked.unique_seq_to_set();
    assert(picked.to_set().subset_of(range)) by {
        assert forall|x: int| picked.to_set().contains(x) implies range.contains(x) by {
            let i = choose|i: int| 0 <= i < picked.len() && picked[i] == x;
            assert(selected[i].index < scores.len());
        }
    }
    vstd::set_lib::lemma_len_subset(picked.to_set(), range);
}

/// Why a signal may not be propagated onward from a node, if it may not: it has
/// no hops left, it has been here before, or it is too light.
pub open spec fn obstacle(signal: SignalModel, local: Seq<u8>, floor: Scalar) -> Option<
    RejectReason,
> {
    if signal.ttl == 0 {
        Some(RejectReason::TtlExhausted)
    } else if signal.trace.contains(local) {
        Some(RejectReason::NoRoute)
    } else if signal.weight.below(floor) {
        Some(RejectReason::BelowThreshold)
    } else {
        None
    }
}

/// Whether a signal may be propagated onward, and why not if not.
pub fn check_propagable(signal: &Signal, local_node: &NodeId, config: &PropagationConfig) -> (r:
    Result<(), RejectReason>)
    ensures
        r == (match obstacle(signal@, local_node@, config.min_propagation_weight) {
            Some(reason) => Err(reason),
            None => Ok(()),
        }),
{
    if signal.ttl == 0 {
        return Err(RejectReason::TtlExhausted);
    }
    if signal.has_visited(local_node) {
        return Err(RejectReason::NoRoute);
    }
    if signal.weight.lt(config.min_propagation_weight) {
        return Err(RejectReason::BelowThreshold);
    }
    Ok(())
}

/// Whether a signal is a flood that has gone as deep as its emitter asked.
pub open spec fn flooded(signal: SignalModel) -> bool {
    signal.scope matches ScopeModel::Flood(max_hops) && signal.trace.len() >= max_hops
}

/// Whether a flood has reached the depth that its emitter asked for.
///
/// This bounds forwarding, not acceptance: the outermost ring of a flood still
/// takes the signal. The trace's length is the number of hops so far.
pub fn flood_depth_reached(signal: &Signal) -> (r: bool)
    ensures
        r == flooded(signal@),
{
    match &signal.scope {
        PropagationScope::Flood { max_hops } => signal.trace.len() >= *max_hops as usize,
        _ => false,
    }
}

/// Which headers of an inbound signal were brought within bounds.
#[derive(Clone, Copy, Debug, PartialEq, Eq, Structural)]
pub struct HeaderClamp {
    /// Whether the weight was.
    pub weight_clamped: bool,
    /// Whether the hops left were.
    pub ttl_clamped: bool,
}

impl HeaderClamp {
    /// Whether any header was.
    pub fn any(&self) -> (r: bool)
        ensures
            r == (self.weight_clamped || self.ttl_clamped),
    {
        self.weight_clamped || self.ttl_clamped
    }
}

/// A signal with its weight in the unit interval and no more hops left than
/// this node would have given it.
pub open spec fn bounded(signal: SignalModel, default_ttl: u16) -> SignalModel {
    SignalModel {
        weight: signal.weight.clamped(Scalar::from_bits(ZERO), Scalar::from_bits(ONE)),
        ttl: if signal.ttl > default_ttl {
            default_ttl
        } else {
            signal.ttl
        },
        ..signal
    }
}

/// Bring the headers of an inbound signal within this node's own bounds.
///
/// Weight and hops are outside the origin's signature, for propagation changes
/// them, so any node on the way can inflate them. Dropping the signal instead
/// would let any such node destroy traffic.
pub fn clamp_inbound_headers(signal: &mut Signal, config: &PropagationConfig) -> (r: HeaderClamp)
    ensures
        final(signal)@ == bounded(old(signal)@, config.default_ttl),
        r.weight_clamped == (final(signal)@.weight != old(signal)@.weight),
        r.ttl_clamped == (final(signal)@.ttl != old(signal)@.ttl),
        final(signal).ttl <= old(signal).ttl,
        final(signal).ttl <= config.default_ttl,
        old(signal).ttl <= config.default_ttl ==> final(signal).ttl == old(signal).ttl,
        old(signal).weight.between(Scalar::from_bits(ZERO), Scalar::from_bits(ONE))
            ==> final(signal).weight == old(signal).weight,
        !old(signal).weight.nan() ==> final(signal).weight.between(
            Scalar::from_bits(ZERO),
            Scalar::from_bits(ONE),
        ),
{
    let weight = signal.weight.clamp(Scalar::from_bits(ZERO), Scalar::from_bits(ONE));
    let weight_clamped: bool = weight != signal.weight;
    signal.weight = weight;
    let ttl_clamped: bool = signal.ttl > config.default_ttl;
    if ttl_clamped {
        signal.ttl = config.default_ttl;
    }
    HeaderClamp { weight_clamped, ttl_clamped }
}

/// A node's own identity in the trace stops a signal, so no signal circles.
pub proof fn lemma_a_visited_node_stops_a_signal(
    signal: SignalModel,
    local: Seq<u8>,
    floor: Scalar,
)
    requires
        signal.trace.len() < crate::signal::MAX_TRACE,
    ensures
        obstacle(signal.hopped(local), local, floor) is Some,
{
    assert(signal.hopped(local).trace.last() == local);
}

/// A flood goes to every synapse that may carry it, and to each once.
pub proof fn lemma_a_flood_goes_everywhere<R: Rng, M: Curves>(
    curves: M,
    among: Seq<Synapse>,
    scores: Seq<Scalar>,
    scope: ScopeModel,
    max_fanout: usize,
    exploration: ExplorationPolicy,
    temperature: Scalar,
    before: R,
    after: R,
    selected: Seq<Selection>,
)
    requires
        scope is Flood,
        scores.len() == among.len(),
        among.len() <= usize::MAX,
        routes(
            curves,
            among,
            scores,
            scope,
            max_fanout,
            exploration,
            temperature,
            before,
            after,
            selected,
        ),
    ensures
        selected.len() == among.len(),
        selects(scores, selected),
        after == before,
{
    if among.len() > 0 {
        lemma_flood_selects(scores, selected);
    }
}

/// A synapse straight to the destination is taken, alone and without exploring.
pub proof fn lemma_the_direct_path_is_taken<R: Rng, M: Curves>(
    curves: M,
    among: Seq<Synapse>,
    scores: Seq<Scalar>,
    destination: Seq<u8>,
    direct: int,
    max_fanout: usize,
    exploration: ExplorationPolicy,
    temperature: Scalar,
    before: R,
    after: R,
    selected: Seq<Selection>,
)
    requires
        leads_to(among, destination, direct),
        routes(
            curves,
            among,
            scores,
            ScopeModel::Targeted(destination),
            max_fanout,
            exploration,
            temperature,
            before,
            after,
            selected,
        ),
    ensures
        selected.len() == 1,
        selected[0].index == direct,
        !selected[0].explored,
        after == before,
{
    let scope = ScopeModel::Targeted(destination);
    assert(leads_to(among, scope->Targeted_0, direct));
}

/// Any other scope goes to no more synapses than the fanout allows, a targeted
/// one to no more than one, and to none twice.
pub proof fn lemma_fanout_is_bounded<R: Rng, M: Curves>(
    curves: M,
    among: Seq<Synapse>,
    scores: Seq<Scalar>,
    scope: ScopeModel,
    max_fanout: usize,
    exploration: ExplorationPolicy,
    temperature: Scalar,
    before: R,
    after: R,
    selected: Seq<Selection>,
)
    requires
        !(scope is Flood),
        routes(
            curves,
            among,
            scores,
            scope,
            max_fanout,
            exploration,
            temperature,
            before,
            after,
            selected,
        ),
    ensures
        selected.len() <= fanout_of(scope, max_fanout),
        forall|i: int, j: int|
            0 <= i < j < selected.len() ==> (#[trigger] selected[i]).index != (
            #[trigger] selected[j]).index,
{
}

} // verus!
