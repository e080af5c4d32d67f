//! Laws of travelling signals: what a hop takes, what stops a signal, which
//! synapses may carry it.

use vstd::arithmetic::power2::lemma_pow2_pos;
use vstd::prelude::*;

use crate::arith::{lemma_scaling_distance, lemma_shrinking, lemma_units_of_one, unit_scale};
use crate::delivery::RejectReason;
use crate::laws::orders::lemma_units_order;
use crate::propagation::{
    bounded, check_propagable, eligible, flooded, may_carry, PropagationConfig, ScopeModel,
};
use crate::scalar::{Scalar, ONE, ZERO};
use crate::signal::{NodeId, Signal, SignalModel};
use crate::synapse::Synapse;

verus! {

/// Bounding the headers of a signal gives it nothing: not a hop more, nor a hop
/// above what this node would give, nor a weight outside the unit interval. What
/// is within the bounds is left exactly as it was, and nothing else is touched.
pub proof fn lemma_bounding_never_gives(signal: SignalModel, default_ttl: u16)
    ensures
        ({
            let after = bounded(signal, default_ttl);
            &&& after.ttl <= signal.ttl
            &&& after.ttl <= default_ttl
            &&& after.ttl == signal.ttl || after.ttl == default_ttl
            &&& signal.ttl <= default_ttl && signal.weight.between(
                Scalar::from_bits(ZERO),
                Scalar::from_bits(ONE),
            ) ==> after == signal
            &&& !signal.weight.nan() ==> after.weight.between(
                Scalar::from_bits(ZERO),
                Scalar::from_bits(ONE),
            )
            &&& Scalar::from_bits(ONE).below(signal.weight) ==> after.weight == Scalar::from_bits(
                ONE,
            )
            &&& signal.weight.below(Scalar::from_bits(ZERO)) ==> after.weight.is_zero()
            &&& after == (SignalModel { ttl: after.ttl, weight: after.weight, ..signal })
            &&& bounded(after, default_ttl) == after
        }),
{
}

/// Bounding a signal that goes out again at each of several nodes never lets it
/// travel further than the strictest allows: with a hop in between, the hops
/// left fall.
pub proof fn lemma_relaying_uses_hops_up(signal: SignalModel, node: Seq<u8>, default_ttl: u16)
    requires
        signal.ttl > 0,
    ensures
        bounded(signal.hopped(node), default_ttl).ttl < signal.ttl,
        bounded(signal, default_ttl).hopped(node).ttl < signal.ttl,
        bounded(signal, default_ttl).hopped(node).ttl < default_ttl || default_ttl == 0,
{
}

/// A hop takes one of the hops left and adds the node to the trace. Nothing else
/// of the signal changes.
pub proof fn lemma_a_hop_takes_one(signal: SignalModel, node: Seq<u8>)
    ensures
        signal.ttl > 0 ==> signal.hopped(node).ttl == signal.ttl - 1,
        signal.ttl == 0 ==> signal.hopped(node).ttl == 0,
        signal.trace.len() < 64 ==> signal.hopped(node).trace == signal.trace.push(node),
        signal.trace.len() >= 64 ==> signal.hopped(node).trace == signal.trace,
        signal.hopped(node) == (SignalModel {
            ttl: signal.hopped(node).ttl,
            trace: signal.hopped(node).trace,
            ..signal
        }),
{
}

/// A signal without hops left, one that has been here, and one that is too light
/// go no further; any other does. The first of these is the reason given.
pub proof fn lemma_what_stops_a_signal(
    signal: Signal,
    local: NodeId,
    config: PropagationConfig,
    answer: Result<(), RejectReason>,
)
    requires
        call_ensures(check_propagable, (&signal, &local, &config), answer),
    ensures
        signal.ttl == 0 ==> answer == Err::<(), RejectReason>(RejectReason::TtlExhausted),
        signal.ttl > 0 && signal@.trace.contains(local@) ==> answer == Err::<(), RejectReason>(
            RejectReason::NoRoute,
        ),
        signal.ttl > 0 && !signal@.trace.contains(local@) && signal.weight.below(
            config.min_propagation_weight,
        ) ==> answer == Err::<(), RejectReason>(RejectReason::BelowThreshold),
        signal.ttl > 0 && !signal@.trace.contains(local@) && config.min_propagation_weight.at_most(
            signal.weight,
        ) ==> answer is Ok,
{
}

/// A flood stops after as many nodes as its emitter asked for, and not before.
/// Nothing else is a flood.
pub proof fn lemma_a_flood_has_its_depth(signal: SignalModel, node: Seq<u8>)
    ensures
        signal.scope matches ScopeModel::Flood(depth) ==> (flooded(signal) <==> depth
            <= signal.trace.len()),
        !(signal.scope is Flood) ==> !flooded(signal),
        flooded(signal) ==> flooded(signal.hopped(node)),
{
}

/// Which synapses are among those that may carry a signal: exactly those that
/// are active or weakening, are not the one that it came in on, and, where the
/// scope is weighted, weigh at least as much as it asks.
pub proof fn lemma_who_may_carry(
    synapses: Seq<Synapse>,
    scope: ScopeModel,
    arrival: Option<Seq<char>>,
    s: Synapse,
)
    ensures
        eligible(synapses, scope, arrival).contains(s) <==> synapses.contains(s) && (s.state
            is Active || s.state is Weakening) && arrival != Some(s.id@) && (
        scope matches ScopeModel::Weighted(floor) ==> floor.at_most(s.weight)),
        eligible(synapses, scope, arrival).len() <= synapses.len(),
{
    let keep = |t: Synapse| may_carry(t.row(), scope, arrival);
    let among = eligible(synapses, scope, arrival);
    assert(among == synapses.filter(keep));
    broadcast use vstd::seq_lib::group_filter_ensures;

    if among.contains(s) {
        let k = choose|k: int| 0 <= k < among.len() && among[k] == s;
        assert(keep(among[k]));
        synapses.lemma_filter_contains_rev(keep, s);
    }
    if synapses.contains(s) && keep(s) {
        let k = choose|k: int| 0 <= k < synapses.len() && synapses[k] == s;
        assert(keep(synapses[k]));
        synapses.lemma_filter_contains(keep, k);
    }
    assert(arrival == Some(s.id@) <==> arrival is Some && s.row().id == arrival->0);
}

/// A factor that is at most one never makes a signal heavier, and an
/// acknowledged signal with hops left is not attenuated below the floor that it
/// must keep to go on.
pub proof fn lemma_attenuation_has_a_floor(signal: SignalModel, factor: Scalar, floor: Scalar)
    requires
        signal.weight.between(Scalar::from_bits(ZERO), Scalar::from_bits(ONE)),
        !signal.weight.negative(),
        factor.between(Scalar::from_bits(ZERO), Scalar::from_bits(ONE)),
        !factor.negative(),
        floor.between(Scalar::from_bits(ZERO), Scalar::from_bits(ONE)),
        !floor.negative(),
    ensures
        ({
            let after = signal.hop_weight(factor, floor);
            let kept = signal.delivery is Acknowledged && signal.ttl > 0;
            let d = unit_scale();
            let exact = signal.weight.exact() * factor.exact();
            &&& after.between(Scalar::from_bits(ZERO), Scalar::from_bits(ONE))
            &&& kept ==> floor.at_most(after)
            &&& kept ==> after.at_most(signal.weight) || after == floor
            &&& !kept ==> after.at_most(signal.weight)
            &&& !kept || floor.below(after) ==> {
                &&& 0x100_0000 * (d * after.exact() - exact) <= 2 * (d * d)
                &&& 0x100_0000 * (exact - d * after.exact()) <= 2 * (d * d)
            }
        }),
{
    let d = unit_scale();
    lemma_units_of_one();
    lemma_shrinking(signal.weight, factor);
    lemma_scaling_distance(signal.weight, factor);
    lemma_units_order(signal.weight.magnitude(), ONE as int);
    vstd::arithmetic::power2::lemma2_to64();
    vstd::arithmetic::power2::lemma_pow2_adds(24, 125);
    lemma_pow2_pos(125);
    let x = signal.weight.exact();
    assert(0x100_0000 <= d) by (nonlinear_arith)
        requires
            d == 0x100_0000 * vstd::arithmetic::power2::pow2(125),
            vstd::arithmetic::power2::pow2(125) >= 1,
    ;
    assert(d * (x + 0x100_0000) <= 2 * (d * d)) by (nonlinear_arith)
        requires
            0 <= x <= d,
            0x100_0000 <= d,
    ;
}

/// A signal is sound exactly where its weight is in the unit interval, it has
/// hops left and it is signed; the first that fails is what is reported.
pub proof fn lemma_what_a_sound_signal_is(signal: SignalModel)
    ensures
        signal.validity() is Ok <==> signal.weight.between(
            Scalar::from_bits(ZERO),
            Scalar::from_bits(ONE),
        ) && signal.ttl > 0 && signal.signature.len() > 0,
        signal.weight.nan() ==> signal.validity() == Err::<(), crate::error::Error>(
            crate::error::Error::WeightOutOfRange(signal.weight),
        ),
        !signal.weight.between(Scalar::from_bits(ZERO), Scalar::from_bits(ONE))
            ==> signal.validity() == Err::<(), crate::error::Error>(
            crate::error::Error::WeightOutOfRange(signal.weight),
        ),
        signal.weight.between(Scalar::from_bits(ZERO), Scalar::from_bits(ONE)) && signal.ttl == 0
            ==> signal.validity() == Err::<(), crate::error::Error>(
            crate::error::Error::TtlExpired(signal.id),
        ),
        signal.weight.between(Scalar::from_bits(ZERO), Scalar::from_bits(ONE)) && signal.ttl > 0
            && signal.signature.len() == 0 ==> signal.validity() == Err::<
            (),
            crate::error::Error,
        >(crate::error::Error::MissingSignature),
{
}

} // verus!
