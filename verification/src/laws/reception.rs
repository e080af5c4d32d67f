//! Laws of reception: what becomes of a signal that arrives, and of one that a
//! node emits.

use vstd::prelude::*;

use crate::activation::{GateModel, QueuedRow};
use crate::arith::{lemma_units_of_one, units};
use crate::config::NodeSetup;
use crate::curves::{falls_in, Curves};
use crate::delivery::{ReceiptStatus, RejectReason};
use crate::node::{
    arrival_weight, builds, displaced, plans, queue_row_of, receives, receives_locally,
    receives_with, released, without, DispositionModel, ForwardRow,
};
use crate::laws::orders::{lemma_quotients_keep_order, lemma_units_order};
use crate::learning::{time_to_decay_to, LearningConfig};
use crate::propagation::{flooded, obstacle, ScopeModel};
use crate::rng::Rng;
use crate::scalar::{Scalar, ONE, ZERO};
use crate::signal::{SignalId, SignalModel};
use crate::store::StoreModel;

verus! {

/// What becomes of an arrival that is new and may travel: it is refused, held,
/// or released, and only one of these. What is held owes nothing yet. What is
/// released is forwarded, and refused only where it asked to be acknowledged, no
/// synapse would take it, and it is not a flood at its depth. It is remembered
/// for as long as the configuration says.
pub proof fn lemma_what_becomes_of_an_arrival<R: Rng, M: Curves>(
    curves: M,
    kept: StoreModel,
    answers: bool,
    gate: GateModel,
    setup: NodeSetup,
    local: Seq<u8>,
    signal: SignalModel,
    arrival: Option<Seq<char>>,
    now_ns: u64,
    before: R,
    after: R,
    gate_after: GateModel,
    kept_after: StoreModel,
    d: DispositionModel,
)
    requires
        receives(
            curves,
            kept,
            answers,
            gate,
            setup,
            local,
            signal,
            arrival,
            now_ns,
            before,
            after,
            gate_after,
            kept_after,
            d,
        ),
        !kept.sees(signal.id, now_ns),
        signal.ttl > 0,
        !signal.trace.contains(local),
        !signal.weight.below(setup.propagation.min_propagation_weight),
    ensures
        d.rejected matches Some(why) ==> why == RejectReason::QueueFull || why
            == RejectReason::NoRoute,
        d.rejected is Some || d.queued || released(d.handle_locally, signal.id),
        !(d.rejected is Some && d.queued),
        d.queued ==> d.forward_to.len() == 0 && d.receipt is None && !released(
            d.handle_locally,
            signal.id,
        ),
        d.forward_to.len() > 0 ==> released(d.handle_locally, signal.id) && d.receipt is None
            && d.rejected is None,
        d.rejected == Some(RejectReason::NoRoute) ==> {
            &&& signal.delivery is Acknowledged
            &&& !released(d.handle_locally, signal.id)
            &&& !(signal.scope matches ScopeModel::Flood(depth) && signal.trace.len() >= depth)
        },
        d.receipt is Some <==> d.rejected is Some && signal.delivery is Acknowledged,
        d.receipt matches Some(receipt) ==> receipt.correlation_id == signal.id && receipt.status
            == ReceiptStatus::Rejected(d.rejected->0),
        d.evicted matches Some((other, why)) ==> why == RejectReason::QueueFull && other.id
            != signal.id && gate.queue.len() >= gate.max_queue_depth,
        forall|t: u64|
            now_ns <= t && t < now_ns + setup.propagation.dedup_cache_seconds * 1_000_000_000 && t
                < u64::MAX ==> #[trigger] kept_after.sees(signal.id, t),
        kept_after.synapses == kept.synapses,
{
    let marked = kept.marked(signal.id, now_ns, setup.propagation.dedup_cache_seconds);
    let (lent, middle, fired) = choose|lent: Scalar, middle: R, fired: Seq<QueuedRow>|
        {
            &&& lent == arrival_weight(marked, arrival) || (!answers && lent
                == Scalar::from_bits(ONE))
            &&& #[trigger] receives_with(
                curves,
                marked,
                gate,
                setup,
                signal,
                arrival,
                now_ns,
                before,
                after,
                gate_after,
                kept_after,
                d,
                lent,
                middle,
                fired,
            )
        };
    let row = queue_row_of(signal, now_ns);
    let dropped = gate.dropped_for(row);
    lemma_without(fired, signal.id);
    if dropped is Some && dropped->0.id == signal.id {
    } else if !released(fired, signal.id) {
    } else {
        let forwards = choose|forwards: Seq<ForwardRow>|
            {
                &&& #[trigger] plans(
                    curves,
                    marked,
                    setup,
                    signal,
                    arrival,
                    now_ns,
                    middle,
                    after,
                    forwards,
                    kept_after,
                )
                &&& d == (if forwards.len() == 0 && signal.delivery is Acknowledged && !flooded(
                    signal,
                ) {
                    DispositionModel {
                        handle_locally: without(fired, signal.id),
                        evicted: displaced(gate, row),
                        ..DispositionModel::refusal(signal, RejectReason::NoRoute)
                    }
                } else {
                    DispositionModel {
                        forward_to: forwards,
                        handle_locally: fired,
                        evicted: displaced(gate, row),
                        ..DispositionModel::nothing()
                    }
                })
            };
        crate::laws::nodes::lemma_where_a_signal_goes(
            curves,
            marked,
            setup,
            signal,
            arrival,
            now_ns,
            middle,
            after,
            forwards,
            kept_after,
        );
    }
}

/// What is left of those released does not hold the signal that is taken out.
proof fn lemma_without(fired: Seq<QueuedRow>, id: SignalId)
    ensures
        !released(without(fired, id), id),
{
    let keep = |q: QueuedRow| q.id != id;
    assert forall|i: int| 0 <= i < without(fired, id).len() implies (#[trigger] without(
        fired,
        id,
    )[i]).id != id by {
        crate::laws::keeping::lemma_filter_members(fired, keep, without(fired, id)[i]);
        assert(without(fired, id).contains(without(fired, id)[i]));
    }
}

/// An arrival that may not travel is refused for what stops it, remembered, and
/// touches nothing else.
pub proof fn lemma_what_may_not_travel_is_refused<R: Rng, M: Curves>(
    curves: M,
    kept: StoreModel,
    answers: bool,
    gate: GateModel,
    setup: NodeSetup,
    local: Seq<u8>,
    signal: SignalModel,
    arrival: Option<Seq<char>>,
    now_ns: u64,
    before: R,
    after: R,
    gate_after: GateModel,
    kept_after: StoreModel,
    d: DispositionModel,
)
    requires
        receives(
            curves,
            kept,
            answers,
            gate,
            setup,
            local,
            signal,
            arrival,
            now_ns,
            before,
            after,
            gate_after,
            kept_after,
            d,
        ),
        !kept.sees(signal.id, now_ns),
    ensures
        signal.ttl == 0 ==> d.rejected == Some(RejectReason::TtlExhausted),
        signal.ttl > 0 && signal.trace.contains(local) ==> d.rejected == Some(RejectReason::NoRoute),
        signal.ttl > 0 && !signal.trace.contains(local) && signal.weight.below(
            setup.propagation.min_propagation_weight,
        ) ==> d.rejected == Some(RejectReason::BelowThreshold),
        signal.ttl == 0 || signal.trace.contains(local) || signal.weight.below(
            setup.propagation.min_propagation_weight,
        ) ==> {
            &&& d.forward_to.len() == 0
            &&& d.handle_locally.len() == 0
            &&& gate_after == gate
            &&& after == before
            &&& kept_after.journal == kept.journal
            &&& forall|t: u64|
                now_ns <= t && t < now_ns + setup.propagation.dedup_cache_seconds * 1_000_000_000 && t
                    < u64::MAX ==> #[trigger] kept_after.sees(signal.id, t)
        },
{
}

/// An arrival is lent the weight of the synapse that it came by, and the whole
/// weight where it came by none that is known.
pub proof fn lemma_what_an_arrival_is_lent(kept: StoreModel, id: Seq<char>)
    ensures
        kept.synapses.dom().contains(id) ==> arrival_weight(kept, Some(id))
            == kept.synapses[id].weight,
        !kept.synapses.dom().contains(id) ==> arrival_weight(kept, Some(id)) == Scalar::from_bits(
            0x3F80_0000,
        ),
        arrival_weight(kept, None) == Scalar::from_bits(0x3F80_0000),
{
}

/// What waits in the queue is the signal: its identifier, origin, weight and
/// class, since the instant that it arrived.
pub proof fn lemma_what_waits(signal: SignalModel, now_ns: u64)
    ensures
        ({
            let row = queue_row_of(signal, now_ns);
            &&& row.id == signal.id
            &&& row.origin == signal.origin
            &&& row.weight == signal.weight
            &&& row.delivery == signal.delivery
            &&& row.enqueued_at_ns == now_ns
        }),
{
}

/// What a node emits itself is not held: it goes out at once, or is refused.
/// It is refused for what stops it, or where it asked to be acknowledged and no
/// synapse would take it.
pub proof fn lemma_what_a_node_emits_goes_out<R: Rng, M: Curves>(
    curves: M,
    kept: StoreModel,
    setup: NodeSetup,
    local: Seq<u8>,
    signal: SignalModel,
    now_ns: u64,
    before: R,
    after: R,
    kept_after: StoreModel,
    d: DispositionModel,
)
    requires
        receives_locally(
            curves,
            kept,
            setup,
            local,
            signal,
            now_ns,
            before,
            after,
            kept_after,
            d,
        ),
    ensures
        !d.queued,
        d.evicted is None,
        d.handle_locally.len() == 0,
        d.receipt is Some <==> d.rejected is Some && signal.delivery is Acknowledged,
        d.forward_to.len() > 0 ==> d.rejected is None,
        signal.ttl == 0 ==> d.rejected == Some(RejectReason::TtlExhausted),
        obstacle(signal, local, setup.propagation.min_propagation_weight) is None ==> {
            &&& d.rejected is None || d.rejected == Some(RejectReason::NoRoute)
            &&& signal.delivery is BestEffort ==> d.rejected is None
            &&& signal.delivery is Acknowledged && d.forward_to.len() == 0 && !(signal.scope matches ScopeModel::Flood(
                depth,
            ) && signal.trace.len() >= depth) ==> d.rejected == Some(RejectReason::NoRoute)
        },
        kept_after.synapses == kept.synapses,
        kept_after.seen == kept.seen,
{
    if obstacle(signal, local, setup.propagation.min_propagation_weight) is None {
        let forwards = choose|forwards: Seq<ForwardRow>|
            {
                &&& #[trigger] plans(
                    curves,
                    kept,
                    setup,
                    signal,
                    None,
                    now_ns,
                    before,
                    after,
                    forwards,
                    kept_after,
                )
                &&& d == (if forwards.len() == 0 && signal.delivery is Acknowledged && !flooded(
                    signal,
                ) {
                    DispositionModel::refusal(signal, RejectReason::NoRoute)
                } else {
                    DispositionModel { forward_to: forwards, ..DispositionModel::nothing() }
                })
            };
        crate::laws::nodes::lemma_where_a_signal_goes(
            curves,
            kept,
            setup,
            signal,
            None,
            now_ns,
            before,
            after,
            forwards,
            kept_after,
        );
    }
}

/// A node that is built has an identity that its store keeps, and stands where
/// the store says that its gate stood.
pub proof fn lemma_what_a_built_node_is(
    kept: StoreModel,
    setup: NodeSetup,
    given: Option<Seq<u8>>,
    me: Seq<u8>,
    after: StoreModel,
    gate: GateModel,
)
    requires
        builds(kept, setup, given, me, after, gate),
    ensures
        given matches Some(id) ==> me == id,
        given is None && kept.meta.dom().contains("node-id"@) ==> me == kept.meta["node-id"@],
        after.meta.dom().contains("node-id"@),
        after.meta["node-id"@] == me,
        after.synapses == kept.synapses,
        after.journal == kept.journal,
        after.seen == kept.seen,
        gate.queue.len() == 0,
        gate.base_threshold == setup.activation.base_threshold,
        gate.max_potential == setup.activation.max_potential,
        kept.activation is None ==> gate.potential.is_zero() && gate.signals_fired == 0 && gate.threshold
            == setup.activation.base_threshold,
        kept.activation matches Some(snapshot) ==> gate.threshold == snapshot.threshold
            && gate.signals_fired == snapshot.signals_fired && gate.refractory_until_ns
            == snapshot.refractory_until_ns,
{
}

/// What the host is asked for the time of a fall: as many half-lives as the ratio
/// has halvings, in nanoseconds.
pub proof fn lemma_a_fall_takes_its_halvings<M: Curves>(
    curves: M,
    ratio: Scalar,
    half_life_hours: Scalar,
    time_ns: u64,
)
    requires
        falls_in(curves, ratio, half_life_hours, time_ns),
    ensures
        exists|halvings: Scalar, hours: Scalar|
            {
                &&& #[trigger] call_ensures(M::log2, (&curves, ratio), halvings)
                &&& #[trigger] call_ensures(M::hours_to_ns, (&curves, hours), time_ns)
                &&& hours == half_life_hours.product(halvings) || hours == halvings.product(
                    half_life_hours,
                )
            },
{
    let halvings = choose|halvings: Scalar| #[trigger]
        call_ensures(M::log2, (&curves, ratio), halvings) && call_ensures(
            M::hours_to_ns,
            (&curves, halvings.product(half_life_hours)),
            time_ns,
        );
    let hours = halvings.product(half_life_hours);
    assert(call_ensures(M::hours_to_ns, (&curves, hours), time_ns));
}

/// There is a time to a target that is positive and below the weight, and to no
/// other, and the host is asked for the halvings of a ratio that is at least one.
pub proof fn lemma_when_a_weight_reaches_a_target<M: Curves>(
    weight: Scalar,
    target: Scalar,
    config: LearningConfig,
    curves: M,
    time: Option<u64>,
)
    requires
        call_ensures(time_to_decay_to::<M>, (weight, target, &config, &curves), time),
        weight.finite(),
        target.finite(),
    ensures
        time is Some <==> Scalar::from_bits(ZERO).below(target) && target.below(weight),
        time is Some ==> exists|ratio: Scalar, halvings: Scalar|
            Scalar::from_bits(ONE).at_most(ratio) && #[trigger] call_ensures(
                M::log2,
                (&curves, ratio),
                halvings,
            ),
{
    if let Some(time_ns) = time {
        let one = Scalar::from_bits(ONE);
        let ratio = weight.quotient(target);
        let halvings = choose|halvings: Scalar| #[trigger]
            call_ensures(M::log2, (&curves, ratio), halvings) && call_ensures(
                M::hours_to_ns,
                (&curves, halvings.product(config.decay_half_life_hours)),
                time_ns,
            );
        let x = target.exact();
        let d = crate::arith::unit_scale();
        lemma_units_of_one();
        lemma_units_order(0, target.magnitude());
        assert(units(0) == 0);
        lemma_quotients_keep_order(target, weight, target, target);
        assert(target.quotient(target) == one) by {
            crate::arith::lemma_rounding_is_exact(ONE as int, x);
            assert(d * x == x * d) by (nonlinear_arith);
        }
        assert(call_ensures(M::log2, (&curves, ratio), halvings));
    }
}

} // verus!
