//! Laws of the activation gate: what is dropped, when it fires, what goes out.

use vstd::arithmetic::power2::{
    lemma2_to64, lemma2_to64_rest, lemma_pow2_adds, lemma_pow2_pos, pow2,
};
use vstd::prelude::*;

use crate::activation::{
    heavier, lemma_batch_is_heaviest, lemma_fire_conserves, oldest_of, weakest_of, ActivationConfig,
    ActivationState, GateModel, QueuedRow,
};
use crate::arith::{
    lemma_nearest_exists, lemma_natural, lemma_rounding_is_exact, lemma_rounding_is_monotone,
    lemma_sum_error, lemma_units_of_one, rounded, unit_scale, units,
};
use crate::curves::{exp_gives, Curves};
use crate::laws::orders::{
    lemma_exact_order, lemma_larger_sums, lemma_least_normal, lemma_power, lemma_products_keep_order,
    lemma_quotients_keep_order, lemma_ratio_error, lemma_sum_within, lemma_units_order, plain,
};
use crate::rng::{fraction_drawn, Rng};
use crate::scalar::{Scalar, HIDDEN_BIT, ONE, ZERO};
use crate::store::ActivationSnapshot;

verus! {

/// Whether the weights in a queue are numbers.
pub open spec fn weighed(queue: Seq<QueuedRow>) -> bool {
    forall|i: int| 0 <= i < queue.len() ==> !(#[trigger] queue[i]).weight.nan()
}

/// The weakest of the first signals of a queue is lighter than none of them.
proof fn lemma_weakest(queue: Seq<QueuedRow>, n: int)
    requires
        1 <= n <= queue.len(),
        weighed(queue),
    ensures
        0 <= weakest_of(queue, n) < n,
        forall|j: int|
            0 <= j < n ==> !(#[trigger] queue[j]).weight.below(queue[weakest_of(queue, n)].weight),
    decreases n,
{
    if n > 1 {
        lemma_weakest(queue, n - 1);
    }
}

/// The oldest of the first signals of a queue came after none of them.
proof fn lemma_oldest(queue: Seq<QueuedRow>, n: int)
    requires
        1 <= n <= queue.len(),
    ensures
        0 <= oldest_of(queue, n) < n,
        forall|j: int|
            0 <= j < n ==> queue[oldest_of(queue, n)].enqueued_at_ns <= (
            #[trigger] queue[j]).enqueued_at_ns,
        forall|j: int|
            0 <= j < n && (#[trigger] queue[j]).enqueued_at_ns == queue[oldest_of(
                queue,
                n,
            )].enqueued_at_ns ==> queue[oldest_of(queue, n)].id@ <= queue[j].id@,
    decreases n,
{
    if n > 1 {
        lemma_oldest(queue, n - 1);
    }
}

/// Where there is room an arrival is queued last, and nothing is dropped.
pub proof fn lemma_room_is_used(gate: GateModel, arrival: QueuedRow, synapse_weight: Scalar)
    requires
        gate.queue.len() < gate.max_queue_depth,
    ensures
        gate.dropped_for(arrival) is None,
        gate.offered(arrival, synapse_weight).queue == gate.queue.push(arrival),
        gate.offered(arrival, synapse_weight).signals_dropped == gate.signals_dropped,
        gate.offered(arrival, synapse_weight).overflow_events == gate.overflow_events,
{
}

/// A full queue drops the lightest: whatever is dropped is no heavier than
/// anything that was queued or arrived, so than anything that stays, and a
/// queued signal gives way only to a heavier arrival.
pub proof fn lemma_the_lightest_is_dropped(
    gate: GateModel,
    arrival: QueuedRow,
    synapse_weight: Scalar,
    dropped: QueuedRow,
)
    requires
        gate.wf(),
        gate.queue.len() == gate.max_queue_depth,
        gate.overflow_policy is DropLowestWeight,
        weighed(gate.queue),
        !arrival.weight.nan(),
        gate.dropped_for(arrival) == Some(dropped),
    ensures
        forall|j: int|
            0 <= j < gate.queue.len() ==> !(#[trigger] gate.queue[j]).weight.below(dropped.weight),
        !arrival.weight.below(dropped.weight),
        forall|j: int|
            0 <= j < gate.offered(arrival, synapse_weight).queue.len() ==> !(
            #[trigger] gate.offered(arrival, synapse_weight).queue[j]).weight.below(dropped.weight),
        dropped == arrival || gate.queue.contains(dropped),
        gate.offered(arrival, synapse_weight).queue == gate.queue || dropped.weight.below(
            arrival.weight,
        ),
        (exists|j: int|
            0 <= j < gate.queue.len() && (#[trigger] gate.queue[j]).weight.below(arrival.weight))
            ==> dropped.weight.below(arrival.weight) && gate.offered(
            arrival,
            synapse_weight,
        ).queue.last() == arrival,
{
    let queue = gate.queue;
    lemma_weakest(queue, queue.len() as int);
    let w = weakest_of(queue, queue.len() as int);
    assert(queue[w] == queue[w]);
    match gate.victim(arrival) {
        Some(i) => {
            assert(queue.contains(queue[i]));
            let after = queue.remove(i).push(arrival);
            assert forall|j: int| 0 <= j < after.len() implies !(#[trigger] after[j]).weight.below(
                dropped.weight,
            ) by {
                if j < queue.len() - 1 {
                    assert(after[j] == queue[if j < i {
                        j
                    } else {
                        j + 1
                    }]);
                }
            }
        },
        None => {},
    }
}

/// A full queue that drops the oldest drops what came first, of two that came
/// together the one with the smaller identifier, and takes the arrival.
pub proof fn lemma_the_oldest_is_dropped(
    gate: GateModel,
    arrival: QueuedRow,
    synapse_weight: Scalar,
    dropped: QueuedRow,
)
    requires
        gate.wf(),
        gate.queue.len() == gate.max_queue_depth,
        gate.overflow_policy is DropOldest,
        gate.dropped_for(arrival) == Some(dropped),
    ensures
        gate.queue.contains(dropped),
        forall|j: int|
            0 <= j < gate.queue.len() ==> dropped.enqueued_at_ns <= (
            #[trigger] gate.queue[j]).enqueued_at_ns,
        forall|j: int|
            0 <= j < gate.queue.len() && (#[trigger] gate.queue[j]).enqueued_at_ns
                == dropped.enqueued_at_ns ==> dropped.id@ <= gate.queue[j].id@,
        gate.offered(arrival, synapse_weight).queue.last() == arrival,
        gate.offered(arrival, synapse_weight).queue.len() == gate.queue.len(),
{
    lemma_oldest(gate.queue, gate.queue.len() as int);
    assert(gate.queue.contains(gate.queue[oldest_of(gate.queue, gate.queue.len() as int)]));
}

/// A full queue that drops the newest drops the arrival. Every drop is counted,
/// and so is every arrival at a full queue.
pub proof fn lemma_the_newest_is_dropped(gate: GateModel, arrival: QueuedRow, synapse_weight: Scalar)
    requires
        gate.wf(),
        gate.queue.len() == gate.max_queue_depth,
    ensures
        gate.dropped_for(arrival) is Some,
        gate.overflow_policy is DropNewest ==> gate.dropped_for(arrival) == Some(arrival)
            && gate.offered(arrival, synapse_weight).queue == gate.queue,
        gate.signals_dropped < u64::MAX ==> gate.offered(arrival, synapse_weight).signals_dropped
            == gate.signals_dropped + 1,
        gate.overflow_events < u64::MAX ==> gate.offered(arrival, synapse_weight).overflow_events
            == gate.overflow_events + 1,
{
}

/// Whether a queued signal has waited for the longest that one may, or longer.
pub open spec fn waits_too_long(queue: Seq<QueuedRow>, limit_ns: u64, now_ns: u64) -> bool {
    exists|i: int|
        0 <= i < queue.len() && (#[trigger] queue[i]).enqueued_at_ns + limit_ns <= now_ns
}

/// The guard against waiting acts once a signal has waited its milliseconds, not
/// before, and not at all where none is set.
pub proof fn lemma_the_guard_waits_its_time(gate: GateModel, now_ns: u64)
    ensures
        gate.starving(now_ns) <==> gate.max_queue_latency_ns > 0 && waits_too_long(
            gate.queue,
            gate.max_queue_latency_ns,
            now_ns,
        ),
{
    if gate.starving(now_ns) {
        let i = choose|i: int|
            0 <= i < gate.queue.len() && now_ns - (#[trigger] gate.queue[i]).enqueued_at_ns
                >= gate.max_queue_latency_ns;
        assert(gate.queue[i].enqueued_at_ns + gate.max_queue_latency_ns <= now_ns);
    }
    if waits_too_long(gate.queue, gate.max_queue_latency_ns, now_ns) {
        let i = choose|i: int|
            0 <= i < gate.queue.len() && (#[trigger] gate.queue[i]).enqueued_at_ns
                + gate.max_queue_latency_ns <= now_ns;
        assert(now_ns - gate.queue[i].enqueued_at_ns >= gate.max_queue_latency_ns);
    }
}

/// A gate counts its configured milliseconds as millions of nanoseconds, and
/// starts idle, at its base threshold, with an empty queue.
pub proof fn lemma_a_gate_starts_idle(config: ActivationConfig, gate: ActivationState)
    requires
        call_ensures(ActivationState::new, (&config,), gate),
    ensures
        config.refractory_period_ms <= 18_446_744_073_709 ==> gate@.refractory_period_ns
            == config.refractory_period_ms * 1_000_000,
        config.max_queue_latency_ms <= 18_446_744_073_709 ==> gate@.max_queue_latency_ns
            == config.max_queue_latency_ms * 1_000_000,
        gate@.queue.len() == 0,
        gate@.potential.is_zero(),
        gate@.threshold == config.base_threshold,
        gate@.base_threshold == config.base_threshold,
        gate@.max_potential == config.max_potential,
        gate@.function == config.activation_function,
        gate@.dynamic == config.dynamic_threshold,
        gate@.overflow_policy == config.overflow_policy,
        gate@.leak_rate == config.leak_rate,
        gate@.refractory_until_ns == 0,
        gate@.signals_fired == 0 && gate@.signals_dropped == 0 && gate@.overflow_events == 0,
        config.fire_batch_size > 0 ==> gate@.fire_batch_size == config.fire_batch_size,
        config.max_queue_depth > 0 ==> gate@.max_queue_depth == config.max_queue_depth,
{
}

/// A fire drains the heaviest, as many as a batch holds or all there are, spends
/// the potential, counts what went out, and rests for its period. Of two that
/// weigh the same the one with the smaller identifier goes first.
pub proof fn lemma_a_fire_takes_the_heaviest(
    gate: GateModel,
    now_ns: u64,
    batch: Seq<QueuedRow>,
    after: GateModel,
)
    requires
        gate.fires(now_ns, batch, after),
    ensures
        batch.len() == gate.fire_batch_size || (batch.len() < gate.fire_batch_size
            && after.queue.len() == 0),
        batch.len() + after.queue.len() == gate.queue.len(),
        batch.to_multiset().add(after.queue.to_multiset()) == gate.queue.to_multiset(),
        forall|i: int, j: int|
            0 <= i < batch.len() && 0 <= j < after.queue.len() ==> !(
            #[trigger] batch[i]).weight.below((#[trigger] after.queue[j]).weight),
        forall|i: int, j: int|
            0 <= i < j < batch.len() ==> !(#[trigger] batch[i]).weight.below(
                (#[trigger] batch[j]).weight,
            ),
        forall|i: int, j: int|
            0 <= i < j < batch.len() && (#[trigger] batch[i]).weight == (
            #[trigger] batch[j]).weight ==> batch[i].id@ <= batch[j].id@,
        after.potential.is_zero(),
        after.threshold == gate.threshold,
        now_ns + gate.refractory_period_ns <= u64::MAX ==> after.refractory_until_ns == now_ns
            + gate.refractory_period_ns,
        gate.signals_fired + batch.len() <= u64::MAX ==> after.signals_fired == gate.signals_fired
            + batch.len(),
        after.signals_dropped == gate.signals_dropped,
        after.overflow_events == gate.overflow_events,
{
    lemma_fire_conserves(gate, now_ns, batch, after);
    lemma_batch_is_heaviest(gate, now_ns, batch, after);
    assert forall|i: int, j: int| 0 <= i < batch.len() && 0 <= j < after.queue.len() implies !(
    #[trigger] batch[i]).weight.below((#[trigger] after.queue[j]).weight) by {
        assert(!heavier(after.queue[j], batch[i]));
    }
    assert forall|i: int, j: int| 0 <= i < j < batch.len() implies !(
    #[trigger] batch[i]).weight.below((#[trigger] batch[j]).weight) by {
        assert(!heavier(batch[j], batch[i]));
    }
    assert forall|i: int, j: int|
        0 <= i < j < batch.len() && (#[trigger] batch[i]).weight == (
        #[trigger] batch[j]).weight implies batch[i].id@ <= batch[j].id@ by {
        assert(!heavier(batch[j], batch[i]));
    }
}

/// A step fires exactly where the potential has reached the threshold or a
/// signal has waited too long, unless it rests. Where it does not fire, what is
/// queued and the potential stay for the next arrival.
pub proof fn lemma_a_step_fires_at_the_threshold<R: Rng, M: Curves>(
    gate: GateModel,
    curves: M,
    arrival: QueuedRow,
    synapse_weight: Scalar,
    now_ns: u64,
    before: R,
    next: R,
    fired: Seq<QueuedRow>,
    after: GateModel,
)
    requires
        gate.wf(),
        gate.function is Step,
        gate.admits(curves, arrival, synapse_weight, now_ns, before, next, fired, after),
    ensures
        next == before,
        ({
            let offered = gate.offered(arrival, synapse_weight);
            let due = offered.threshold.at_most(offered.potential) || (gate.max_queue_latency_ns > 0
                && waits_too_long(offered.queue, gate.max_queue_latency_ns, now_ns));
            &&& fired.len() > 0 <==> gate.refractory_until_ns <= now_ns && due
            &&& fired.len() == 0 ==> after == offered
            &&& fired.len() > 0 ==> after.potential.is_zero()
        }),
{
    let offered = gate.offered(arrival, synapse_weight);
    lemma_the_guard_waits_its_time(offered, now_ns);
    lemma_an_offer_leaves_something(gate, arrival, synapse_weight);
    if !offered.refractory(now_ns) {
        let fire = choose|fire: bool| #[trigger]
            offered.evaluates(curves, before, next, fire) && if fire || offered.starving(now_ns) {
                offered.fires(now_ns, fired, after)
            } else {
                fired.len() == 0 && after == offered
            };
        if fire || offered.starving(now_ns) {
            lemma_a_fire_takes_the_heaviest(offered, now_ns, fired, after);
        }
    }
}

/// After an offer the queue is not empty.
proof fn lemma_an_offer_leaves_something(
    gate: GateModel,
    arrival: QueuedRow,
    synapse_weight: Scalar,
)
    requires
        gate.wf(),
    ensures
        gate.offered(arrival, synapse_weight).queue.len() > 0,
        gate.offered(arrival, synapse_weight).wf(),
        gate.offered(arrival, synapse_weight).refractory_until_ns == gate.refractory_until_ns,
        gate.offered(arrival, synapse_weight).refractory_period_ns == gate.refractory_period_ns,
        gate.offered(arrival, synapse_weight).max_queue_latency_ns == gate.max_queue_latency_ns,
        gate.offered(arrival, synapse_weight).function == gate.function,
        gate.offered(arrival, synapse_weight).leak_rate == gate.leak_rate,
{
    crate::activation::lemma_queue_is_bounded(gate, arrival, synapse_weight);
}

/// After a fire a gate rests: whatever is offered before its period has passed,
/// nothing goes out. Once it has passed, resting holds nothing back.
pub proof fn lemma_a_gate_rests_after_a_fire<R: Rng, M: Curves>(
    gate: GateModel,
    now_ns: u64,
    batch: Seq<QueuedRow>,
    after: GateModel,
    curves: M,
    arrival: QueuedRow,
    synapse_weight: Scalar,
    later_ns: u64,
    before: R,
    next: R,
    fired: Seq<QueuedRow>,
    last: GateModel,
)
    requires
        gate.fires(now_ns, batch, after),
        now_ns + gate.refractory_period_ns <= u64::MAX,
        after.admits(curves, arrival, synapse_weight, later_ns, before, next, fired, last),
    ensures
        later_ns < now_ns + gate.refractory_period_ns ==> fired.len() == 0,
        later_ns >= now_ns + gate.refractory_period_ns ==> !after.refractory(later_ns),
{
}

/// A leaky gate fires whenever the potential has reached the threshold, and
/// below it for a draw under its leak rate.
pub proof fn lemma_a_leak_passes_some<R: Rng, M: Curves>(
    gate: GateModel,
    curves: M,
    before: R,
    next: R,
    fire: bool,
)
    requires
        gate.function is Leaky,
        gate.queue.len() > 0,
        gate.evaluates(curves, before, next, fire),
    ensures
        gate.threshold.at_most(gate.potential) ==> fire && next == before,
        !gate.threshold.at_most(gate.potential) ==> exists|u: Scalar| #[trigger]
            fraction_drawn(before, u, next) && (fire <==> u.below(gate.leak_rate)),
{
}

/// A half.
pub open spec fn half() -> Scalar {
    Scalar::from_bits(0x3F00_0000)
}

/// A sigmoid gate is more likely to fire than not from the threshold up, and
/// more likely not to below it: where the host's exponential is at most one of
/// what is not positive and at least one of what is, a potential at the threshold
/// or above fires for every draw under a half, and one below it for none above.
pub proof fn lemma_a_sigmoid_turns_at_the_threshold<R: Rng, M: Curves>(
    gate: GateModel,
    curves: M,
    before: R,
    next: R,
    fire: bool,
)
    requires
        gate.function is Sigmoid,
        gate.queue.len() > 0,
        gate.potential.finite(),
        !gate.potential.negative(),
        gate.threshold.finite(),
        !gate.threshold.negative(),
        forall|x: Scalar, e: Scalar| #[trigger]
            exp_gives(curves, x, e) ==> !e.nan() && !e.negative() && (x.at_most(
                Scalar::from_bits(ZERO),
            ) ==> e.at_most(Scalar::from_bits(ONE))) && (Scalar::from_bits(ZERO).at_most(x)
                ==> Scalar::from_bits(ONE).at_most(e)),
        gate.evaluates(curves, before, next, fire),
    ensures
        exists|u: Scalar| #[trigger]
            fraction_drawn(before, u, next) && (gate.threshold.at_most(gate.potential) && u.below(
                half(),
            ) ==> fire) && (gate.potential.at_most(gate.threshold) && half().at_most(u) ==> !fire),
{
    let one = Scalar::from_bits(ONE);
    let zero = Scalar::from_bits(ZERO);
    let (u, e) = choose|u: Scalar, e: Scalar|
        #![trigger fraction_drawn(before, u, next), one.sum(e)]
        fraction_drawn(before, u, next) && exp_gives(
            curves,
            Scalar::from_bits(crate::activation::STEEPNESS).product(
                gate.potential.difference(gate.threshold),
            ),
            e,
        ) && fire == u.below(one.quotient(one.sum(e)));
    let steep = Scalar::from_bits(crate::activation::STEEPNESS);
    let gap = gate.potential.difference(gate.threshold);
    let x = steep.product(gap);
    lemma_gap(gate.potential, gate.threshold);
    lemma_times_negative(steep, gap);
    lemma_units_of_one();
    // One over one and one is a half.
    let two = Scalar::from_bits(0x4000_0000);
    assert(one.sum(one) == two && one.quotient(two) == half()) by {
        lemma_two();
    }
    if gate.threshold.at_most(gate.potential) {
        assert(x.at_most(zero));
        lemma_larger_sums(one, one, e, one);
        lemma_larger_sums(one, one, zero, e);
        assert(one.sum(zero) == one) by {
            crate::learning::lemma_adding_zero(one);
        }
        lemma_quotients_keep_order(one, one, one.sum(e), two);
    }
    if gate.potential.at_most(gate.threshold) {
        assert(zero.at_most(x));
        lemma_larger_sums(one, one, one, e);
        lemma_quotients_keep_order(one, one, two, one.sum(e));
    }
    assert(fraction_drawn(before, u, next));
}

/// One and one are two, and one over two is a half.
proof fn lemma_two()
    ensures
        Scalar::from_bits(ONE).sum(Scalar::from_bits(ONE)) == Scalar::from_bits(0x4000_0000),
        Scalar::from_bits(ONE).quotient(Scalar::from_bits(0x4000_0000)) == half(),
{
    let d = unit_scale();
    lemma_units_of_one();
    lemma2_to64();
    let two = lemma_power(1);
    assert(two == 0x4000_0000);
    lemma_rounding_is_exact(two, 1);
    assert(units(two) * 1 == units(two));
    lemma_pow2_adds(23, 125);
    lemma_pow2_adds(148, 1);
    assert(0x3F00_0000int / 0x80_0000 == 126 && 0x3F00_0000int % 0x80_0000 == 0);
    let h = units(0x3F00_0000);
    assert(2 * h == d);
    lemma_rounding_is_exact(0x3F00_0000, 2 * d);
    assert(h * (2 * d) == d * d) by (nonlinear_arith)
        requires
            2 * h == d,
    ;
}

/// The sign of a difference.
proof fn lemma_gap(a: Scalar, b: Scalar)
    requires
        a.finite(),
        b.finite(),
        !a.negative(),
        !b.negative(),
    ensures
        a.difference(b).finite(),
        b.at_most(a) ==> Scalar::from_bits(ZERO).at_most(a.difference(b)),
        a.at_most(b) ==> a.difference(b).at_most(Scalar::from_bits(ZERO)),
{
    lemma_exact_order(a, b);
    let total = a.exact() - b.exact();
    assert(b.negated().exact() == -b.exact());
    if total > 0 {
        lemma_nearest_exists(total, 1);
    } else if total < 0 {
        lemma_nearest_exists(-total, 1);
    }
    crate::arith::lemma_taking_away(a, b.negated());
}

/// A negative factor turns the sign.
proof fn lemma_times_negative(factor: Scalar, x: Scalar)
    requires
        factor.finite(),
        factor.negative(),
        x.finite(),
    ensures
        Scalar::from_bits(ZERO).at_most(x) ==> factor.product(x).at_most(Scalar::from_bits(ZERO)),
        x.at_most(Scalar::from_bits(ZERO)) ==> Scalar::from_bits(ZERO).at_most(factor.product(x)),
{
    let d = unit_scale();
    let p = units(factor.magnitude());
    let q = units(x.magnitude());
    lemma_pow2_pos(149);
    lemma_units_order(0, factor.magnitude());
    lemma_units_order(0, x.magnitude());
    assert(0 <= p * q) by (nonlinear_arith)
        requires
            0 <= p,
            0 <= q,
    ;
    lemma_nearest_exists(p * q, d);
    if x.is_zero() {
        assert(units(0) == 0);
        lemma_rounding_is_exact(0, d);
        assert(p * 0 == 0);
    }
}

/// An arrival adds its weight times the weight of its synapse to the potential:
/// the potential does not fall, a heavier signal or synapse adds no less, and
/// the ceiling holds.
pub proof fn lemma_arrivals_raise_the_potential(
    gate: GateModel,
    arrival: QueuedRow,
    synapse_weight: Scalar,
    heavier_arrival: QueuedRow,
    heavier_synapse: Scalar,
)
    requires
        plain(gate.potential),
        plain(gate.max_potential),
        gate.potential.at_most(gate.max_potential),
        !arrival.weight.negative(),
        !synapse_weight.negative(),
        heavier_arrival.weight.finite(),
        !heavier_arrival.weight.negative(),
        heavier_synapse.finite(),
        !heavier_synapse.negative(),
        arrival.weight.at_most(heavier_arrival.weight),
        synapse_weight.at_most(heavier_synapse),
    ensures
        gate.potential.at_most(gate.offered(arrival, synapse_weight).potential),
        gate.offered(arrival, synapse_weight).potential.at_most(gate.max_potential),
        gate.offered(arrival, synapse_weight).potential.at_most(
            gate.offered(heavier_arrival, heavier_synapse).potential,
        ),
{
    let zero = Scalar::from_bits(ZERO);
    lemma_products_keep_order(
        arrival.weight,
        heavier_arrival.weight,
        synapse_weight,
        heavier_synapse,
    );
    let less = arrival.weight.product(synapse_weight);
    let more = heavier_arrival.weight.product(heavier_synapse);
    lemma_larger_sums(gate.potential, gate.potential, less, more);
    lemma_larger_sums(gate.potential, gate.potential, zero, less);
    if gate.potential.finite() {
        crate::learning::lemma_adding_zero(gate.potential);
    }
}

/// How much an arrival adds, in exact numbers: its weight times the weight of
/// its synapse, within rounding, unless the ceiling is reached.
pub proof fn lemma_an_arrival_adds_its_weight(
    gate: GateModel,
    arrival: QueuedRow,
    synapse_weight: Scalar,
)
    requires
        gate.potential.finite(),
        !gate.potential.negative(),
        gate.max_potential.finite(),
        !arrival.weight.negative(),
        arrival.weight.finite(),
        !synapse_weight.negative(),
        synapse_weight.magnitude() <= ONE,
    ensures
        ({
            let raised = gate.offered(arrival, synapse_weight).potential;
            let d = unit_scale();
            let asked = d * gate.potential.exact() + arrival.weight.exact() * synapse_weight.exact();
            let slack = d * raised.exact() + d * arrival.weight.exact() + 0x100_0000 * d;
            raised.below(gate.max_potential) ==> {
                &&& 0x100_0000 * (d * raised.exact() - asked) <= slack
                &&& 0x100_0000 * (asked - d * raised.exact()) <= slack
            }
        }),
{
    let d = unit_scale();
    lemma_pow2_pos(149);
    crate::arith::lemma_scaling_distance(arrival.weight, synapse_weight);
    crate::arith::lemma_shrinking(arrival.weight, synapse_weight);
    let c = arrival.weight.product(synapse_weight);
    lemma_sum_error(gate.potential, c);
    let sum = gate.potential.sum(c);
    let raised = gate.offered(arrival, synapse_weight).potential;
    if raised.below(gate.max_potential) {
        assert(raised == sum);
        let p = gate.potential.exact();
        let s = sum.exact();
        assert(sum.finite());
        assert(0x100_0000 * (s - (p + c.exact())) <= s && 0x100_0000 * ((p + c.exact()) - s) <= s);
        assert(0x100_0000 * (d * s - (d * p + d * c.exact())) <= d * s && 0x100_0000 * ((d * p + d
            * c.exact()) - d * s) <= d * s) by (nonlinear_arith)
            requires
                0x100_0000 * (s - (p + c.exact())) <= s,
                0x100_0000 * ((p + c.exact()) - s) <= s,
                0 < d,
        {
            assert(d * (0x100_0000 * (s - (p + c.exact()))) <= d * s);
            assert(d * (0x100_0000 * ((p + c.exact()) - s)) <= d * s);
        }
        assert(d * (arrival.weight.exact() + 0x100_0000) == d * arrival.weight.exact() + 0x100_0000
            * d) by (nonlinear_arith);
    }
}

/// Load raises the threshold: with a full share of the queue used it is the base
/// and that share again, within a few parts in `2^24`. Without the adjustment it
/// stays as it is.
pub proof fn lemma_the_threshold_follows_the_load(gate: GateModel)
    requires
        1 <= gate.max_queue_depth <= 0x100_0000,
        gate.queue.len() <= gate.max_queue_depth,
        gate.base_threshold.finite(),
        !gate.base_threshold.negative(),
        Scalar::from_bits(0x2080_0000).at_most(gate.base_threshold),
        gate.base_threshold.at_most(Scalar::from_bits(0x5F00_0000)),
    ensures
        ({
            let adjusted = gate.adjusted();
            let depth = gate.max_queue_depth as int;
            let exact = gate.base_threshold.exact() * (depth + gate.queue.len());
            &&& !gate.dynamic ==> adjusted == gate
            &&& gate.dynamic ==> adjusted == (GateModel { threshold: adjusted.threshold, ..gate })
            &&& gate.dynamic ==> adjusted.threshold.finite() && !adjusted.threshold.negative()
            &&& gate.dynamic ==> 0x100_0000 * (depth * adjusted.threshold.exact()) <= 0x100_0008
                * exact
            &&& gate.dynamic ==> 0xFF_FFF8 * exact <= 0x100_0000 * (depth
                * adjusted.threshold.exact())
        }),
{
    if gate.dynamic {
        lemma_load(gate);
        lemma_scaled_by_load(gate.base_threshold, gate.load(), gate.queue.len() as int, gate.max_queue_depth as int);
    }
}

/// The load is the used share of the queue.
pub proof fn lemma_load(gate: GateModel)
    requires
        1 <= gate.max_queue_depth <= 0x100_0000,
        gate.queue.len() <= gate.max_queue_depth,
    ensures
        ({
            let load = gate.load();
            let n = gate.queue.len() as int;
            let depth = gate.max_queue_depth as int;
            &&& load.between(Scalar::from_bits(ZERO), Scalar::from_bits(ONE))
            &&& !load.negative()
            &&& 0x100_0000 * (n * unit_scale()) <= 0x100_0001 * (depth * load.exact())
            &&& 0xFF_FFFF * (depth * load.exact()) <= 0x100_0000 * (n * unit_scale())
        }),
{
    let n = gate.queue.len() as int;
    let depth = gate.max_queue_depth as int;
    let d = unit_scale();
    let one = Scalar::from_bits(ONE);
    let zero = Scalar::from_bits(ZERO);
    lemma_natural(depth);
    lemma_units_of_one();
    lemma_pow2_pos(149);
    assert(units(0) == 0);
    let b = Scalar::natural(depth);
    assert(0 < depth * d) by (nonlinear_arith)
        requires
            1 <= depth,
            0 < d,
    ;
    assert(b.magnitude() > 0);
    if n == 0 {
        assert(0 * d == 0);
        lemma_rounding_is_exact(0, 1);
        assert(Scalar::natural(0) == zero);
        lemma_rounding_is_exact(0, depth * d);
        assert(zero.quotient(b) == zero);
        assert(gate.load() == zero);
        assert(depth * 0 == 0);
    } else {
        lemma_natural(n);
        let a = Scalar::natural(n);
        lemma2_to64();
        lemma2_to64_rest();
        lemma_pow2_adds(24, 76);
        lemma_pow2_pos(76);
        assert(0x100_0000 <= pow2(100)) by (nonlinear_arith)
            requires
                pow2(100) == 0x100_0000 * pow2(76),
                pow2(76) >= 1,
        ;
        assert(a.exact() <= b.exact() && b.exact() <= pow2(100) * a.exact() && a.exact() <= pow2(
            100,
        ) * b.exact() && 0 < a.exact()) by (nonlinear_arith)
            requires
                a.exact() == n * d,
                b.exact() == depth * d,
                1 <= n <= depth <= 0x100_0000 <= pow2(100),
                0 < d,
        {
            assert(n * d <= depth * d);
            assert(depth * d <= pow2(100) * d);
            assert(pow2(100) * d <= pow2(100) * (n * d));
            assert(n * d <= pow2(100) * (n * d));
            assert(n * d <= pow2(100) * (depth * d));
        }
        lemma_ratio_error(a, b);
        let q = a.quotient(b);
        let x = q.exact();
        lemma_exact_order(a, b);
        lemma_quotients_keep_order(a, b, b, b);
        assert(b.quotient(b) == one) by {
            lemma_rounding_is_exact(ONE as int, depth * d);
            assert(d * (depth * d) == (depth * d) * d) by (nonlinear_arith);
        }
        assert(gate.load() == q);
        let nd = n * d;
        let dx = depth * x;
        assert((a.exact()) * d == nd * d && b.exact() * x == dx * d) by (nonlinear_arith)
            requires
                a.exact() == nd,
                b.exact() == depth * d,
                dx == depth * x,
        ;
        assert(0x100_0000 * nd <= 0x100_0001 * dx && 0xFF_FFFF * dx <= 0x100_0000 * nd)
            by (nonlinear_arith)
            requires
                0x100_0000 * (nd * d) <= 0x100_0001 * (dx * d),
                0xFF_FFFF * (dx * d) <= 0x100_0000 * (nd * d),
                0 < d,
        {
            assert((0x100_0000 * nd) * d <= (0x100_0001 * dx) * d);
            assert((0xFF_FFFF * dx) * d <= (0x100_0000 * nd) * d);
        }
    }
}

/// A base and a share of it.
proof fn lemma_scaled_by_load(base: Scalar, load: Scalar, n: int, depth: int)
    requires
        0 <= n <= depth,
        1 <= depth,
        base.finite(),
        !base.negative(),
        Scalar::from_bits(0x2080_0000).at_most(base),
        base.at_most(Scalar::from_bits(0x5F00_0000)),
        load.between(Scalar::from_bits(ZERO), Scalar::from_bits(ONE)),
        !load.negative(),
        0x100_0000 * (n * unit_scale()) <= 0x100_0001 * (depth * load.exact()),
        0xFF_FFFF * (depth * load.exact()) <= 0x100_0000 * (n * unit_scale()),
    ensures
        ({
            let t = base.product(Scalar::from_bits(ONE).sum(load));
            let exact = base.exact() * (depth + n);
            &&& t.finite()
            &&& !t.negative()
            &&& 0x100_0000 * (depth * t.exact()) <= 0x100_0008 * exact
            &&& 0xFF_FFF8 * exact <= 0x100_0000 * (depth * t.exact())
        }),
{
    let one = Scalar::from_bits(ONE);
    let d = unit_scale();
    let x = load.exact();
    let s = one.sum(load);
    lemma_units_of_one();
    lemma2_to64();
    lemma2_to64_rest();
    lemma_units_order(load.magnitude(), ONE as int);
    let two_m = lemma_power(1);
    let two = Scalar { bits: two_m as u32 };
    lemma_sum_within(one, load, two);
    lemma_sum_error(one, load);
    crate::arith::lemma_adding_up(one, load);
    lemma_exact_order(one, s);
    let y = s.exact();
    lemma_exact_order(s, two);
    assert(d <= y <= 2 * d);
    let b = base.exact();
    // The product is normal and finite.
    let top = lemma_power(65);
    lemma_units_order(0x2080_0000, base.magnitude());
    lemma_units_order(base.magnitude(), 0x5F00_0000);
    assert(units(0x2080_0000) == 0x80_0000 * pow2(64)) by {
        assert(0x2080_0000int / 0x80_0000 == 65 && 0x2080_0000int % 0x80_0000 == 0);
    }
    let big = lemma_power(63);
    assert(big == 0x5F00_0000);
    assert(b <= pow2(63) * d);
    lemma_pow2_adds(2, 63);
    let h = HIDDEN_BIT as int;
    lemma_least_normal();
    assert(units(h) == h);
    lemma_rounding_is_exact(h, d);
    lemma_rounding_is_exact(top, d);
    let by = b * y;
    assert(h * d <= by && 0 <= h * d) by (nonlinear_arith)
        requires
            h <= b,
            d <= y,
            0 < d,
            0 < h,
            by == b * y,
    ;
    assert(by <= (pow2(65) * d) * d && 0 <= (pow2(65) * d) * d) by (nonlinear_arith)
        requires
            b <= pow2(63) * d,
            y <= 2 * d,
            0 <= y,
            0 < d,
            pow2(65) == 4 * pow2(63),
            0 < pow2(63),
            by == b * y,
    {
        assert(b * y <= (pow2(63) * d) * y);
        assert((pow2(63) * d) * y <= (pow2(63) * d) * (2 * d));
        assert((pow2(63) * d) * (2 * d) <= (4 * pow2(63) * d) * d);
    }
    assert((h * d) * d <= by * d && by * d <= ((pow2(65) * d) * d) * d) by (nonlinear_arith)
        requires
            h * d <= by,
            by <= (pow2(65) * d) * d,
            0 < d,
    ;
    lemma_rounding_is_monotone(h * d, d, by, d);
    lemma_rounding_is_monotone(by, d, (pow2(65) * d) * d, d);
    lemma_nearest_exists(by, d);
    crate::arith::lemma_rounding_error(by, d);
    let t = base.product(s);
    assert(t.magnitude() == rounded(by, d));
    let z = t.exact();
    let e: int = 0x100_0000;
    let dz = d * z;
    assert(e * by <= (e + 1) * dz && (e - 1) * dz <= e * by);
    assert(e * (d + x) <= (e + 1) * y && (e - 1) * y <= e * (d + x));
    // depth * (d + x) against (depth + n) * d.
    let lx = depth * x;
    let nd = n * d;
    let ld = depth * d;
    assert(0 <= ld && 0 <= lx) by (nonlinear_arith)
        requires
            ld == depth * d,
            lx == depth * x,
            1 <= depth,
            0 <= x,
            0 < d,
    ;
    let u = ld + lx;
    let v = ld + nd;
    assert(e * v <= (e + 1) * u && (e - 1) * u <= e * v);
    assert(u == depth * (d + x) && v == (depth + n) * d) by (nonlinear_arith)
        requires
            u == ld + lx,
            v == ld + nd,
            ld == depth * d,
            lx == depth * x,
            nd == n * d,
    ;
    let ly = depth * y;
    assert(e * u <= (e + 1) * ly && (e - 1) * ly <= e * u) by (nonlinear_arith)
        requires
            e * (d + x) <= (e + 1) * y,
            (e - 1) * y <= e * (d + x),
            u == depth * (d + x),
            ly == depth * y,
            1 <= depth,
    {
        assert(depth * (e * (d + x)) <= depth * ((e + 1) * y));
        assert(depth * ((e - 1) * y) <= depth * (e * (d + x)));
    }
    let lz = depth * z;
    let bv = b * v;
    let bu = b * u;
    let bly = b * ly;
    assert(e * bv <= (e + 1) * bu && (e - 1) * bu <= e * bv) by (nonlinear_arith)
        requires
            e * v <= (e + 1) * u,
            (e - 1) * u <= e * v,
            bv == b * v,
            bu == b * u,
            0 <= b,
    {
        assert(b * (e * v) <= b * ((e + 1) * u));
        assert(b * ((e - 1) * u) <= b * (e * v));
    }
    assert(e * bu <= (e + 1) * bly && (e - 1) * bly <= e * bu) by (nonlinear_arith)
        requires
            e * u <= (e + 1) * ly,
            (e - 1) * ly <= e * u,
            bly == b * ly,
            bu == b * u,
            0 <= b,
    {
        assert(b * (e * u) <= b * ((e + 1) * ly));
        assert(b * ((e - 1) * ly) <= b * (e * u));
    }
    let dlz = d * lz;
    assert(e * bly <= (e + 1) * dlz && (e - 1) * dlz <= e * bly) by (nonlinear_arith)
        requires
            e * by <= (e + 1) * dz,
            (e - 1) * dz <= e * by,
            by == b * y,
            dz == d * z,
            ly == depth * y,
            bly == b * ly,
            lz == depth * z,
            dlz == d * lz,
            1 <= depth,
    {
        assert(bly == depth * by);
        assert(dlz == depth * dz);
        assert(depth * (e * by) <= depth * ((e + 1) * dz));
        assert(depth * ((e - 1) * dz) <= depth * (e * by));
    }
    assert(0 <= bv && 0 <= dlz) by (nonlinear_arith)
        requires
            bv == b * v,
            0 <= b,
            0 <= v,
            dlz == d * lz,
            lz == depth * z,
            0 <= z,
            0 < d,
            1 <= depth,
    ;
    assert(e * dlz <= 0x100_0008 * bv && 0xFF_FFF8 * bv <= e * dlz);
    let w = b * (depth + n);
    assert(bv == w * d) by (nonlinear_arith)
        requires
            bv == b * v,
            v == (depth + n) * d,
            w == b * (depth + n),
    ;
    assert(e * lz <= 0x100_0008 * w && 0xFF_FFF8 * w <= e * lz) by (nonlinear_arith)
        requires
            e * dlz <= 0x100_0008 * bv,
            0xFF_FFF8 * bv <= e * dlz,
            dlz == d * lz,
            bv == w * d,
            0 < d,
    {
        assert((e * lz) * d <= (0x100_0008 * w) * d);
        assert((0xFF_FFF8 * w) * d <= (e * lz) * d);
    }
}

/// What a snapshot holds comes back: restored into a gate whose ceiling its
/// potential does not pass, it stands where the snapshot was taken.
pub proof fn lemma_a_snapshot_comes_back(
    gate: ActivationState,
    fresh: GateModel,
    taken_ns: u64,
    snapshot: ActivationSnapshot,
)
    requires
        call_ensures(ActivationState::snapshot, (&gate, taken_ns), snapshot),
        gate@.potential.between(Scalar::from_bits(ZERO), fresh.max_potential),
    ensures
        fresh.restored(snapshot).potential == gate@.potential,
        fresh.restored(snapshot).threshold == gate@.threshold,
        fresh.restored(snapshot).refractory_until_ns == gate@.refractory_until_ns,
        fresh.restored(snapshot).signals_fired == gate@.signals_fired,
        fresh.restored(snapshot).queue == fresh.queue,
        snapshot.taken_at_ns == taken_ns,
{
}

/// A snapshot whose potential passes the ceiling, or is below zero, is held at
/// the bound.
pub proof fn lemma_a_snapshot_is_held_at_the_ceiling(fresh: GateModel, snapshot: ActivationSnapshot)
    requires
        !snapshot.potential.nan(),
        Scalar::from_bits(ZERO).at_most(fresh.max_potential),
    ensures
        fresh.restored(snapshot).potential.between(Scalar::from_bits(ZERO), fresh.max_potential),
        fresh.max_potential.below(snapshot.potential) ==> fresh.restored(snapshot).potential
            == fresh.max_potential,
{
}

/// A sigmoid's exponent is ten times the gap between the threshold and the
/// potential.
pub proof fn lemma_the_steepness_is_ten()
    ensures
        Scalar::from_bits(crate::activation::STEEPNESS).negative(),
        crate::laws::orders::near(
            Scalar::from_bits(crate::activation::STEEPNESS).negated(),
            10,
            1,
        ),
{
    lemma2_to64();
    crate::laws::orders::lemma_pattern(Scalar::from_bits(0x4120_0000), 130, 0xA0_0000, 10, 1);
    assert(Scalar::from_bits(crate::activation::STEEPNESS).negated() == Scalar::from_bits(
        0x4120_0000,
    ));
}

} // verus!
