//! Laws of synapses: how their state follows their weight, what traffic and
//! failures leave on them.

use vstd::arithmetic::power2::{
    lemma2_to64, lemma2_to64_rest, lemma_pow2_adds, lemma_pow2_pos, pow2,
};
use vstd::prelude::*;

use crate::arith::{lemma_shrinking, lemma_units_of_one, unit_scale, units};
use crate::laws::orders::{
    lemma_exact_order, lemma_naturals_keep_order, lemma_pattern, lemma_quotients_keep_order,
    lemma_ratio_error, near,
};
use crate::learning::{penalised, rewarded, LearningConfig};
use crate::scalar::{Scalar, ONE, ZERO};
use crate::store::{
    bumped, count_of, count_total, counted, place_of, AffinityModel, Outcome, SynapseRow,
};
use crate::synapse::{affinity_share, SynapseSetup, SynapseState};

verus! {

/// The state of an established synapse is its weight's: active from the active
/// threshold up, dormant below the dormancy threshold, weakening in between. A
/// heavier synapse is never in a worse state.
pub proof fn lemma_the_state_follows_the_weight(
    state: SynapseState,
    weight: Scalar,
    heavier: Scalar,
    active: Scalar,
    dormancy: Scalar,
)
    requires
        state is Active || state is Weakening || state is Dormant,
        !active.nan(),
        !dormancy.nan(),
        dormancy.at_most(active),
        weight.at_most(heavier),
    ensures
        active.at_most(weight) ==> state.at_weight(weight, active, dormancy) is Active,
        dormancy.at_most(weight) && weight.below(active) ==> state.at_weight(
            weight,
            active,
            dormancy,
        ) is Weakening,
        weight.below(dormancy) ==> state.at_weight(weight, active, dormancy) is Dormant,
        state.at_weight(weight, active, dormancy) is Active ==> state.at_weight(
            heavier,
            active,
            dormancy,
        ) is Active,
        state.at_weight(heavier, active, dormancy) is Dormant ==> state.at_weight(
            weight,
            active,
            dormancy,
        ) is Dormant,
{
}

/// Only active and weakening synapses carry signals.
pub proof fn lemma_which_states_carry(state: SynapseState, answer: bool)
    requires
        call_ensures(SynapseState::can_carry, (state,), answer),
    ensures
        answer <==> state is Active || state is Weakening,
{
}

/// A transmission is counted once, at its instant, for its type. The average
/// latency is the first sample, and then lies between what it was and the
/// sample, a tenth of the way. Nothing that was learned changes.
pub proof fn lemma_a_transmission_is_counted(
    row: SynapseRow,
    latency_ns: u64,
    signal_type: Seq<char>,
    now_ns: u64,
)
    ensures
        ({
            let after = row.transmitted(latency_ns, signal_type, now_ns);
            &&& row.signals_transmitted < u64::MAX ==> after.signals_transmitted
                == row.signals_transmitted + 1
            &&& after.last_active_ns == now_ns
            &&& row.avg_latency_ns == 0 ==> after.avg_latency_ns == latency_ns
            &&& row.avg_latency_ns != 0 && row.avg_latency_ns <= latency_ns ==> row.avg_latency_ns
                <= after.avg_latency_ns <= latency_ns
            &&& row.avg_latency_ns != 0 && latency_ns <= row.avg_latency_ns ==> latency_ns
                <= after.avg_latency_ns <= row.avg_latency_ns
            &&& row.avg_latency_ns != 0 ==> 10 * after.avg_latency_ns <= 9 * row.avg_latency_ns
                + latency_ns < 10 * after.avg_latency_ns + 10
            &&& after.type_affinity == bumped(row.type_affinity, signal_type)
            &&& after.weight == row.weight
            &&& after.state == row.state
            &&& after.id == row.id && after.peer == row.peer
            &&& after.established_at_ns == row.established_at_ns
            &&& after.signals_received == row.signals_received
            &&& after.signature_failures == row.signature_failures
            &&& after.failure_window_start_ns == row.failure_window_start_ns
            &&& row.error_rate.finite() && !row.error_rate.negative() ==> after.error_rate.at_most(
                row.error_rate,
            )
        }),
{
    if row.error_rate.finite() && !row.error_rate.negative() {
        lemma_shrinking(row.error_rate, Scalar::from_bits(0x3F7D_70A4));
    }
}

/// Counting a type adds one to it and to the total, and leaves the others.
pub proof fn lemma_counting_a_type(m: AffinityModel, name: Seq<char>, other: Seq<char>)
    requires
        other != name,
        count_of(m, name) < u64::MAX,
    ensures
        count_of(bumped(m, name), name) == count_of(m, name) + 1,
        count_of(bumped(m, name), other) == count_of(m, other),
{
    let after = bumped(m, name);
    if counted(m, name) {
        lemma_place(m, name);
        let i = place_of(m, name);
        assert(after[i].0 == name);
        lemma_first(after, name, i);
        if counted(m, other) {
            lemma_place(m, other);
            let j = place_of(m, other);
            assert(after[j].0 == other);
            lemma_first(after, other, j);
        } else {
            assert forall|j: int| 0 <= j < after.len() implies (#[trigger] after[j]).0 != other by {
                assert(m[j].0 != other);
            }
        }
    } else {
        let i = m.len() as int;
        assert(after[i].0 == name);
        assert forall|j: int| 0 <= j < i implies (#[trigger] after[j]).0 != name by {
            assert(m[j].0 != name);
        }
        lemma_first(after, name, i);
        if counted(m, other) {
            lemma_place(m, other);
            let j = place_of(m, other);
            assert(after[j].0 == other);
            assert forall|k: int| 0 <= k < j implies (#[trigger] after[k]).0 != other by {
                assert(m[k].0 != other);
            }
            lemma_first(after, other, j);
        } else {
            assert forall|j: int| 0 <= j < after.len() implies (#[trigger] after[j]).0 != other by {
                if j < m.len() {
                    assert(m[j].0 != other);
                }
            }
        }
    }
}

/// The first place where a name has its count is one.
pub proof fn lemma_place(m: AffinityModel, name: Seq<char>)
    requires
        counted(m, name),
    ensures
        ({
            let i = place_of(m, name);
            &&& 0 <= i < m.len()
            &&& m[i].0 == name
            &&& forall|j: int| 0 <= j < i ==> (#[trigger] m[j]).0 != name
        }),
{
    let k = choose|k: int| 0 <= k < m.len() && (#[trigger] m[k]).0 == name;
    lemma_first_place(m, name, k);
}

/// There is a first place at or before one.
proof fn lemma_first_place(m: AffinityModel, name: Seq<char>, k: int)
    requires
        0 <= k < m.len(),
        m[k].0 == name,
    ensures
        exists|i: int|
            0 <= i < m.len() && (#[trigger] m[i]).0 == name && forall|j: int|
                0 <= j < i ==> (#[trigger] m[j]).0 != name,
    decreases k,
{
    if exists|j: int| 0 <= j < k && (#[trigger] m[j]).0 == name {
        let j = choose|j: int| 0 <= j < k && (#[trigger] m[j]).0 == name;
        lemma_first_place(m, name, j);
    } else {
        assert(m[k].0 == name);
    }
}

/// A first place is the place.
proof fn lemma_first(m: AffinityModel, name: Seq<char>, i: int)
    requires
        0 <= i < m.len(),
        m[i].0 == name,
        forall|j: int| 0 <= j < i ==> (#[trigger] m[j]).0 != name,
    ensures
        counted(m, name),
        place_of(m, name) == i,
{
    assert(m[i].0 == name);
    lemma_place(m, name);
    let p = place_of(m, name);
    if p < i {
        assert(m[p].0 != name);
    } else if i < p {
        assert(m[i].0 != name);
    }
}

/// The share of a type is its part of all that was carried, within a few parts
/// in `2^24`, and none where nothing was carried or nothing of the type.
pub proof fn lemma_a_share_is_a_part_of_the_whole(m: AffinityModel, name: Seq<char>)
    ensures
        ({
            let share = affinity_share(m, name);
            let part = count_of(m, name) as int;
            let whole = count_total(m) as int;
            &&& whole == 0 ==> share == Scalar::from_bits(ZERO)
            &&& whole > 0 && part == 0 ==> share == Scalar::from_bits(ZERO)
            &&& 0 < part <= whole ==> {
                &&& share.between(Scalar::from_bits(ZERO), Scalar::from_bits(ONE))
                &&& !share.negative()
                &&& 0x100_0000 * (whole * share.exact()) <= 0x100_0008 * (part * unit_scale())
                &&& 0xFF_FFF8 * (part * unit_scale()) <= 0x100_0000 * (whole * share.exact())
            }
        }),
{
    let part = count_of(m, name) as int;
    let whole = count_total(m) as int;
    if whole > 0 && part <= whole {
        lemma_a_part_of_a_whole(part, whole);
    }
    if whole > 0 {
        lemma_a_part_of_a_whole(0, whole);
    }
}

/// The quotient of two counts is the one's part of the other, within a few parts
/// in `2^24`.
pub proof fn lemma_a_part_of_a_whole(part: int, whole: int)
    requires
        0 <= part <= whole <= u64::MAX,
        0 < whole,
    ensures
        ({
            let share = Scalar::natural(part).quotient(Scalar::natural(whole));
            &&& part == 0 ==> share == Scalar::from_bits(ZERO)
            &&& 0 < part ==> {
                &&& share.finite()
                &&& share.exact() > 0
                &&& share.between(Scalar::from_bits(ZERO), Scalar::from_bits(ONE))
                &&& !share.negative()
                &&& 0x100_0000 * (whole * share.exact()) <= 0x100_0008 * (part * unit_scale())
                &&& 0xFF_FFF8 * (part * unit_scale()) <= 0x100_0000 * (whole * share.exact())
            }
        }),
{
    let d = unit_scale();
    let one = Scalar::from_bits(ONE);
    let zero = Scalar::from_bits(ZERO);
    lemma_units_of_one();
    lemma_pow2_pos(149);
    assert(units(0) == 0);
    if whole > 0 {
        lemma_naturals_keep_order(whole, whole);
        let b = Scalar::natural(whole);
        assert(b.magnitude() > 0);
        if part == 0 {
            lemma_naturals_keep_order(0, 0);
            crate::arith::lemma_rounding_is_exact(0, b.exact());
            let x = b.exact();
            assert(0 * x == 0 && 0 * d == 0) by (nonlinear_arith);
            assert(zero.exact() == 0);
            assert(zero.quotient(b) == zero);
        } else if part <= whole {
            lemma_naturals_keep_order(part, whole);
            let a = Scalar::natural(part);
            lemma2_to64();
            lemma2_to64_rest();
            lemma_pow2_adds(64, 36);
            lemma_exact_order(a, b);
            assert(b.exact() <= pow2(100) * a.exact() && a.exact() <= pow2(100) * b.exact())
                by (nonlinear_arith)
                requires
                    d <= a.exact() <= b.exact(),
                    b.exact() <= pow2(64) * d,
                    0 < d,
                    pow2(100) == pow2(64) * pow2(36),
                    pow2(36) >= 1,
                    pow2(64) >= 1,
            {
                assert(pow2(64) * d <= pow2(64) * a.exact());
                assert(pow2(64) * a.exact() <= (pow2(64) * pow2(36)) * a.exact());
                assert(pow2(100) >= 1);
                assert(b.exact() <= pow2(100) * b.exact());
            }
            lemma_ratio_error(a, b);
            lemma_quotients_keep_order(a, b, b, b);
            assert(b.quotient(b) == one) by {
                crate::arith::lemma_rounding_is_exact(ONE as int, b.exact());
                let x = b.exact();
                assert(d * x == x * d) by (nonlinear_arith);
            }
            let share = a.quotient(b);
            // The counts themselves are rounded.
            assert(0 < part * d && 0 < whole * d) by (nonlinear_arith)
                requires
                    0 < part,
                    0 < whole,
                    0 < d,
            ;
            crate::arith::lemma_whole_error(part * d);
            crate::arith::lemma_whole_error(whole * d);
            lemma_share_error(
                part,
                whole,
                d,
                a.exact(),
                b.exact(),
                share.exact(),
            );
        }
    }
}

/// The rounding of two counts and of their quotient.
proof fn lemma_share_error(part: int, whole: int, d: int, a: int, b: int, s: int)
    requires
        0 < part,
        0 < whole,
        0 < d,
        0 < a,
        0 < b,
        0 <= s,
        0x100_0000 * (part * d) <= 0x100_0001 * a,
        0xFF_FFFF * a <= 0x100_0000 * (part * d),
        0x100_0000 * (whole * d) <= 0x100_0001 * b,
        0xFF_FFFF * b <= 0x100_0000 * (whole * d),
        0x100_0000 * (a * d) <= 0x100_0001 * (b * s),
        0xFF_FFFF * (b * s) <= 0x100_0000 * (a * d),
    ensures
        0x100_0000 * (whole * s) <= 0x100_0008 * (part * d),
        0xFF_FFF8 * (part * d) <= 0x100_0000 * (whole * s),
{
    let e: int = 0x100_0000;
    let pd = part * d;
    let wd = whole * d;
    let ws = whole * s;
    let ad = a * d;
    let bs = b * s;
    let pdd = pd * d;
    let wsd = ws * d;
    assert(e * pdd <= (e + 1) * ad && (e - 1) * ad <= e * pdd) by (nonlinear_arith)
        requires
            e * pd <= (e + 1) * a,
            (e - 1) * a <= e * pd,
            pdd == pd * d,
            ad == a * d,
            0 < d,
    {
        assert((e * pd) * d <= ((e + 1) * a) * d);
        assert(((e - 1) * a) * d <= (e * pd) * d);
    }
    assert(e * wsd <= (e + 1) * bs && (e - 1) * bs <= e * wsd) by (nonlinear_arith)
        requires
            e * wd <= (e + 1) * b,
            (e - 1) * b <= e * wd,
            wd == whole * d,
            ws == whole * s,
            wsd == ws * d,
            bs == b * s,
            0 <= s,
    {
        assert((e * wd) * s <= ((e + 1) * b) * s);
        assert(((e - 1) * b) * s <= (e * wd) * s);
        assert(wd * s == wsd);
    }
    assert(0 <= pdd && 0 <= bs && 0 <= ad && 0 <= wsd) by (nonlinear_arith)
        requires
            pdd == pd * d,
            pd == part * d,
            bs == b * s,
            ad == a * d,
            wsd == ws * d,
            ws == whole * s,
            0 < part,
            0 < whole,
            0 < a,
            0 < b,
            0 < d,
            0 <= s,
    ;
    assert(e * wsd <= 0x100_0008 * pdd && 0xFF_FFF8 * pdd <= e * wsd);
    assert(e * ws <= 0x100_0008 * pd && 0xFF_FFF8 * pd <= e * ws) by (nonlinear_arith)
        requires
            e * wsd <= 0x100_0008 * pdd,
            0xFF_FFF8 * pdd <= e * wsd,
            wsd == ws * d,
            pdd == pd * d,
            0 < d,
    {
        assert((e * ws) * d <= (0x100_0008 * pd) * d);
        assert((0xFF_FFF8 * pd) * d <= (e * ws) * d);
    }
}

/// A bad signature is counted in its window: within the window failures add up,
/// after it the count starts anew, and at the threshold the synapse is pruned,
/// there and then. Below it the synapse is not pruned.
pub proof fn lemma_bad_signatures_add_up(
    row: SynapseRow,
    now_ns: u64,
    learning: LearningConfig,
    active: Scalar,
    dormancy: Scalar,
)
    requires
        row.failure_window_start_ns <= now_ns,
        row.signature_failures < u32::MAX,
    ensures
        ({
            let after = row.distrusted(now_ns, learning, active, dormancy);
            let window = learning.influence_window_secs * 1_000_000_000;
            &&& now_ns - row.failure_window_start_ns < window ==> after.signature_failures
                == row.signature_failures + 1 && after.failure_window_start_ns
                == row.failure_window_start_ns
            &&& row.failure_window_start_ns + window < now_ns ==> after.signature_failures == 1
                && after.failure_window_start_ns == now_ns
            &&& after.signature_failures >= learning.signature_failure_prune_threshold
                ==> after.state is Pruned && after.last_active_ns == now_ns
            &&& after.signature_failures < learning.signature_failure_prune_threshold && !(row.state
                is Pruned) ==> !(after.state is Pruned) && after.last_active_ns
                == row.last_active_ns
            &&& !learning.enabled ==> after.weight == row.weight
            &&& learning.enabled ==> after.weight == penalised(row.weight, learning)
            &&& after.id == row.id && after.peer == row.peer
            &&& after.type_affinity == row.type_affinity
            &&& after.established_at_ns == row.established_at_ns
            &&& after.signals_transmitted == row.signals_transmitted
        }),
{
}

/// What an outcome leaves on a synapse: the weight that learning gives, held at
/// the synapse's own bound, and the state of that weight. Nothing else but the
/// count of the signal's type changes, and that only upward after a delivery.
pub proof fn lemma_an_outcome_moves_weight_and_state(
    row: SynapseRow,
    outcome: Outcome,
    signal_weight: Scalar,
    signal_type: Seq<char>,
    used: Scalar,
    learning: LearningConfig,
    max_weight: Scalar,
    active: Scalar,
    dormancy: Scalar,
)
    ensures
        ({
            let after = row.learned(
                outcome,
                signal_weight,
                signal_type,
                used,
                learning,
                max_weight,
                active,
                dormancy,
            );
            let update = rewarded(row.weight, outcome, signal_weight, used, learning);
            &&& !update.after.nan() && update.after.at_most(max_weight) ==> after.weight
                == update.after
            &&& max_weight.below(update.after) ==> after.weight == max_weight
            &&& after.state == row.state.at_weight(after.weight, active, dormancy)
            &&& row.state is Pruned ==> after.state is Pruned
            &&& row.state is Forming ==> after.state is Forming
            &&& after.type_affinity == row.type_affinity || after.type_affinity == bumped(
                row.type_affinity,
                signal_type,
            )
            &&& after.last_active_ns == row.last_active_ns
            &&& after.avg_latency_ns == row.avg_latency_ns
            &&& after.signals_transmitted == row.signals_transmitted
            &&& after.signature_failures == row.signature_failures
            &&& after.id == row.id && after.peer == row.peer
        }),
{
}

/// Only a delivery counts for a type: after a failure the counts stay.
pub proof fn lemma_only_a_delivery_counts_for_a_type(
    row: SynapseRow,
    outcome: Outcome,
    signal_weight: Scalar,
    signal_type: Seq<char>,
    used: Scalar,
    learning: LearningConfig,
    max_weight: Scalar,
    active: Scalar,
    dormancy: Scalar,
)
    requires
        !(outcome is Delivered),
        affinity_share(row.type_affinity, signal_type).between(
            Scalar::from_bits(ZERO),
            Scalar::from_bits(ONE),
        ),
        !affinity_share(row.type_affinity, signal_type).negative(),
        Scalar::from_bits(ZERO).below(learning.learning_rate),
        learning.learning_rate.at_most(Scalar::from_bits(ONE)),
    ensures
        row.learned(
            outcome,
            signal_weight,
            signal_type,
            used,
            learning,
            max_weight,
            active,
            dormancy,
        ).type_affinity == row.type_affinity,
{
    let share = affinity_share(row.type_affinity, signal_type);
    crate::laws::adjustments::lemma_failures_lower_affinity(share, outcome, learning);
}

/// A new synapse is forming, with the configured weight, no traffic, no faults
/// and no counts.
pub proof fn lemma_a_new_synapse_is_blank(
    id: Seq<char>,
    peer: Seq<u8>,
    setup: SynapseSetup,
    now_ns: u64,
)
    ensures
        ({
            let row = SynapseRow::formed(id, peer, setup, now_ns);
            &&& row.id == id && row.peer == peer
            &&& row.state is Forming
            &&& row.weight == setup.initial_weight
            &&& row.established_at_ns == now_ns && row.last_active_ns == now_ns
            &&& row.signals_transmitted == 0 && row.signals_received == 0
            &&& row.avg_latency_ns == 0
            &&& row.signature_failures == 0 && row.failure_window_start_ns == 0
            &&& row.error_rate.is_zero()
            &&& row.type_affinity.len() == 0
        }),
{
}

/// The defaults of synapses: a tenth to begin with and to be active, a hundredth
/// to stay awake, a week until pruning, a thousand in all.
pub proof fn lemma_synapse_defaults()
    ensures
        ({
            let c = SynapseSetup::defaults();
            &&& near(c.initial_weight, 1, 10)
            &&& near(c.active_threshold, 1, 10)
            &&& near(c.dormancy_threshold, 1, 100)
            &&& near(c.decay_rate, 1, 100)
            &&& near(c.max_weight, 1, 1)
            &&& near(c.attenuation_factor, 9, 10)
            &&& c.prune_after_hours == 168
            &&& c.max_synapses == 1000
        }),
{
    lemma2_to64();
    lemma_pattern(Scalar::from_bits(0x3DCC_CCCD), 123, 0xCC_CCCD, 1, 10);
    lemma_pattern(Scalar::from_bits(0x3C23_D70A), 120, 0xA3_D70A, 1, 100);
    lemma_pattern(Scalar::from_bits(0x3F80_0000), 127, 0x80_0000, 1, 1);
    lemma_pattern(Scalar::from_bits(0x3F66_6666), 126, 0xE6_6666, 9, 10);
}

} // verus!
