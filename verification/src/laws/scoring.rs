//! Laws of scoring: what the score of a synapse follows.

use vstd::arithmetic::power2::{
    lemma2_to64, lemma2_to64_rest, lemma_pow2_adds, lemma_pow2_pos, pow2,
};
use vstd::prelude::*;

use crate::arith::{lemma_scaling_distance, lemma_sum_error, lemma_units_of_one, unit_scale, units};
use crate::laws::orders::{
    lemma_larger_sums, lemma_naturals_keep_order, lemma_pattern, lemma_power,
    lemma_products_keep_order, lemma_quotients_keep_order, lemma_share, lemma_sum_within, near,
    plain,
};
use crate::propagation::{
    latency_score, recency_score, score_of, score_synapse, ScoringWeights, HOUR, NANOS_PER_MILLI,
};
use crate::scalar::{Scalar, ONE, ZERO};
use crate::store::SynapseRow;
use crate::synapse::{affinity_share, Synapse};

verus! {

/// Whether the factors of a score are numbers that are not negative.
pub open spec fn sound_factors(weights: ScoringWeights) -> bool {
    &&& weights.weight_factor.finite() && !weights.weight_factor.negative()
    &&& weights.latency_factor.finite() && !weights.latency_factor.negative()
    &&& weights.affinity_factor.finite() && !weights.affinity_factor.negative()
    &&& weights.recency_factor.finite() && !weights.recency_factor.negative()
}

/// The patterns of a million and of the nanoseconds of an hour.
proof fn lemma_spans()
    ensures
        ({
            let milli = Scalar::from_bits(NANOS_PER_MILLI);
            let hour = Scalar::from_bits(HOUR);
            &&& milli.finite() && !milli.negative()
            &&& hour.finite() && !hour.negative()
            &&& milli.exact() == 1_000_000 * unit_scale()
            &&& 0xFF_FFFF * (3_600_000_000_000 * unit_scale()) <= 0x100_0000 * hour.exact()
            &&& 0x100_0000 * hour.exact() <= 0x100_0001 * (3_600_000_000_000 * unit_scale())
            &&& unit_scale() > 0
        }),
{
    lemma2_to64();
    lemma2_to64_rest();
    lemma_pow2_pos(149);
    // 0x49742400 is 0xF42400 * 2^(146 - 1), and one unit is 2^-149.
    assert(NANOS_PER_MILLI as int / 0x80_0000 == 146 && NANOS_PER_MILLI as int % 0x80_0000
        == 0x74_2400);
    assert(HOUR as int / 0x80_0000 == 168 && HOUR as int % 0x80_0000 == 0x51_8C2E);
    lemma_pow2_pos(145);
    lemma_pow2_adds(145, 4);
    lemma_pow2_adds(149, 18);
    assert(units(NANOS_PER_MILLI as int) == 0xF4_2400 * pow2(145));
    assert(units(HOUR as int) == 0xD1_8C2E * pow2(167));
    assert(units(HOUR as int) == (0xD1_8C2E * 0x4_0000) * unit_scale()) by (nonlinear_arith)
        requires
            units(HOUR as int) == 0xD1_8C2E * pow2(167),
            pow2(167) == unit_scale() * 0x4_0000,
    ;
}

/// A latency counts by its milliseconds: the score is one over one and the
/// milliseconds, within a few parts in `2^24`, and so is one where none is
/// known and halves at a millisecond.
pub proof fn lemma_latency_counts_in_milliseconds(avg_latency_ns: u64)
    ensures
        ({
            let score = latency_score(avg_latency_ns);
            &&& score.between(Scalar::from_bits(ZERO), Scalar::from_bits(ONE))
            &&& score.exact() > 0
            &&& 0x100_0000 * (score.exact() * (1_000_000 + avg_latency_ns)) <= 0x100_0008 * (
            1_000_000 * unit_scale())
            &&& 0xFF_FFF8 * (1_000_000 * unit_scale()) <= 0x100_0000 * (score.exact() * (1_000_000
                + avg_latency_ns))
        }),
{
    lemma_spans();
    lemma2_to64_rest();
    lemma_share(avg_latency_ns as int, Scalar::from_bits(NANOS_PER_MILLI), 1_000_000);
    if avg_latency_ns == 0 {
        lemma_units_of_one();
    }
}

/// Recency counts by the hours since the last activity: the score is one over
/// one and the hours, within a few parts in `2^24`. What was active now, or
/// later than now, scores one.
pub proof fn lemma_recency_counts_in_hours(now_ns: u64, last_active_ns: u64)
    ensures
        ({
            let score = recency_score(now_ns, last_active_ns);
            let idle = if now_ns > last_active_ns {
                now_ns - last_active_ns
            } else {
                0
            };
            &&& score.between(Scalar::from_bits(ZERO), Scalar::from_bits(ONE))
            &&& score.exact() > 0
            &&& 0x100_0000 * (score.exact() * (3_600_000_000_000 + idle)) <= 0x100_0008 * (
            3_600_000_000_000 * unit_scale())
            &&& 0xFF_FFF8 * (3_600_000_000_000 * unit_scale()) <= 0x100_0000 * (score.exact() * (
            3_600_000_000_000 + idle))
        }),
{
    let idle = if now_ns > last_active_ns {
        now_ns - last_active_ns
    } else {
        0
    };
    lemma_spans();
    lemma2_to64_rest();
    lemma_share(idle, Scalar::from_bits(HOUR), 3_600_000_000_000);
    if idle == 0 {
        lemma_naturals_keep_order(0, 0);
        lemma_units_of_one();
        let hour = Scalar::from_bits(HOUR);
        let zero = Scalar::from_bits(ZERO);
        assert(units(0) == 0);
        assert(hour.exact() > 0);
        crate::arith::lemma_rounding_is_exact(0, hour.exact());
        assert(zero.quotient(hour) == zero);
    }
}

/// What falls with a count: the more of it, the lower the score.
proof fn lemma_shares_fall(m: int, n: int, span: Scalar)
    requires
        0 <= m <= n <= u64::MAX,
        span.finite(),
        Scalar::from_bits(ZERO).below(span),
    ensures
        ({
            let one = Scalar::from_bits(ONE);
            let a = one.quotient(one.sum(Scalar::natural(m).quotient(span)));
            let b = one.quotient(one.sum(Scalar::natural(n).quotient(span)));
            &&& b.at_most(a)
            &&& a.at_most(one)
            &&& plain(b)
        }),
{
    let one = Scalar::from_bits(ONE);
    let zero = Scalar::from_bits(ZERO);
    lemma_units_of_one();
    lemma_naturals_keep_order(m, n);
    lemma_naturals_keep_order(m, m);
    let x = Scalar::natural(m);
    let y = Scalar::natural(n);
    lemma_quotients_keep_order(x, y, span, span);
    let p = x.quotient(span);
    let q = y.quotient(span);
    lemma_larger_sums(one, one, p, q);
    lemma_larger_sums(one, one, zero, p);
    assert(one.sum(zero) == one) by {
        assert(units(0) == 0);
        crate::arith::lemma_rounding_is_exact(ONE as int, 1);
        assert(units(ONE as int) * 1 == units(ONE as int));
    }
    lemma_quotients_keep_order(one, one, one.sum(p), one.sum(q));
    lemma_quotients_keep_order(one, one, one, one.sum(p));
    assert(one.quotient(one) == one) by {
        crate::arith::lemma_rounding_is_exact(ONE as int, unit_scale());
    }
}

/// The score follows its parts: for synapses of which one is at least as heavy,
/// at least as fast, at least as affine to the signal's type and was active at
/// least as lately, that one scores at least as high. A latency of zero is none
/// known, and counts as the fastest.
pub proof fn lemma_a_better_synapse_scores_no_lower(
    better: SynapseRow,
    worse: SynapseRow,
    signal_type: Seq<char>,
    now_ns: u64,
    weights: ScoringWeights,
)
    requires
        sound_factors(weights),
        better.weight.finite(),
        !worse.weight.negative(),
        !better.weight.negative(),
        worse.weight.at_most(better.weight),
        affinity_share(better.type_affinity, signal_type).finite(),
        !affinity_share(better.type_affinity, signal_type).negative(),
        !affinity_share(worse.type_affinity, signal_type).negative(),
        affinity_share(worse.type_affinity, signal_type).at_most(
            affinity_share(better.type_affinity, signal_type),
        ),
        better.avg_latency_ns == 0 || better.avg_latency_ns <= worse.avg_latency_ns,
        worse.last_active_ns <= better.last_active_ns || now_ns <= better.last_active_ns,
    ensures
        score_of(worse, signal_type, now_ns, weights).at_most(
            score_of(better, signal_type, now_ns, weights),
        ),
{
    let one = Scalar::from_bits(ONE);
    let zero = Scalar::from_bits(ZERO);
    lemma_spans();
    lemma_units_of_one();
    let milli = Scalar::from_bits(NANOS_PER_MILLI);
    let hour = Scalar::from_bits(HOUR);
    assert(units(0) == 0);
    lemma_shares_fall(better.avg_latency_ns as int, worse.avg_latency_ns as int + (
    if better.avg_latency_ns <= worse.avg_latency_ns {
        0int
    } else {
        better.avg_latency_ns - worse.avg_latency_ns
    }), milli);
    lemma_shares_fall(worse.avg_latency_ns as int, worse.avg_latency_ns as int, milli);
    assert(latency_score(worse.avg_latency_ns).at_most(latency_score(better.avg_latency_ns)));
    let young = if now_ns > better.last_active_ns {
        now_ns - better.last_active_ns
    } else {
        0
    };
    let old_age = if now_ns > worse.last_active_ns {
        now_ns - worse.last_active_ns
    } else {
        0
    };
    lemma_shares_fall(young, old_age, hour);
    lemma_naturals_keep_order(0, 0);
    crate::arith::lemma_rounding_is_exact(0, hour.exact());
    assert(zero.quotient(hour) == zero);
    assert(recency_score(now_ns, worse.last_active_ns).at_most(
        recency_score(now_ns, better.last_active_ns),
    ));
    let a = affinity_share(worse.type_affinity, signal_type);
    let b = affinity_share(better.type_affinity, signal_type);
    lemma_products_keep_order(
        worse.weight,
        better.weight,
        weights.weight_factor,
        weights.weight_factor,
    );
    let lw = latency_score(worse.avg_latency_ns);
    let lb = latency_score(better.avg_latency_ns);
    lemma_latency_counts_in_milliseconds(worse.avg_latency_ns);
    lemma_latency_counts_in_milliseconds(better.avg_latency_ns);
    lemma_signs(lw);
    lemma_signs(lb);
    lemma_products_keep_order(lw, lb, weights.latency_factor, weights.latency_factor);
    lemma_products_keep_order(a, b, weights.affinity_factor, weights.affinity_factor);
    let rw = recency_score(now_ns, worse.last_active_ns);
    let rb = recency_score(now_ns, better.last_active_ns);
    lemma_recency_counts_in_hours(now_ns, worse.last_active_ns);
    lemma_recency_counts_in_hours(now_ns, better.last_active_ns);
    lemma_signs(rw);
    lemma_signs(rb);
    lemma_products_keep_order(rw, rb, weights.recency_factor, weights.recency_factor);
    let w1 = worse.weight.product(weights.weight_factor);
    let b1 = better.weight.product(weights.weight_factor);
    let w2 = lw.product(weights.latency_factor);
    let b2 = lb.product(weights.latency_factor);
    let w3 = a.product(weights.affinity_factor);
    let b3 = b.product(weights.affinity_factor);
    lemma_larger_sums(w1, b1, w2, b2);
    lemma_larger_sums(w1.sum(w2), b1.sum(b2), w3, b3);
    lemma_larger_sums(
        w1.sum(w2).sum(w3),
        b1.sum(b2).sum(b3),
        rw.product(weights.recency_factor),
        rb.product(weights.recency_factor),
    );
}

/// A score of a part is one that has a positive value, so it has no sign.
proof fn lemma_signs(score: Scalar)
    requires
        score.between(Scalar::from_bits(ZERO), Scalar::from_bits(ONE)),
        score.exact() > 0,
    ensures
        !score.negative(),
        score.finite(),
{
    if score.negative() {
        crate::laws::orders::lemma_units_order(0, score.magnitude());
    }
}

/// A term of a score: the part times its factor.
proof fn lemma_term(part: Scalar, factor: Scalar)
    requires
        !part.negative(),
        !factor.negative(),
        part.magnitude() <= ONE,
        factor.magnitude() <= ONE,
    ensures
        ({
            let p = part.product(factor);
            let d = unit_scale();
            &&& p.finite() && !p.negative()
            &&& 0 <= p.exact() <= d
            &&& 0x100_0000 * (d * p.exact() - part.exact() * factor.exact()) <= 2 * (d * d)
            &&& 0x100_0000 * (part.exact() * factor.exact() - d * p.exact()) <= 2 * (d * d)
        }),
{
    let d = unit_scale();
    lemma_units_of_one();
    crate::laws::orders::lemma_units_order(part.magnitude(), ONE as int);
    lemma_scaling_distance(part, factor);
    crate::arith::lemma_shrinking(part, factor);
    lemma2_to64();
    lemma_pow2_adds(24, 125);
    lemma_pow2_pos(125);
    assert(0x100_0000 <= d) by (nonlinear_arith)
        requires
            d == 0x100_0000 * pow2(125),
            pow2(125) >= 1,
    ;
    assert(d * (part.exact() + 0x100_0000) <= 2 * (d * d)) by (nonlinear_arith)
        requires
            0 <= part.exact() <= d,
            0x100_0000 <= d,
    ;
}

/// The score is the weighted sum of the weight, the latency's score, the share
/// of the signal's type and the recency's score, each times its own factor,
/// within some parts in `2^24` of one.
pub proof fn lemma_the_score_is_a_weighted_sum(
    row: SynapseRow,
    signal_type: Seq<char>,
    now_ns: u64,
    weights: ScoringWeights,
)
    requires
        sound_factors(weights),
        weights.weight_factor.magnitude() <= ONE,
        weights.latency_factor.magnitude() <= ONE,
        weights.affinity_factor.magnitude() <= ONE,
        weights.recency_factor.magnitude() <= ONE,
        !row.weight.negative(),
        row.weight.magnitude() <= ONE,
        !affinity_share(row.type_affinity, signal_type).negative(),
        affinity_share(row.type_affinity, signal_type).magnitude() <= ONE,
    ensures
        ({
            let d = unit_scale();
            let exact = row.weight.exact() * weights.weight_factor.exact() + latency_score(
                row.avg_latency_ns,
            ).exact() * weights.latency_factor.exact() + affinity_share(
                row.type_affinity,
                signal_type,
            ).exact() * weights.affinity_factor.exact() + recency_score(
                now_ns,
                row.last_active_ns,
            ).exact() * weights.recency_factor.exact();
            let score = score_of(row, signal_type, now_ns, weights);
            &&& score.finite()
            &&& !score.negative()
            &&& 0x100_0000 * (d * score.exact() - exact) <= 32 * (d * d)
            &&& 0x100_0000 * (exact - d * score.exact()) <= 32 * (d * d)
        }),
{
    let d = unit_scale();
    lemma_latency_counts_in_milliseconds(row.avg_latency_ns);
    lemma_recency_counts_in_hours(now_ns, row.last_active_ns);
    lemma_units_of_one();
    let latency = latency_score(row.avg_latency_ns);
    let recency = recency_score(now_ns, row.last_active_ns);
    let share = affinity_share(row.type_affinity, signal_type);
    lemma_signs(latency);
    lemma_signs(recency);
    lemma_term(row.weight, weights.weight_factor);
    lemma_term(latency, weights.latency_factor);
    lemma_term(share, weights.affinity_factor);
    lemma_term(recency, weights.recency_factor);
    let p = row.weight.product(weights.weight_factor);
    let q = latency.product(weights.latency_factor);
    let r = share.product(weights.affinity_factor);
    let s = recency.product(weights.recency_factor);
    let eight = lemma_power(3);
    lemma2_to64();
    let top = Scalar { bits: eight as u32 };
    assert(top.finite() && !top.negative() && top.exact() == 8 * d);
    lemma_sum_within(p, q, top);
    lemma_sum_error(p, q);
    let pq = p.sum(q);
    assert(pq.exact() <= 3 * d);
    lemma_sum_within(pq, r, top);
    lemma_sum_error(pq, r);
    let pqr = pq.sum(r);
    assert(pqr.exact() <= 5 * d);
    lemma_sum_within(pqr, s, top);
    lemma_sum_error(pqr, s);
    let total = pqr.sum(s);
    assert(total.exact() <= 7 * d);
    let parts = p.exact() + q.exact() + r.exact() + s.exact();
    assert(0x100_0000 * (total.exact() - parts) <= 15 * d);
    assert(0x100_0000 * (parts - total.exact()) <= 15 * d);
    assert(0x100_0000 * (d * total.exact() - d * parts) <= 15 * (d * d) && 0x100_0000 * (d * parts
        - d * total.exact()) <= 15 * (d * d)) by (nonlinear_arith)
        requires
            0x100_0000 * (total.exact() - parts) <= 15 * d,
            0x100_0000 * (parts - total.exact()) <= 15 * d,
            0 < d,
    {
        assert(d * (0x100_0000 * (total.exact() - parts)) <= d * (15 * d));
        assert(d * (0x100_0000 * (parts - total.exact())) <= d * (15 * d));
    }
    assert(d * parts == d * p.exact() + d * q.exact() + d * r.exact() + d * s.exact())
        by (nonlinear_arith)
        requires
            parts == p.exact() + q.exact() + r.exact() + s.exact(),
    ;
}

/// The defaults weigh a synapse by four tenths of its weight, two of its
/// latency, three of its affinity and one of its recency: tenths to within one
/// part in `2^24`, so that they sum to one.
pub proof fn lemma_the_default_factors()
    ensures
        ({
            let w = ScoringWeights::defaults();
            &&& sound_factors(w)
            &&& near(w.weight_factor, 4, 10)
            &&& near(w.latency_factor, 2, 10)
            &&& near(w.affinity_factor, 3, 10)
            &&& near(w.recency_factor, 1, 10)
        }),
{
    lemma2_to64();
    lemma_pattern(Scalar::from_bits(0x3ECC_CCCD), 125, 0xCC_CCCD, 4, 10);
    lemma_pattern(Scalar::from_bits(0x3E4C_CCCD), 124, 0xCC_CCCD, 2, 10);
    lemma_pattern(Scalar::from_bits(0x3E99_999A), 125, 0x99_999A, 3, 10);
    lemma_pattern(Scalar::from_bits(0x3DCC_CCCD), 123, 0xCC_CCCD, 1, 10);
}

/// What [`score_synapse`] gives keeps the order of what it is given: a synapse
/// that is no lighter, no slower, no less affine to the signal's type and no
/// longer idle than another scores no lower.
pub proof fn lemma_better_synapses_are_preferred(
    better: Synapse,
    worse: Synapse,
    signal_type: &str,
    now_ns: u64,
    weights: ScoringWeights,
    high: Scalar,
    low: Scalar,
)
    requires
        call_ensures(score_synapse, (&better, signal_type, now_ns, &weights), high),
        call_ensures(score_synapse, (&worse, signal_type, now_ns, &weights), low),
        sound_factors(weights),
        better.weight.finite(),
        !worse.weight.negative(),
        !better.weight.negative(),
        worse.weight.at_most(better.weight),
        affinity_share(better.row().type_affinity, signal_type@).finite(),
        !affinity_share(better.row().type_affinity, signal_type@).negative(),
        !affinity_share(worse.row().type_affinity, signal_type@).negative(),
        affinity_share(worse.row().type_affinity, signal_type@).at_most(
            affinity_share(better.row().type_affinity, signal_type@),
        ),
        better.avg_latency_ns == 0 || better.avg_latency_ns <= worse.avg_latency_ns,
        worse.last_active_ns <= better.last_active_ns || now_ns <= better.last_active_ns,
    ensures
        low.at_most(high),
{
    lemma_a_better_synapse_scores_no_lower(
        better.row(),
        worse.row(),
        signal_type@,
        now_ns,
        weights,
    );
}

} // verus!
