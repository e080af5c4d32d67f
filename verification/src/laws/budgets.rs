//! Laws of the weight budget: what fits is left alone, and what does not is cut
//! in proportion.

use vstd::arithmetic::power2::{lemma2_to64, lemma_pow2_adds, lemma_pow2_pos, pow2};
use vstd::prelude::*;

use crate::arith::{
    lemma_difference, lemma_natural, lemma_nearest_exists, lemma_rounding_error,
    lemma_rounding_is_exact, lemma_rounding_is_monotone, lemma_scaling_distance, lemma_shrinking,
    lemma_sum_error, lemma_taking_away, lemma_units_of_one, lemma_whole_error, rounded, unit_scale,
    units,
};
use crate::budget::{
    accountable, budgets, exact_sum, lemma_bounds, lemma_excess_factor, lemma_floor_total,
    lemma_pool, lemma_running_sum, lemma_running_sum_error, lemma_share, lemma_surpluses, weighable,
};
use crate::laws::orders::{lemma_exact_order, lemma_ratio_error, lemma_sum_within};
use crate::learning::{
    excess_factor, floor_total, normalized, rebased, running_sum, scaled, share, stays_above,
    surplus, surpluses, LearningConfig,
};
use crate::scalar::{Scalar, HIDDEN_BIT, INFINITY_BITS, ONE, ZERO};

verus! {

/// Weights whose exact sum is within a limit, with one part in `2^24` to spare
/// for each of them, add up to no more than the limit.
pub proof fn lemma_a_sum_within(weights: Seq<Scalar>, limit: Scalar, parts: int)
    requires
        weighable(weights),
        limit.finite(),
        !limit.negative(),
        weights.len() <= parts <= 0x40_0000,
        0x100_0000 * exact_sum(weights) <= (0x100_0000 - parts) * limit.exact(),
    ensures
        running_sum(weights).at_most(limit),
        running_sum(weights).finite(),
        !running_sum(weights).negative(),
        (0x100_0000 - weights.len()) * running_sum(weights).exact() <= 0x100_0000 * exact_sum(weights),
        0 <= running_sum(weights).exact(),
        0 <= exact_sum(weights),
    decreases weights.len(),
{
    let e: int = 0x100_0000;
    let n = weights.len() as int;
    assert(units(0) == 0);
    lemma_exact_order(Scalar::from_bits(ZERO), limit);
    if n > 0 {
        let front = weights.drop_last();
        let last = weights.last();
        assert(last == weights[n - 1]);
        assert forall|i: int| 0 <= i < front.len() implies (#[trigger] front[i]).finite()
            && !front[i].negative() by {
            assert(front[i] == weights[i]);
        }
        lemma_exact_order(Scalar::from_bits(ZERO), last);
        lemma_a_sum_within(front, limit, parts);
        let before = running_sum(front);
        let x = before.exact();
        let w = last.exact();
        let sum = exact_sum(front);
        let b = limit.exact();
        let k = e - (n - 1);
        assert(k * (x + w) <= e * (sum + w)) by (nonlinear_arith)
            requires
                k * x <= e * sum,
                k <= e,
                0 <= w,
        ;
        assert(x + w <= b) by (nonlinear_arith)
            requires
                k * (x + w) <= e * (sum + w),
                e * (sum + w) <= (e - parts) * b,
                e - parts <= k,
                0 <= b,
                0 < k,
        ;
        lemma_sum_within(before, last, limit);
        lemma_sum_error(before, last);
        let y = before.sum(last).exact();
        lemma_exact_order(Scalar::from_bits(ZERO), before.sum(last));
        assert((k - 1) * y <= e * (sum + w)) by (nonlinear_arith)
            requires
                (e - 1) * y <= e * (x + w),
                k * (x + w) <= e * (sum + w),
                1 <= k <= e,
                0 <= y,
                0 <= x + w,
                e == 0x100_0000,
        {
            assert(k * ((e - 1) * y) <= k * (e * (x + w)));
            assert(k * (e * (x + w)) <= e * (e * (sum + w)));
            assert(k * (e - 1) >= e * (k - 1));
            assert((k * (e - 1)) * y >= (e * (k - 1)) * y);
            assert(e * ((k - 1) * y) <= e * (e * (sum + w)));
        }
    }
}

/// Weights that fit the budget are left alone, with one part in `2^24` to spare
/// for each of them.
pub proof fn lemma_what_fits_is_left_alone(weights: Seq<Scalar>, config: LearningConfig)
    requires
        accountable(weights, config),
        0x100_0000 * exact_sum(weights) <= (0x100_0000 - weights.len())
            * config.max_total_outbound_weight.exact(),
    ensures
        excess_factor(weights, config) is None,
        normalized(weights, config) == weights,
{
    lemma_bounds(config);
    lemma_a_sum_within(weights, config.max_total_outbound_weight, weights.len() as int);
}

/// Weights that exceed the budget are cut: each by the same factor, which is the
/// budget's part of what they add up to, as long as that takes none of them
/// through the lower bound.
pub proof fn lemma_an_excess_is_cut_in_proportion(
    weights: Seq<Scalar>,
    config: LearningConfig,
    i: int,
)
    requires
        accountable(weights, config),
        running_sum(weights).finite(),
        config.max_total_outbound_weight.below(running_sum(weights)),
        0 <= i < weights.len(),
        0x100_0008 * (weights.len() * config.min_weight.exact()) <= 0x100_0000
            * config.max_total_outbound_weight.exact(),
        forall|j: int|
            0 <= j < weights.len() ==> 0x100_0008 * (config.min_weight.exact() * running_sum(
                weights,
            ).exact()) <= 0x100_0000 * ((#[trigger] weights[j]).exact()
                * config.max_total_outbound_weight.exact()),
    ensures
        ({
            let after = normalized(weights, config)[i];
            let total = running_sum(weights).exact();
            let budget = config.max_total_outbound_weight.exact();
            &&& 0x100_0000 * (after.exact() * total) <= 0x100_0008 * (weights[i].exact() * budget)
            &&& 0xFF_FFF8 * (weights[i].exact() * budget) <= 0x100_0000 * (after.exact() * total)
        }),
{
    let floor = config.min_weight;
    let budget = config.max_total_outbound_weight;
    let total = running_sum(weights);
    let t = total.exact();
    let b = budget.exact();
    let n = weights.len() as int;
    lemma_bounds(config);
    lemma_running_sum(weights);
    lemma_exact_order(budget, total);
    assert forall|j: int| 0 <= j < n implies (#[trigger] weights[j]).exact() <= b by {
        lemma_exact_order(weights[j], budget);
    }
    lemma_running_sum_error(weights, b);
    assert(excess_factor(weights, config) is Some);
    lemma_excess_factor(weights, config);
    let factor = excess_factor(weights, config)->0;
    lemma2_to64();
    lemma_pow2_adds(23, 77);
    lemma_pow2_pos(77);
    assert(t <= pow2(100) * b && b <= pow2(100) * t) by (nonlinear_arith)
        requires
            0 <= t <= 2 * (n * b),
            n <= 0x40_0000,
            0 < b < t,
            pow2(100) == 0x80_0000 * pow2(77),
            pow2(77) >= 1,
    {
        assert(n * b <= 0x40_0000 * b);
        assert(t <= 0x80_0000 * b);
        assert(0x80_0000 * b <= pow2(100) * b);
        assert(t <= pow2(100) * t);
    }
    lemma_ratio_error(budget, total);
    assert forall|j: int| 0 <= j < n implies !(#[trigger] weights[j]).product(factor).below(floor)
        by {
        lemma_scaled_weight(weights[j], factor, floor, b, t);
    }
    assert(stays_above(weights, factor, floor));
    lemma_floors_leave_room(weights.len(), config);
    lemma_scaled_weight(weights[i], factor, floor, b, t);
    assert(normalized(weights, config)[i] == scaled(weights[i], factor, floor));
}

/// Lower bounds that together are clearly below the budget leave some of it.
proof fn lemma_floors_leave_room(n: nat, config: LearningConfig)
    requires
        budgets(config),
        HIDDEN_BIT <= config.min_weight.magnitude(),
        1 <= n <= 0x40_0000,
        0x100_0008 * (n * config.min_weight.exact()) <= 0x100_0000
            * config.max_total_outbound_weight.exact(),
    ensures
        !config.max_total_outbound_weight.at_most(floor_total(n, config)),
{
    let e: int = 0x100_0000;
    let d = unit_scale();
    let floor = config.min_weight;
    let budget = config.max_total_outbound_weight;
    let l = floor.exact();
    let b = budget.exact();
    let many = Scalar::natural(n as int);
    let floors = floor_total(n, config);
    lemma_bounds(config);
    lemma_pow2_pos(149);
    lemma_natural(n as int);
    let m = n as int;
    let x = l * many.exact();
    assert(x == (m * l) * d) by (nonlinear_arith)
        requires
            x == l * many.exact(),
            many.exact() == m * d,
    ;
    lemma_rounding_is_exact(floor.magnitude(), d);
    lemma_rounding_is_exact(budget.magnitude(), d);
    assert(0 <= l * d && l * d <= x && x <= b * d) by (nonlinear_arith)
        requires
            x == (m * l) * d,
            (e + 8) * (m * l) <= e * b,
            0 < l,
            1 <= m,
            0 < d,
            0 < b,
            e == 0x100_0000,
    {
        assert(l <= m * l);
        assert(m * l <= b);
    }
    assert((l * d) * d <= x * d && x * d <= (b * d) * d) by (nonlinear_arith)
        requires
            l * d <= x <= b * d,
            0 < d,
    ;
    lemma_rounding_is_monotone(l * d, d, x, d);
    lemma_rounding_is_monotone(x, d, b * d, d);
    lemma_nearest_exists(x, d);
    assert(floors.magnitude() == rounded(x, d));
    lemma_rounding_error(x, d);
    if floors.magnitude() == budget.magnitude() {
        assert(false) by (nonlinear_arith)
            requires
                (e - 1) * (d * b) <= e * x,
                x == (m * l) * d,
                (e + 8) * (m * l) <= e * b,
                0 < d,
                0 < b,
                e == 0x100_0000,
        {
            assert((e - 1) * b <= e * (m * l)) by {
                assert(((e - 1) * b) * d <= (e * (m * l)) * d);
            }
            assert((e + 8) * ((e - 1) * b) <= e * (e * b));
        }
    }
}

/// A weight scaled by the budget's part of a total.
proof fn lemma_scaled_weight(weight: Scalar, factor: Scalar, floor: Scalar, b: int, t: int)
    requires
        weight.finite(),
        !weight.negative(),
        factor.finite(),
        !factor.negative(),
        factor.magnitude() <= ONE,
        floor.finite(),
        !floor.negative(),
        HIDDEN_BIT <= floor.magnitude(),
        0 < b < t,
        0x100_0000 * (b * unit_scale()) <= 0x100_0001 * (t * factor.exact()),
        0xFF_FFFF * (t * factor.exact()) <= 0x100_0000 * (b * unit_scale()),
        0x100_0008 * (floor.exact() * t) <= 0x100_0000 * (weight.exact() * b),
    ensures
        !weight.product(factor).below(floor),
        weight.product(factor).larger(floor).exact() == weight.product(factor).exact(),
        0x100_0000 * (weight.product(factor).exact() * t) <= 0x100_0008 * (weight.exact() * b),
        0xFF_FFF8 * (weight.exact() * b) <= 0x100_0000 * (weight.product(factor).exact() * t),
{
    let e: int = 0x100_0000;
    let d = unit_scale();
    let w = weight.exact();
    let f = factor.exact();
    let l = floor.exact();
    lemma_pow2_pos(149);
    lemma_exact_order(weight, factor);
    lemma_exact_order(Scalar::from_bits(ZERO), floor);
    lemma_shrinking(weight, factor);
    let product = weight.product(factor);
    let p = product.exact();
    assert(l * d <= w * f) by (nonlinear_arith)
        requires
            (e + 8) * (l * t) <= e * (w * b),
            e * (b * d) <= (e + 1) * (t * f),
            0 <= w,
            0 <= l,
            0 < d,
            0 < t,
            0 <= f,
            e == 0x100_0000,
    {
        assert(w * (e * (b * d)) <= w * ((e + 1) * (t * f)));
        assert(((e + 8) * (l * t)) * d <= (e * (w * b)) * d);
        assert((e * (w * b)) * d == w * (e * (b * d)));
        assert(w * ((e + 1) * (t * f)) == ((e + 1) * (w * f)) * t);
        assert(((e + 8) * (l * t)) * d == ((e + 8) * (l * d)) * t);
        assert((e + 8) * (l * d) <= (e + 1) * (w * f));
        assert(0 <= l * d);
        assert((e + 1) * (l * d) <= (e + 8) * (l * d));
    }
    lemma_rounding_is_exact(floor.magnitude(), d);
    assert(0 <= l * d) by (nonlinear_arith)
        requires
            0 <= l,
            0 < d,
    ;
    assert((l * d) * d <= (w * f) * d) by (nonlinear_arith)
        requires
            l * d <= w * f,
            0 < d,
    ;
    lemma_rounding_is_monotone(l * d, d, w * f, d);
    lemma_nearest_exists(w * f, d);
    assert(product.magnitude() == rounded(w * f, d));
    assert(floor.magnitude() <= product.magnitude() < INFINITY_BITS);
    lemma_rounding_error(w * f, d);
    assert(units(product.magnitude()) == p);
    assert(0 <= p) by {
        lemma_exact_order(Scalar::from_bits(ZERO), product);
    }
    assert(e * (p * t) <= (e + 8) * (w * b)) by (nonlinear_arith)
        requires
            (e - 1) * (d * p) <= e * (w * f),
            (e - 1) * (t * f) <= e * (b * d),
            0 <= w,
            0 <= p,
            0 < d,
            0 < t,
            0 < b,
            0 <= f,
            e == 0x100_0000,
    {
        let pt = p * t;
        let wb = w * b;
        let wft = w * (t * f);
        assert((e - 1) * (d * pt) <= e * wft) by {
            assert(((e - 1) * (d * p)) * t <= (e * (w * f)) * t);
            assert(((e - 1) * (d * p)) * t == (e - 1) * (d * pt));
            assert((e * (w * f)) * t == e * wft);
        }
        assert((e - 1) * wft <= e * (wb * d)) by {
            assert(w * ((e - 1) * (t * f)) <= w * (e * (b * d)));
            assert(w * ((e - 1) * (t * f)) == (e - 1) * wft);
            assert(w * (e * (b * d)) == e * (wb * d));
        }
        let y = d * pt;
        let z = wb * d;
        assert(((e - 1) * (e - 1)) * y <= (e * e) * z) by {
            assert((e - 1) * ((e - 1) * y) <= (e - 1) * (e * wft));
            assert(e * ((e - 1) * wft) <= e * (e * z));
        }
        assert(0 <= pt && 0 <= wb);
        assert(0 <= y && 0 <= z);
        assert(e * y <= (e + 8) * z);
        assert((e * pt) * d <= ((e + 8) * wb) * d) by {
            assert(e * y == (e * pt) * d);
            assert((e + 8) * z == ((e + 8) * wb) * d);
        }
    }
    assert((e - 8) * (w * b) <= e * (p * t)) by (nonlinear_arith)
        requires
            e * (w * f) <= (e + 1) * (d * p),
            e * (b * d) <= (e + 1) * (t * f),
            0 <= w,
            0 <= p,
            0 < d,
            0 < t,
            0 < b,
            0 <= f,
            e == 0x100_0000,
    {
        let pt = p * t;
        let wb = w * b;
        let wft = w * (t * f);
        assert(e * wft <= (e + 1) * (d * pt)) by {
            assert((e * (w * f)) * t <= ((e + 1) * (d * p)) * t);
            assert(((e + 1) * (d * p)) * t == (e + 1) * (d * pt));
            assert((e * (w * f)) * t == e * wft);
        }
        assert(e * (wb * d) <= (e + 1) * wft) by {
            assert(w * (e * (b * d)) <= w * ((e + 1) * (t * f)));
            assert(w * ((e + 1) * (t * f)) == (e + 1) * wft);
            assert(w * (e * (b * d)) == e * (wb * d));
        }
        let y = d * pt;
        let z = wb * d;
        assert((e * e) * z <= ((e + 1) * (e + 1)) * y) by {
            assert(e * (e * z) <= e * ((e + 1) * wft));
            assert((e + 1) * (e * wft) <= (e + 1) * ((e + 1) * y));
        }
        assert(0 <= pt && 0 <= wb);
        assert(0 <= y && 0 <= z);
        assert((e - 8) * z <= e * y);
        assert(((e - 8) * wb) * d <= (e * pt) * d) by {
            assert(e * y == (e * pt) * d);
            assert((e - 8) * z == ((e - 8) * wb) * d);
        }
    }
}

/// What a weight has above a lower bound is the difference, within one part in
/// `2^24`, and nothing where it is not above.
pub proof fn lemma_what_stands_above_the_floor(weight: Scalar, floor: Scalar)
    requires
        weight.finite(),
        !weight.negative(),
        floor.finite(),
        !floor.negative(),
    ensures
        ({
            let above = surplus(weight, floor);
            let over = weight.exact() - floor.exact();
            &&& above.finite()
            &&& !above.negative()
            &&& over <= 0 ==> above.exact() == 0
            &&& over > 0 ==> 0xFF_FFFF * above.exact() <= 0x100_0000 * over
            &&& over > 0 ==> 0x100_0000 * over <= 0x100_0001 * above.exact()
            &&& 0 <= above.exact()
        }),
{
    let a = weight.larger(floor);
    let total = a.exact() - floor.exact();
    lemma_exact_order(weight, floor);
    lemma_exact_order(floor, a);
    lemma_difference(a, floor);
    assert(units(0) == 0);
    assert(floor.negated().exact() == -floor.exact());
    lemma_taking_away(a, floor.negated());
    if total > 0 {
        lemma_whole_error(total);
        lemma_nearest_exists(total, 1);
    }
}

/// A weight that is rebased stands above the lower bound by its part of what it
/// had above it.
pub proof fn lemma_rebasing_scales_what_stands_above(weight: Scalar, factor: Scalar, floor: Scalar)
    requires
        weight.finite(),
        !weight.negative(),
        floor.finite(),
        !floor.negative(),
        floor.at_most(weight),
        !factor.negative(),
        factor.magnitude() <= ONE,
    ensures
        ({
            let after = rebased(weight, factor, floor).exact();
            let w = weight.exact();
            let l = floor.exact();
            let d = unit_scale();
            &&& 0x100_0000 * (d * after) <= 0x100_0000 * (d * l + (w - l) * factor.exact()) + d * (8 * w
                + 0x100_0000)
            &&& 0x100_0000 * (d * l + (w - l) * factor.exact()) <= 0x100_0000 * (d * after) + d * (8 * w
                + 0x100_0000)
        }),
{
    let e: int = 0x100_0000;
    let d = unit_scale();
    let w = weight.exact();
    let l = floor.exact();
    let f = factor.exact();
    let above = surplus(weight, floor);
    let s = above.exact();
    let over = w - l;
    lemma_pow2_pos(149);
    lemma_units_of_one();
    assert(units(0) == 0);
    lemma_exact_order(floor, weight);
    lemma_exact_order(factor, Scalar::from_bits(ONE));
    assert(0 <= f <= d);
    lemma_what_stands_above_the_floor(weight, floor);
    assert(weight.larger(floor).exact() == w);
    lemma_shrinking(above, factor);
    lemma_scaling_distance(above, factor);
    let part = above.product(factor);
    let p = part.exact();
    lemma_sum_error(floor, part);
    let sum = floor.sum(part);
    let after = rebased(weight, factor, floor);
    let r = after.exact();
    let y = sum.exact();
    assert(r == (if sum.finite() && y <= w {
        y
    } else {
        w
    })) by {
        if sum.finite() {
            lemma_exact_order(sum, weight);
            lemma_exact_order(weight, sum);
        }
    }
    // What is scaled is what stands above, within one part.
    assert(e * (s * f) <= e * (over * f) + d * (2 * w) && e * (over * f) <= e * (s * f) + d * (2 * w))
        by (nonlinear_arith)
        requires
            over <= 0 ==> s == 0,
            over > 0 ==> (e - 1) * s <= e * over && e * over <= (e + 1) * s,
            0 <= over <= w,
            0 <= s,
            0 <= f <= d,
            e == 0x100_0000,
    {
        let g = e * s - e * over;
        assert(s <= 2 * over);
        assert(-(2 * w) <= g <= 2 * w);
        assert(g * f <= (2 * w) * f && (-(2 * w)) * f <= g * f);
        assert((2 * w) * f <= (2 * w) * d);
        assert(g * f == e * (s * f) - e * (over * f));
    }
    assert(s <= 2 * over) by {
        if over > 0 {
            assert((e - 1) * s <= e * over);
        }
    }
    assert(0 <= l + p);
    // The sum, and the weight itself where the sum would pass it.
    assert(e * r <= e * (l + p) + 3 * w && e * (l + p) <= e * r + 3 * w) by {
        if sum.finite() && y <= w {
        } else {
            if l + p <= w {
                lemma_sum_within(floor, part, weight);
                lemma_exact_order(sum, weight);
            }
            assert(p <= s);
            assert(e * (l + s) <= e * w + 2 * w) by {
                if over > 0 {
                    assert((e - 1) * s <= e * over);
                }
            }
        }
    }
    assert(e * (d * r) <= e * (d * (l + p)) + d * (3 * w) && e * (d * (l + p)) <= e * (d * r) + d
        * (3 * w)) by (nonlinear_arith)
        requires
            e * r <= e * (l + p) + 3 * w,
            e * (l + p) <= e * r + 3 * w,
            0 < d,
    {
        assert(d * (e * r) <= d * (e * (l + p) + 3 * w));
        assert(d * (e * (l + p)) <= d * (e * r + 3 * w));
    }
    assert(d * (l + p) == d * l + d * p) by (nonlinear_arith);
    assert(d * (s + e) <= d * (2 * w + e)) by (nonlinear_arith)
        requires
            s <= 2 * w,
            0 < d,
    ;
    assert(d * (8 * w + e) >= d * (3 * w) + d * (2 * w + e) + d * (2 * w)) by (nonlinear_arith)
        requires
            0 < d,
            0 <= w,
    ;
}

/// Parts that a pool covers are shared out whole, and others by the pool's part
/// of what they add up to.
pub proof fn lemma_a_pool_is_shared(parts: Seq<Scalar>, pool: Scalar)
    requires
        weighable(parts),
        pool.finite(),
        !pool.negative(),
        running_sum(parts).finite(),
    ensures
        ({
            let total = running_sum(parts).exact();
            let f = share(parts, pool).exact();
            &&& total <= pool.exact() ==> f == unit_scale()
            &&& 0 < pool.exact() < total <= pow2(100) * pool.exact() ==> 0x100_0000 * (pool.exact()
                * unit_scale()) <= 0x100_0001 * (total * f) && 0xFF_FFFF * (total * f) <= 0x100_0000 * (
            pool.exact() * unit_scale())
        }),
{
    let total = running_sum(parts);
    lemma_running_sum(parts);
    lemma_units_of_one();
    lemma_exact_order(total, pool);
    if 0 < pool.exact() < total.exact() && total.exact() <= pow2(100) * pool.exact() {
        lemma_pow2_pos(100);
        assert(pool.exact() <= pow2(100) * total.exact()) by (nonlinear_arith)
            requires
                0 < pool.exact() < total.exact(),
                1 <= pow2(100),
        ;
        lemma_ratio_error(pool, total);
    }
}

/// Weights that exceed the budget, where one factor would take some through the
/// lower bound, keep the lower bound, and what they have above it is scaled by
/// the part that the rest of the budget covers.
pub proof fn lemma_an_excess_is_cut_above_the_floor(
    weights: Seq<Scalar>,
    config: LearningConfig,
    i: int,
)
    requires
        budgets(config),
        weighable(weights),
        0 <= i < weights.len(),
        config.min_weight.at_most(weights[i]),
        excess_factor(weights, config) is Some,
        !config.max_total_outbound_weight.at_most(floor_total(weights.len(), config)),
        !stays_above(weights, excess_factor(weights, config)->0, config.min_weight),
    ensures
        ({
            let floors = floor_total(weights.len(), config);
            let f = share(
                surpluses(weights, config.min_weight),
                config.max_total_outbound_weight.difference(floors),
            ).exact();
            let after = normalized(weights, config)[i].exact();
            let w = weights[i].exact();
            let l = config.min_weight.exact();
            let d = unit_scale();
            &&& 0x100_0000 * (d * after) <= 0x100_0000 * (d * l + (w - l) * f) + d * (8 * w + 0x100_0000)
            &&& 0x100_0000 * (d * l + (w - l) * f) <= 0x100_0000 * (d * after) + d * (8 * w + 0x100_0000)
        }),
{
    let floor = config.min_weight;
    let n = weights.len();
    lemma_bounds(config);
    lemma_floor_total(n, config);
    lemma_pool(n, config);
    lemma_surpluses(weights, floor);
    let pool = config.max_total_outbound_weight.difference(floor_total(n, config));
    lemma_share(surpluses(weights, floor), pool);
    let part = share(surpluses(weights, floor), pool);
    assert(normalized(weights, config)[i] == rebased(weights[i], part, floor));
    lemma_rebasing_scales_what_stands_above(weights[i], part, floor);
}

} // verus!
