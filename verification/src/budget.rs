//! The outbound budget: what bringing weights within it keeps and gives.

use vstd::prelude::*;

use crate::arith::unit_scale;
use crate::learning::{
    excess_factor, floor_total, normalized, rebased, running_sum, scaled, share, stays_above,
    surplus, surpluses, LearningConfig,
};
use crate::scalar::{Scalar, HIDDEN_BIT, ONE};

verus! {

/// The exact sum of numbers, in units of `2^-149`.
pub open spec fn exact_sum(values: Seq<Scalar>) -> int
    decreases values.len(),
{
    if values.len() == 0 {
        0
    } else {
        exact_sum(values.drop_last()) + values.last().exact()
    }
}

/// Whether every weight is a number and none is negative.
pub open spec fn weighable(weights: Seq<Scalar>) -> bool {
    forall|i: int|
        0 <= i < weights.len() ==> (#[trigger] weights[i]).finite() && !weights[i].negative()
}

/// Whether a configuration validates and sets its weight bounds and its budget
/// with numbers.
pub open spec fn budgets(config: LearningConfig) -> bool {
    &&& config.fault() is None
    &&& !config.min_weight.nan()
    &&& !config.max_weight.nan()
    &&& config.max_total_outbound_weight.finite()
}

/// Whether the exact sum of weights can be held against the budget: at most
/// `2^22` weights, none of them above the budget, and a lower bound that is not
/// subnormal.
pub open spec fn accountable(weights: Seq<Scalar>, config: LearningConfig) -> bool {
    &&& budgets(config)
    &&& HIDDEN_BIT <= config.min_weight.magnitude()
    &&& weighable(weights)
    &&& forall|i: int|
        0 <= i < weights.len() ==> (#[trigger] weights[i]).at_most(config.max_total_outbound_weight)
    &&& weights.len() <= 0x40_0000
}

/// Whether `n` weights at the lower bound are within the budget.
pub open spec fn floors_fit(n: nat, config: LearningConfig) -> bool {
    n * config.min_weight.exact() <= config.max_total_outbound_weight.exact()
}

/// Whether the exact sum of weights is within the budget, up to rounding: one
/// part in `2^24` for each weight, and five more.
pub open spec fn within_budget(weights: Seq<Scalar>, config: LearningConfig) -> bool {
    (0x100_0000 - weights.len() - 5) * exact_sum(weights) <= 0x100_0000
        * config.max_total_outbound_weight.exact()
}

/// The order of the bounds of a configuration that validates.
pub proof fn lemma_bounds(config: LearningConfig)
    requires
        budgets(config),
    ensures
        config.min_weight.finite(),
        !config.min_weight.negative(),
        config.min_weight.magnitude() > 0,
        config.min_weight.below(config.max_total_outbound_weight),
        !config.max_total_outbound_weight.negative(),
        0 < config.min_weight.exact() < config.max_total_outbound_weight.exact(),
{
    let floor = config.min_weight;
    let budget = config.max_total_outbound_weight;
    crate::arith::lemma_units_increase(0, floor.magnitude());
    crate::arith::lemma_units_increase(floor.magnitude(), budget.magnitude());
    assert(crate::arith::units(0) == 0);
}

/// The order of numbers is that of their exact values.
proof fn lemma_exact_order(a: Scalar, b: Scalar)
    requires
        a.at_most(b),
        !a.negative(),
        !b.negative(),
    ensures
        0 <= a.exact() <= b.exact(),
{
    assert(crate::arith::units(0) == 0);
    if 0 < a.magnitude() {
        crate::arith::lemma_units_increase(0, a.magnitude());
    }
    if a.magnitude() < b.magnitude() {
        crate::arith::lemma_units_increase(a.magnitude(), b.magnitude());
    }
}

/// The sum of weights, unless it is too large for a number, is a number.
pub proof fn lemma_running_sum(weights: Seq<Scalar>)
    requires
        weighable(weights),
    ensures
        !running_sum(weights).negative(),
        !running_sum(weights).nan(),
    decreases weights.len(),
{
    if weights.len() > 0 {
        let front = weights.drop_last();
        assert forall|i: int| 0 <= i < front.len() implies (#[trigger] front[i]).finite()
            && !front[i].negative() by {
            assert(front[i] == weights[i]);
        }
        lemma_running_sum(front);
        assert(weights.last() == weights[weights.len() - 1]);
        if running_sum(front).finite() {
            crate::arith::lemma_sum_error(running_sum(front), weights.last());
        }
    }
}

/// How far the sum of weights is from their exact sum, and how large it is at
/// most when none of them exceeds a limit.
pub proof fn lemma_running_sum_error(weights: Seq<Scalar>, limit: int)
    requires
        weighable(weights),
        forall|i: int| 0 <= i < weights.len() ==> (#[trigger] weights[i]).exact() <= limit,
        running_sum(weights).finite(),
        weights.len() <= 0x40_0000,
        limit >= 0,
    ensures
        (0x100_0000 - weights.len()) * exact_sum(weights) <= 0x100_0000 * running_sum(
            weights,
        ).exact(),
        0 <= running_sum(weights).exact() <= 2 * (weights.len() * limit),
        0 <= exact_sum(weights),
    decreases weights.len(),
{
    let n = weights.len() as int;
    if n > 0 {
        let front = weights.drop_last();
        let last = weights.last();
        assert(last == weights[n - 1]);
        assert forall|i: int| 0 <= i < front.len() implies (#[trigger] front[i]).finite()
            && !front[i].negative() && front[i].exact() <= limit by {
            assert(front[i] == weights[i]);
        }
        lemma_running_sum(front);
        assert(running_sum(front).finite());
        lemma_running_sum_error(front, limit);
        let before = running_sum(front);
        let after = running_sum(weights);
        crate::arith::lemma_sum_error(before, last);
        let x = before.exact();
        let y = after.exact();
        let w = last.exact();
        let sum = exact_sum(front);
        assert((0x100_0000 - n) * (sum + w) <= 0x100_0000 * y) by (nonlinear_arith)
            requires
                (0x100_0000 - (n - 1)) * sum <= 0x100_0000 * x,
                0x100_0000 * (x + w) <= 0x100_0001 * y,
                0 <= sum,
                0 <= w,
                0 < n <= 0x40_0000,
        {
            let k = 0x100_0000 - (n - 1);
            // k * (sum + w) <= 2^24 * (x + w) <= (2^24 + 1) * y
            assert(k * (sum + w) == k * sum + k * w);
            assert(k * w <= 0x100_0000 * w);
            assert(k * (sum + w) <= 0x100_0001 * y);
            assert(0x100_0001 * ((k - 1) * (sum + w)) <= 0x100_0000 * (k * (sum + w)));
        }
        assert(0 <= y <= 2 * (n * limit)) by (nonlinear_arith)
            requires
                0xFF_FFFF * y <= 0x100_0000 * (x + w),
                0x100_0000 * (x + w) <= 0x100_0001 * y,
                0 <= x <= 2 * ((n - 1) * limit),
                0 <= w <= limit,
                0 < n <= 0x40_0000,
        {
            assert(0xFF_FFFF * y <= 0x100_0000 * ((2 * n - 1) * limit));
            assert(0x100_0000 * ((2 * n - 1) * limit) <= 0xFF_FFFF * (2 * (n * limit)));
        }
    } else {
        assert(crate::arith::units(0) == 0);
    }
}

/// The factor by which parts share a pool is at most one.
pub proof fn lemma_share(parts: Seq<Scalar>, pool: Scalar)
    requires
        weighable(parts),
        pool.finite(),
        !pool.negative(),
    ensures
        !share(parts, pool).negative(),
        share(parts, pool).magnitude() <= ONE,
{
    lemma_running_sum(parts);
    if !running_sum(parts).at_most(pool) {
        crate::arith::lemma_part_of_a_whole(pool, running_sum(parts));
    }
}

/// What a weight has above the lower bound is a number that is not negative,
/// and no larger than the weight or the bound.
proof fn lemma_surplus(weight: Scalar, floor: Scalar)
    requires
        weight.finite(),
        !weight.negative(),
        floor.finite(),
        !floor.negative(),
    ensures
        surplus(weight, floor).finite(),
        !surplus(weight, floor).negative(),
        surplus(weight, floor).at_most(weight.larger(floor)),
{
    crate::arith::lemma_difference(weight.larger(floor), floor);
}

/// What weights have above the lower bound can be shared out.
pub proof fn lemma_surpluses(weights: Seq<Scalar>, floor: Scalar)
    requires
        weighable(weights),
        floor.finite(),
        !floor.negative(),
    ensures
        weighable(surpluses(weights, floor)),
{
    let parts = surpluses(weights, floor);
    assert forall|i: int| 0 <= i < parts.len() implies (#[trigger] parts[i]).finite()
        && !parts[i].negative() by {
        assert(parts[i] == surplus(weights[i], floor));
        assert(weights[i].finite());
        lemma_surplus(weights[i], floor);
    }
}

/// What the lower bounds leave of the budget.
pub proof fn lemma_pool(n: nat, config: LearningConfig)
    requires
        budgets(config),
        !config.max_total_outbound_weight.at_most(floor_total(n, config)),
        !floor_total(n, config).negative(),
        !floor_total(n, config).nan(),
    ensures
        floor_total(n, config).finite(),
        config.max_total_outbound_weight.difference(floor_total(n, config)).finite(),
        !config.max_total_outbound_weight.difference(floor_total(n, config)).negative(),
{
    lemma_bounds(config);
    crate::arith::lemma_difference(config.max_total_outbound_weight, floor_total(n, config));
}

/// The lower bounds of weights together are not negative, or infinite.
pub proof fn lemma_floor_total(n: nat, config: LearningConfig)
    requires
        budgets(config),
    ensures
        !floor_total(n, config).negative(),
        !floor_total(n, config).nan(),
{
    lemma_bounds(config);
    let d = unit_scale();
    vstd::arithmetic::power2::lemma_pow2_pos(149);
    assert(0 <= n * d) by (nonlinear_arith)
        requires
            0 <= n,
            0 < d,
    ;
    crate::arith::lemma_nearest_exists(n * d, 1);
    let x = crate::arith::units(config.min_weight.magnitude());
    let many = Scalar::natural(n as int);
    if many.magnitude() > 0 {
        crate::arith::lemma_units_increase(0, many.magnitude());
    }
    assert(crate::arith::units(0) == 0);
    let y = crate::arith::units(many.magnitude());
    assert(0 <= x * y) by (nonlinear_arith)
        requires
            0 <= x,
            0 <= y,
    ;
    crate::arith::lemma_nearest_exists(x * y, d);
}

/// The factor by which weights exceed the budget is at most one.
pub proof fn lemma_excess_factor(weights: Seq<Scalar>, config: LearningConfig)
    requires
        budgets(config),
        weighable(weights),
    ensures
        excess_factor(weights, config) matches Some(factor) ==> !factor.negative()
            && factor.magnitude() <= ONE && factor == share(
            weights,
            config.max_total_outbound_weight,
        ),
{
    lemma_bounds(config);
    lemma_share(weights, config.max_total_outbound_weight);
}

/// Bringing weights within the budget raises none of them, other than to the
/// lower bound, and takes none through it.
pub proof fn lemma_normalising_raises_none(weights: Seq<Scalar>, config: LearningConfig, i: int)
    requires
        budgets(config),
        weighable(weights),
        excess_factor(weights, config) is Some,
        0 <= i < weights.len(),
    ensures
        normalized(weights, config)[i].at_most(weights[i].larger(config.min_weight)),
        config.min_weight.at_most(normalized(weights, config)[i]),
{
    let floor = config.min_weight;
    let factor = excess_factor(weights, config)->0;
    let n = weights.len();
    lemma_bounds(config);
    lemma_excess_factor(weights, config);
    crate::arith::lemma_shrinking(weights[i], factor);
    lemma_floor_total(n, config);
    if !config.max_total_outbound_weight.at_most(floor_total(n, config)) && !stays_above(
        weights,
        factor,
        floor,
    ) {
        lemma_pool(n, config);
        let pool = config.max_total_outbound_weight.difference(floor_total(n, config));
        lemma_surpluses(weights, floor);
        lemma_share(surpluses(weights, floor), pool);
        let part = share(surpluses(weights, floor), pool);
        lemma_surplus(weights[i], floor);
        crate::arith::lemma_shrinking(surplus(weights[i], floor), part);
        crate::arith::lemma_adding_up(floor, surplus(weights[i], floor).product(part));
    }
}

/// Bringing weights within the budget keeps their order.
pub proof fn lemma_normalising_keeps_order(
    weights: Seq<Scalar>,
    config: LearningConfig,
    i: int,
    j: int,
)
    requires
        budgets(config),
        weighable(weights),
        0 <= i < weights.len(),
        0 <= j < weights.len(),
        weights[i].at_most(weights[j]),
    ensures
        normalized(weights, config)[i].at_most(normalized(weights, config)[j]),
{
    let floor = config.min_weight;
    let n = weights.len();
    lemma_bounds(config);
    if let Some(factor) = excess_factor(weights, config) {
        lemma_excess_factor(weights, config);
        crate::arith::lemma_scaling_keeps_order(weights[i], weights[j], factor);
        lemma_floor_total(n, config);
        if !config.max_total_outbound_weight.at_most(floor_total(n, config)) && !stays_above(
            weights,
            factor,
            floor,
        ) {
            lemma_pool(n, config);
            let pool = config.max_total_outbound_weight.difference(floor_total(n, config));
            lemma_surpluses(weights, floor);
            lemma_share(surpluses(weights, floor), pool);
            let part = share(surpluses(weights, floor), pool);
            let x = weights[i].larger(floor);
            let y = weights[j].larger(floor);
            lemma_surplus(weights[i], floor);
            lemma_surplus(weights[j], floor);
            crate::arith::lemma_differences_keep_order(x, y, floor);
            crate::arith::lemma_scaling_keeps_order(
                surplus(weights[i], floor),
                surplus(weights[j], floor),
                part,
            );
            crate::arith::lemma_shrinking(surplus(weights[i], floor), part);
            crate::arith::lemma_shrinking(surplus(weights[j], floor), part);
            crate::arith::lemma_sums_keep_order(
                floor,
                surplus(weights[i], floor).product(part),
                surplus(weights[j], floor).product(part),
            );
        }
    }
}

/// Where the lower bounds do not fit the budget, weights that exceed it all come
/// to the lower bound.
pub proof fn lemma_the_floors_fill_the_budget(weights: Seq<Scalar>, config: LearningConfig)
    requires
        accountable(weights, config),
        !floors_fit(weights.len(), config),
        excess_factor(weights, config) is Some,
    ensures
        forall|i: int|
            0 <= i < weights.len() ==> #[trigger] normalized(weights, config)[i]
                == config.min_weight,
{
    lemma_bounds(config);
    if weights.len() > 0 {
        crate::arith::lemma_multiple(
            config.min_weight,
            weights.len() as int,
            config.max_total_outbound_weight,
        );
    }
}

/// Errors of rounding add up.
proof fn lemma_errors_add(a: int, b: int, c: int, j: int, k: int)
    requires
        0 <= a,
        0 <= c,
        0 <= j,
        0 <= k,
        j + k <= 0x100_0000,
        (0x100_0000 - j) * a <= 0x100_0000 * b,
        (0x100_0000 - k) * b <= 0x100_0000 * c,
    ensures
        (0x100_0000 - j - k) * a <= 0x100_0000 * c,
{
    let e: int = 0x100_0000;
    assert((e - k) * ((e - j) * a) <= e * (e * c)) by (nonlinear_arith)
        requires
            (e - j) * a <= e * b,
            (e - k) * b <= e * c,
            e - k >= 0,
            e == 0x100_0000,
    {
        assert((e - k) * ((e - j) * a) <= (e - k) * (e * b));
        assert((e - k) * (e * b) == e * ((e - k) * b));
    }
    assert(e * ((e - j - k) * a) <= (e - k) * ((e - j) * a)) by (nonlinear_arith)
        requires
            0 <= a,
            0 <= j,
            0 <= k,
    ;
}

/// The exact sum of parts that were scaled by one factor.
proof fn lemma_scaled_sum(parts: Seq<Scalar>, shares: Seq<Scalar>, factor: Scalar)
    requires
        weighable(parts),
        shares.len() == parts.len(),
        forall|i: int| 0 <= i < parts.len() ==> #[trigger] shares[i] == parts[i].product(factor),
        !factor.negative(),
        factor.magnitude() <= ONE,
    ensures
        0xFF_FFFF * (2 * (unit_scale() * exact_sum(shares))) <= 0x100_0000 * (2 * (exact_sum(parts)
            * factor.exact()) + parts.len() * unit_scale()),
        0 <= exact_sum(shares),
    decreases parts.len(),
{
    let n = parts.len() as int;
    let d = unit_scale();
    let f = factor.exact();
    if n > 0 {
        let front = parts.drop_last();
        let shares_front = shares.drop_last();
        assert forall|i: int| 0 <= i < front.len() implies (#[trigger] front[i]).finite()
            && !front[i].negative() by {
            assert(front[i] == parts[i]);
        }
        assert forall|i: int| 0 <= i < front.len() implies #[trigger] shares_front[i]
            == front[i].product(factor) by {
            assert(shares_front[i] == shares[i]);
        }
        lemma_scaled_sum(front, shares_front, factor);
        assert(parts.last() == parts[n - 1]);
        assert(shares.last() == shares[n - 1]);
        crate::arith::lemma_scaling_error(parts.last(), factor);
        let sum = exact_sum(front);
        let x = parts.last().exact();
        let shared = exact_sum(shares_front);
        let y = shares.last().exact();
        assert(d * (shared + y) == d * shared + d * y) by (nonlinear_arith);
        assert((sum + x) * f == sum * f + x * f) by (nonlinear_arith);
        assert(n * d == (n - 1) * d + d) by (nonlinear_arith);
    } else {
        assert(d * 0 == 0 && 0 * f == 0 && 0 * d == 0) by (nonlinear_arith);
    }
}

/// What parts get of a pool that they share is the pool, up to rounding.
proof fn lemma_shares(parts: Seq<Scalar>, shares: Seq<Scalar>, pool: Scalar, limit: int, low: int)
    requires
        weighable(parts),
        forall|i: int| 0 <= i < parts.len() ==> (#[trigger] parts[i]).exact() <= limit,
        shares.len() == parts.len(),
        forall|i: int|
            0 <= i < parts.len() ==> #[trigger] shares[i] == parts[i].product(share(parts, pool)),
        pool.finite(),
        !pool.negative(),
        parts.len() <= 0x40_0000,
        limit >= 0,
        low >= HIDDEN_BIT,
    ensures
        (0x100_0000 - parts.len() - 2) * (2 * exact_sum(shares)) <= 2 * (0x100_0000 * pool.exact())
            + limit + 2 * (parts.len() * low),
        0 <= exact_sum(shares),
{
    let e: int = 0x100_0000;
    let n = parts.len() as int;
    let d = unit_scale();
    let total = running_sum(parts);
    let factor = share(parts, pool);
    let p = pool.exact();
    let g = factor.exact();
    let sum = exact_sum(parts);
    let y = exact_sum(shares);
    lemma_share(parts, pool);
    lemma_scaled_sum(parts, shares, factor);
    lemma_running_sum(parts);
    assert(crate::arith::units(0) == 0);
    if pool.magnitude() > 0 {
        crate::arith::lemma_units_increase(0, pool.magnitude());
    }
    if factor.magnitude() > 0 {
        crate::arith::lemma_units_increase(0, factor.magnitude());
    }
    crate::arith::lemma_natural(1);
    // What the exact sum is scaled to, with the error of the factor.
    let t = if total.finite() {
        total.exact()
    } else {
        0
    };
    assert(0 <= t <= 2 * (n * limit)) by {
        if total.finite() {
            lemma_running_sum_error(parts, limit);
        } else {
            assert(0 <= n * limit) by (nonlinear_arith)
                requires
                    0 <= n,
                    0 <= limit,
            ;
        }
    }
    assert(0 <= p * d && 0 <= y) by (nonlinear_arith)
        requires
            0 <= p,
            0 < d,
            0 <= y,
    ;
    assert((e - n - 1) * (sum * g) <= e * (p * d + t)) by {
        if total.finite() {
            lemma_running_sum_error(parts, limit);
            assert(0xFF_FFFF * (t * g) <= e * (p * d + t)) by {
                if total.at_most(pool) {
                    crate::arith::lemma_units_of_one();
                    lemma_exact_order(total, pool);
                    assert(0xFF_FFFF * (t * g) <= e * (p * d + t)) by (nonlinear_arith)
                        requires
                            g == d,
                            0 <= t <= p,
                            0 < d,
                            e == 0x100_0000,
                    {
                        assert(t * g <= p * d);
                        assert(0 <= t * g);
                    }
                } else {
                    crate::arith::lemma_part_error(pool, total);
                }
            }
            assert(0 <= sum * g && 0 <= t * g && (e - n) * (sum * g) <= e * (t * g))
                by (nonlinear_arith)
                requires
                    0 <= sum,
                    0 <= t,
                    0 <= g,
                    (e - n) * sum <= e * t,
            ;
            lemma_errors_add(sum * g, t * g, p * d + t, n, 1);
        } else {
            assert(g == 0);
            assert((e - n - 1) * (sum * 0) == 0) by (nonlinear_arith);
        }
    }
    // Two units of `t` are lost in one part of the limit.
    lemma_scale_is_large();
    assert(e * (2 * t) <= d * limit) by (nonlinear_arith)
        requires
            0 <= t <= 2 * (n * limit),
            0 <= n <= 0x40_0000,
            0 <= limit,
            d >= 0x1_0000_0000_0000,
            e == 0x100_0000,
    {
        assert(n * limit <= 0x40_0000 * limit);
        assert(0x1_0000_0000_0000 * limit <= d * limit);
    }
    lemma_pool_bound(n, d, p, t, low, limit, sum * g, y);
}

/// The scale exceeds any rounding of a sum.
proof fn lemma_scale_is_large()
    ensures
        unit_scale() >= 0x1_0000_0000_0000,
{
    vstd::arithmetic::power2::lemma2_to64();
    vstd::arithmetic::power2::lemma_pow2_adds(64, 85);
    vstd::arithmetic::power2::lemma_pow2_pos(85);
    let rest = vstd::arithmetic::power2::pow2(85) as int;
    assert(0x1_0000_0000_0000_0000 * rest >= 0x1_0000_0000_0000) by (nonlinear_arith)
        requires
            rest >= 1,
    ;
}

/// The bound on the shares of a pool that follows from the errors of the sum,
/// the factor and the products.
proof fn lemma_pool_bound(n: int, d: int, p: int, t: int, low: int, limit: int, sg: int, y: int)
    requires
        0 <= n <= 0x40_0000,
        d > 0,
        0 <= y,
        0x80_0000 <= low,
        0x100_0000 * (2 * t) <= d * limit,
        (0x100_0000 - n - 1) * sg <= 0x100_0000 * (p * d + t),
        0xFF_FFFF * (2 * (d * y)) <= 0x100_0000 * (2 * sg + n * d),
    ensures
        (0x100_0000 - n - 2) * (2 * y) <= 2 * (0x100_0000 * p) + limit + 2 * (n * low),
{
    let e: int = 0x100_0000;
    let k = e - n - 1;
    let nd = n * d;
    let pd = p * d;
    let dy = d * y;
    assert(0 <= nd && 0 <= dy) by (nonlinear_arith)
        requires
            0 <= n,
            0 < d,
            0 <= y,
            nd == n * d,
            dy == d * y,
    ;
    assert((e - 1) * (k * (2 * dy)) <= e * (e * (2 * pd + 2 * t + nd))) by (nonlinear_arith)
        requires
            (e - 1) * (2 * dy) <= e * (2 * sg + nd),
            k * sg <= e * (pd + t),
            0 < k <= e,
            0 <= nd,
            e == 0x100_0000,
    {
        assert((e - 1) * (k * (2 * dy)) <= e * (2 * (k * sg) + k * nd));
        assert(k * nd <= e * nd);
        assert(2 * (k * sg) + k * nd <= e * (2 * pd + 2 * t + nd));
    }
    assert((e - n - 2) * (2 * dy) <= e * (2 * pd + 2 * t + nd)) by (nonlinear_arith)
        requires
            (e - 1) * (k * (2 * dy)) <= e * (e * (2 * pd + 2 * t + nd)),
            k == e - n - 1,
            0 <= n,
            0 <= dy,
            e == 0x100_0000,
    {
        assert(e * ((e - n - 2) * (2 * dy)) <= (e - 1) * (k * (2 * dy)));
    }
    assert(e * nd <= d * (2 * (n * low))) by (nonlinear_arith)
        requires
            0x80_0000 <= low,
            0 <= n,
            0 < d,
            nd == n * d,
            e == 0x100_0000,
    {
        assert(0 <= n * d);
        assert(e * (n * d) <= (2 * low) * (n * d));
        assert((2 * low) * (n * d) == d * (2 * (n * low)));
    }
    assert((e - n - 2) * (2 * y) <= 2 * (e * p) + limit + 2 * (n * low)) by (nonlinear_arith)
        requires
            (e - n - 2) * (2 * dy) <= e * (2 * pd + 2 * t + nd),
            e * nd <= d * (2 * (n * low)),
            e * (2 * t) <= d * limit,
            pd == p * d,
            dy == d * y,
            0 < d,
    {
        assert((e - n - 2) * (2 * dy) == d * ((e - n - 2) * (2 * y)));
        assert(e * (2 * pd) == d * (2 * (e * p)));
        assert(d * ((e - n - 2) * (2 * y)) <= d * (2 * (e * p) + limit + 2 * (n * low)));
    }
}

/// The exact sum of weights that were rebased, against the shares above the
/// lower bound.
proof fn lemma_rebased_sum(weights: Seq<Scalar>, after: Seq<Scalar>, shares: Seq<Scalar>, floor: Scalar)
    requires
        after.len() == weights.len(),
        shares.len() == weights.len(),
        weighable(weights),
        weighable(shares),
        floor.finite(),
        !floor.negative(),
        forall|i: int|
            0 <= i < weights.len() ==> #[trigger] after[i] == floor.sum(shares[i]).smaller(
                weights[i].larger(floor),
            ),
    ensures
        0xFF_FFFF * exact_sum(after) <= 0x100_0000 * (weights.len() * floor.exact() + exact_sum(
            shares,
        )),
        0 <= exact_sum(after),
    decreases weights.len(),
{
    let n = weights.len() as int;
    let low = floor.exact();
    if n > 0 {
        let front = weights.drop_last();
        let after_front = after.drop_last();
        let shares_front = shares.drop_last();
        assert forall|i: int| 0 <= i < front.len() implies (#[trigger] front[i]).finite()
            && !front[i].negative() by {
            assert(front[i] == weights[i]);
        }
        assert forall|i: int| 0 <= i < shares_front.len() implies (
        #[trigger] shares_front[i]).finite() && !shares_front[i].negative() by {
            assert(shares_front[i] == shares[i]);
        }
        assert forall|i: int| 0 <= i < front.len() implies #[trigger] after_front[i] == floor.sum(
            shares_front[i],
        ).smaller(front[i].larger(floor)) by {
            assert(after_front[i] == after[i]);
        }
        lemma_rebased_sum(front, after_front, shares_front, floor);
        assert(after.last() == after[n - 1]);
        let whole = floor.sum(shares[n - 1]);
        let bound = weights[n - 1].larger(floor);
        assert(weights[n - 1].finite() && shares[n - 1].finite());
        crate::arith::lemma_sum_error(floor, shares[n - 1]);
        lemma_exact_order(bound, bound);
        if whole.finite() {
            lemma_exact_order(whole, whole);
            if after.last() != whole {
                lemma_exact_order(bound, whole);
            }
        } else {
            // An infinite sum gives way to the bound, which is finite and below.
            lemma_infinite_sum(floor, shares[n - 1], bound);
        }
        assert(n * low == (n - 1) * low + low) by (nonlinear_arith);
    } else {
        assert(0 * low == 0);
    }
}

/// A number is at most a sum that is too large for one.
proof fn lemma_infinite_sum(a: Scalar, b: Scalar, limit: Scalar)
    requires
        a.finite(),
        b.finite(),
        !a.negative(),
        !b.negative(),
        a.sum(b).infinite(),
        limit.finite(),
        !limit.negative(),
    ensures
        limit.exact() <= a.exact() + b.exact(),
        0 <= limit.exact(),
{
    let total = a.exact() + b.exact();
    lemma_exact_order(a, a);
    lemma_exact_order(b, b);
    lemma_exact_order(limit, limit);
    assert(crate::arith::units(0) == 0);
    if total < limit.exact() {
        crate::arith::lemma_rounding_is_exact(limit.magnitude(), 1);
        assert(crate::arith::units(limit.magnitude()) * 1 == crate::arith::units(limit.magnitude()));
        if total > 0 {
            crate::arith::lemma_nearest_exists(total, 1);
            crate::arith::lemma_rounding_is_monotone(total, 1, limit.exact(), 1);
        }
    }
}

/// The sum of copies of one number.
proof fn lemma_equal_sum(values: Seq<Scalar>, each: Scalar)
    requires
        forall|i: int| 0 <= i < values.len() ==> #[trigger] values[i] == each,
    ensures
        exact_sum(values) == values.len() * each.exact(),
    decreases values.len(),
{
    let n = values.len() as int;
    let x = each.exact();
    if n > 0 {
        let front = values.drop_last();
        assert forall|i: int| 0 <= i < front.len() implies #[trigger] front[i] == each by {
            assert(front[i] == values[i]);
        }
        lemma_equal_sum(front, each);
        assert(values.last() == values[n - 1]);
        assert(n * x == (n - 1) * x + x) by (nonlinear_arith);
    } else {
        assert(0 * x == 0);
    }
}

/// Weights that all were scaled stay within the budget.
proof fn lemma_scaled_fit(weights: Seq<Scalar>, config: LearningConfig)
    requires
        accountable(weights, config),
        floors_fit(weights.len(), config),
        excess_factor(weights, config) is Some,
        stays_above(weights, excess_factor(weights, config)->0, config.min_weight),
        !config.max_total_outbound_weight.at_most(floor_total(weights.len(), config)),
    ensures
        within_budget(normalized(weights, config), config),
{
    let n = weights.len() as int;
    let floor = config.min_weight;
    let budget = config.max_total_outbound_weight;
    let factor = excess_factor(weights, config)->0;
    let after = normalized(weights, config);
    let b = budget.exact();
    let low = floor.exact();
    lemma_bounds(config);
    lemma_excess_factor(weights, config);
    lemma_normal_units(floor);
    assert forall|i: int| 0 <= i < n implies (#[trigger] weights[i]).exact() <= b by {
        lemma_exact_order(weights[i], budget);
    }
    assert forall|i: int| 0 <= i < n implies #[trigger] after[i] == weights[i].product(
        share(weights, budget),
    ) by {
        assert(after[i] == scaled(weights[i], factor, floor));
        assert(!weights[i].product(factor).below(floor));
        crate::arith::lemma_shrinking(weights[i], factor);
    }
    lemma_shares(weights, after, budget, b, low);
    let y = exact_sum(after);
    assert((0x100_0000 - n - 5) * y <= 0x100_0000 * b) by (nonlinear_arith)
        requires
            (0x100_0000 - n - 2) * (2 * y) <= 2 * (0x100_0000 * b) + b + 2 * (n * low),
            n * low <= b,
            0 <= y,
            0 <= b,
            0 <= n <= 0x40_0000,
    {
        let e: int = 0x100_0000;
        let k = e - n - 2;
        assert(2 * (k * y) <= (2 * e + 3) * b);
        assert(k * y * (2 * e) <= e * ((2 * e + 3) * b));
        assert((k - 3) * (2 * e + 3) <= k * (2 * e));
        assert(((k - 3) * (2 * e + 3)) * y <= (k * (2 * e)) * y);
        assert((k * (2 * e)) * y == k * y * (2 * e));
        assert(((k - 3) * y) * (2 * e + 3) == ((k - 3) * (2 * e + 3)) * y);
        assert(((k - 3) * y) * (2 * e + 3) <= (e * b) * (2 * e + 3));
    }
}

/// A normal number has at least `2^23` units.
proof fn lemma_normal_units(value: Scalar)
    requires
        HIDDEN_BIT <= value.magnitude(),
        !value.negative(),
    ensures
        value.exact() >= HIDDEN_BIT,
{
    crate::arith::lemma_gaps(value.magnitude());
}

/// Weights that were rebased stay within the budget.
proof fn lemma_rebased_fit(weights: Seq<Scalar>, config: LearningConfig)
    requires
        accountable(weights, config),
        excess_factor(weights, config) is Some,
        !stays_above(weights, excess_factor(weights, config)->0, config.min_weight),
        !config.max_total_outbound_weight.at_most(floor_total(weights.len(), config)),
    ensures
        within_budget(normalized(weights, config), config),
{
    let n = weights.len() as int;
    let floor = config.min_weight;
    let budget = config.max_total_outbound_weight;
    let floors = floor_total(weights.len(), config);
    let pool = budget.difference(floors);
    let parts = surpluses(weights, floor);
    let part = share(parts, pool);
    let after = normalized(weights, config);
    let shares = parts.map_values(|x: Scalar| x.product(part));
    let b = budget.exact();
    let low = floor.exact();
    let f = floors.exact();
    let p = pool.exact();
    assert(n > 0) by {
        if n == 0 {
            assert(stays_above(weights, excess_factor(weights, config)->0, floor));
        }
    }
    lemma_bounds(config);
    lemma_normal_units(floor);
    lemma_floor_total(weights.len(), config);
    lemma_pool(weights.len(), config);
    crate::arith::lemma_multiple(floor, n, budget);
    crate::arith::lemma_difference(budget, floors);
    lemma_surpluses(weights, floor);
    lemma_share(parts, pool);
    assert forall|i: int| 0 <= i < n implies (#[trigger] parts[i]).exact() <= b by {
        assert(parts[i] == surplus(weights[i], floor));
        assert(weights[i].at_most(budget));
        lemma_surplus(weights[i], floor);
        lemma_exact_order(parts[i], budget);
    }
    lemma_shares(parts, shares, pool, b, low);
    assert forall|i: int| 0 <= i < n implies (#[trigger] shares[i]).finite()
        && !shares[i].negative() by {
        assert(parts[i].finite());
        crate::arith::lemma_shrinking(parts[i], part);
    }
    assert forall|i: int| 0 <= i < n implies #[trigger] after[i] == floor.sum(shares[i]).smaller(
        weights[i].larger(floor),
    ) by {
        assert(after[i] == rebased(weights[i], part, floor));
        assert(shares[i] == surplus(weights[i], floor).product(part));
    }
    lemma_rebased_sum(weights, after, shares, floor);
    lemma_rebased_bound(n, b, f, p, n * low, exact_sum(shares), exact_sum(after));
}

/// The bound on the sum of rebased weights that follows from the errors of the
/// lower bounds, the pool, the shares and the sums.
proof fn lemma_rebased_bound(n: int, b: int, f: int, p: int, floors: int, y: int, w: int)
    requires
        0 <= n <= 0x40_0000,
        0 <= b,
        0 <= floors,
        0 <= p,
        0 <= y,
        0 <= w,
        0x100_0000 * floors <= 0x100_0001 * f,
        0xFF_FFFF * p <= 0x100_0000 * (b - f),
        (0x100_0000 - n - 2) * (2 * y) <= 2 * (0x100_0000 * p) + b + 2 * floors,
        0xFF_FFFF * w <= 0x100_0000 * (floors + y),
    ensures
        (0x100_0000 - n - 5) * w <= 0x100_0000 * b,
{
    let e: int = 0x100_0000;
    let m = e - n;
    let k = m - 2;
    assert((e - 1) * floors <= e * f);
    assert((e - 1) * (floors + p) <= e * b);
    // k * (e - 1) * w <= e * (e * (floors + p) + b)
    assert((e - 1) * (k * w) <= e * (e * (floors + p) + b)) by (nonlinear_arith)
        requires
            (e - 1) * w <= e * (floors + y),
            k * (2 * y) <= 2 * (e * p) + b + 2 * floors,
            0 < k <= e - 2,
            0 <= floors,
            0 <= b,
            e == 0x100_0000,
    {
        assert((e - 1) * (k * w) <= e * (k * floors + k * y));
        assert(k * floors <= (e - 2) * floors);
        assert(2 * (k * y) <= 2 * (e * p) + b + 2 * floors);
    }
    assert((e - 1) * ((e - 1) * (k * w)) <= e * (e * (e + 1) * b)) by (nonlinear_arith)
        requires
            (e - 1) * (k * w) <= e * (e * (floors + p) + b),
            (e - 1) * (floors + p) <= e * b,
            0 <= b,
            e == 0x100_0000,
    {
        assert((e - 1) * ((e - 1) * (k * w)) <= (e - 1) * (e * (e * (floors + p) + b)));
        assert((e - 1) * (e * (e * (floors + p) + b)) == e * (e * ((e - 1) * (floors + p)) + (e - 1)
            * b));
        assert(e * ((e - 1) * (floors + p)) <= e * (e * b));
        assert(e * (e * b) + (e - 1) * b <= e * (e + 1) * b);
    }
    assert((m - 5) * (e * (e + 1)) <= (e - 1) * (e - 1) * k) by (nonlinear_arith)
        requires
            m == e - n,
            k == m - 2,
            0 <= n <= 0x40_0000,
            e == 0x100_0000,
    ;
    assert(((m - 5) * w) * (e * (e + 1)) <= (e * b) * (e * (e + 1))) by (nonlinear_arith)
        requires
            (m - 5) * (e * (e + 1)) <= (e - 1) * (e - 1) * k,
            (e - 1) * ((e - 1) * (k * w)) <= e * (e * (e + 1) * b),
            0 <= w,
    {
        assert(((m - 5) * w) * (e * (e + 1)) == ((m - 5) * (e * (e + 1))) * w);
        assert(((m - 5) * (e * (e + 1))) * w <= ((e - 1) * (e - 1) * k) * w);
        assert(((e - 1) * (e - 1) * k) * w == (e - 1) * ((e - 1) * (k * w)));
        assert(e * (e * (e + 1) * b) == (e * b) * (e * (e + 1)));
    }
    assert((m - 5) * w <= e * b) by (nonlinear_arith)
        requires
            ((m - 5) * w) * (e * (e + 1)) <= (e * b) * (e * (e + 1)),
            e == 0x100_0000,
    ;
}

/// Where the lower bounds fit the budget, weights that were brought within it
/// do not exceed it, up to the rounding of single precision.
pub proof fn lemma_the_budget_holds(weights: Seq<Scalar>, config: LearningConfig)
    requires
        accountable(weights, config),
        floors_fit(weights.len(), config),
    ensures
        within_budget(normalized(weights, config), config),
{
    let n = weights.len() as int;
    let floor = config.min_weight;
    let budget = config.max_total_outbound_weight;
    let b = budget.exact();
    let total = running_sum(weights);
    lemma_bounds(config);
    lemma_running_sum(weights);
    match excess_factor(weights, config) {
        None => {
            assert forall|i: int| 0 <= i < n implies (#[trigger] weights[i]).exact() <= b by {
                lemma_exact_order(weights[i], budget);
            }
            assert(total.finite());
            lemma_running_sum_error(weights, b);
            lemma_exact_order(total, budget);
            let sum = exact_sum(weights);
            let t = total.exact();
            assert((0x100_0000 - n - 5) * sum <= 0x100_0000 * b) by (nonlinear_arith)
                requires
                    (0x100_0000 - n) * sum <= 0x100_0000 * t,
                    t <= b,
                    0 <= sum,
            ;
        },
        Some(factor) => {
            let after = normalized(weights, config);
            if budget.at_most(floor_total(weights.len(), config)) {
                lemma_equal_sum(after, floor);
                let sum = n * floor.exact();
                assert((0x100_0000 - n - 5) * sum <= 0x100_0000 * b) by (nonlinear_arith)
                    requires
                        0 <= sum <= b,
                        0 <= n <= 0x40_0000,
                ;
            } else if stays_above(weights, factor, floor) {
                lemma_scaled_fit(weights, config);
            } else {
                lemma_rebased_fit(weights, config);
            }
        },
    }
}

} // verus!
