//! Decay: what waiting keeps and gives.

use vstd::prelude::*;

use crate::arith::unit_scale;
use crate::curves::{leaves, Curves};
use crate::learning::{decayed, LearningConfig};
use crate::scalar::{Scalar, ONE, ZERO};

verus! {

/// Whether a weight decays to another between two instants, by what the host's
/// curves leave of it. A clock that went backwards changes nothing.
pub open spec fn decays<M: Curves>(
    curves: M,
    config: LearningConfig,
    weight: Scalar,
    from_ns: u64,
    to_ns: u64,
    r: Scalar,
) -> bool {
    if to_ns <= from_ns {
        r == weight
    } else {
        exists|remaining: Scalar| #[trigger]
            leaves(curves, (to_ns - from_ns) as u64, config.decay_half_life_hours, remaining) && r
                == decayed(weight, remaining, config)
    }
}

/// Whether the host's curves leave fractions.
pub open spec fn leaves_fractions<M: Curves>(curves: M, config: LearningConfig) -> bool {
    forall|elapsed_ns: u64, remaining: Scalar| #[trigger]
        leaves(curves, elapsed_ns, config.decay_half_life_hours, remaining) ==> is_fraction(
            remaining,
        )
}

/// Whether the host's curves leave no more of a longer time.
pub open spec fn leaves_less_of_more<M: Curves>(curves: M, config: LearningConfig) -> bool {
    forall|short_ns: u64, long_ns: u64, a: Scalar, b: Scalar|
        short_ns <= long_ns && #[trigger] leaves(
            curves,
            short_ns,
            config.decay_half_life_hours,
            a,
        ) && #[trigger] leaves(curves, long_ns, config.decay_half_life_hours, b) ==> b.at_most(a)
}

/// Whether what the host's curves leave of two times multiplies, within a slack
/// in units of `2^-149`, to what they leave of both together.
pub open spec fn leaves_products<M: Curves>(
    curves: M,
    config: LearningConfig,
    slack: int,
) -> bool {
    forall|s: u64, t: u64, st: u64, a: Scalar, b: Scalar, c: Scalar|
        st == s + t && #[trigger] leaves(curves, s, config.decay_half_life_hours, a)
            && #[trigger] leaves(curves, t, config.decay_half_life_hours, b) && #[trigger] leaves(
            curves,
            st,
            config.decay_half_life_hours,
            c,
        ) ==> {
            &&& a.exact() * b.exact() - c.exact() * unit_scale() <= slack * unit_scale()
            &&& c.exact() * unit_scale() - a.exact() * b.exact() <= slack * unit_scale()
        }
}

/// Whether a value is a fraction from zero to one.
pub open spec fn is_fraction(value: Scalar) -> bool {
    !value.negative() && value.magnitude() <= ONE
}

/// The value of a fraction is not negative, and at most that of one.
proof fn lemma_fraction(value: Scalar)
    requires
        is_fraction(value),
    ensures
        0 <= value.exact() <= unit_scale(),
        unit_scale() > 0,
{
    let one = ONE as int;
    crate::arith::lemma_units_of_one();
    assert(crate::arith::units(0) == 0);
    if 0 < value.magnitude() {
        crate::arith::lemma_units_increase(0, value.magnitude());
    }
    if value.magnitude() < one {
        crate::arith::lemma_units_increase(value.magnitude(), one);
    }
}

/// The larger of two numbers that are not negative has the larger exact value.
proof fn lemma_larger(a: Scalar, b: Scalar)
    requires
        a.finite(),
        b.finite(),
        !a.negative(),
        !b.negative(),
    ensures
        a.larger(b).exact() == (if a.exact() < b.exact() {
            b.exact()
        } else {
            a.exact()
        }),
        a.exact() >= 0,
        b.exact() >= 0,
{
    assert(crate::arith::units(0) == 0);
    if 0 < a.magnitude() {
        crate::arith::lemma_units_increase(0, a.magnitude());
    }
    if 0 < b.magnitude() {
        crate::arith::lemma_units_increase(0, b.magnitude());
    }
    if a.magnitude() < b.magnitude() {
        crate::arith::lemma_units_increase(a.magnitude(), b.magnitude());
    } else if b.magnitude() < a.magnitude() {
        crate::arith::lemma_units_increase(b.magnitude(), a.magnitude());
    }
}

/// The more of a weight remains, the heavier it is.
proof fn lemma_decay_follows_what_remains(
    weight: Scalar,
    less: Scalar,
    more: Scalar,
    config: LearningConfig,
)
    requires
        weight.finite(),
        !weight.negative(),
        !config.min_weight.nan(),
        is_fraction(less),
        is_fraction(more),
        less.at_most(more),
    ensures
        decayed(weight, less, config).at_most(decayed(weight, more, config)),
{
    let d = unit_scale();
    let w = weight.exact();
    let a = less.exact();
    let b = more.exact();
    lemma_fraction(less);
    lemma_fraction(more);
    lemma_larger(weight, weight);
    if less.magnitude() < more.magnitude() {
        crate::arith::lemma_units_increase(less.magnitude(), more.magnitude());
    }
    assert(0 <= w * a && 0 <= w * b && (w * a) * d <= (w * b) * d) by (nonlinear_arith)
        requires
            0 <= w,
            0 <= a <= b,
            0 < d,
    ;
    crate::arith::lemma_rounding_is_monotone(w * a, d, w * b, d);
    crate::arith::lemma_nearest_exists(w * a, d);
    crate::arith::lemma_nearest_exists(w * b, d);
    crate::arith::lemma_shrinking(weight, less);
    crate::arith::lemma_shrinking(weight, more);
}

/// Where what remains of two spans, one after the other, multiplies to what
/// remains of both within a slack, decay in two steps is decay in one, within
/// that slack of the weight and the rounding of three products.
proof fn lemma_two_steps(
    weight: Scalar,
    first: Scalar,
    second: Scalar,
    both: Scalar,
    slack: int,
    config: LearningConfig,
)
    requires
        weight.finite(),
        !weight.negative(),
        Scalar::from_bits(ZERO).below(config.min_weight),
        config.min_weight.at_most(weight),
        is_fraction(first),
        is_fraction(second),
        is_fraction(both),
        0 <= slack,
        first.exact() * second.exact() - both.exact() * unit_scale() <= slack * unit_scale(),
        both.exact() * unit_scale() - first.exact() * second.exact() <= slack * unit_scale(),
    ensures
        ({
            let twice = decayed(decayed(weight, first, config), second, config).exact();
            let once = decayed(weight, both, config).exact();
            let bound = 3 * (unit_scale() * (weight.exact() + 0x100_0000)) + 0x100_0000 * (
            weight.exact() * slack);
            &&& 0x100_0000 * (unit_scale() * (twice - once)) <= bound
            &&& 0x100_0000 * (unit_scale() * (once - twice)) <= bound
        }),
{
    let floor = config.min_weight;
    let d = unit_scale();
    let between = weight.product(first);
    let held = between.larger(floor);
    lemma_fraction(first);
    lemma_fraction(second);
    lemma_fraction(both);
    crate::arith::lemma_shrinking(weight, first);
    crate::arith::lemma_shrinking(weight, both);
    crate::arith::lemma_shrinking(held, second);
    crate::arith::lemma_scaling_distance(weight, first);
    crate::arith::lemma_scaling_distance(weight, both);
    crate::arith::lemma_scaling_distance(held, second);
    lemma_larger(between, floor);
    lemma_larger(weight, floor);
    lemma_larger(held.product(second), floor);
    lemma_larger(weight.product(both), floor);
    lemma_steps(
        d,
        weight.exact(),
        floor.exact(),
        first.exact(),
        second.exact(),
        both.exact(),
        slack,
        between.exact(),
        held.exact(),
        held.product(second).exact(),
        weight.product(both).exact(),
    );
}

/// The distance of decay in two steps from decay in one.
proof fn lemma_steps(
    d: int,
    w: int,
    m: int,
    a: int,
    b: int,
    c: int,
    slack: int,
    p: int,
    q: int,
    s: int,
    u: int,
)
    requires
        d > 0,
        0 <= m <= w,
        0 <= a <= d,
        0 <= b <= d,
        0 <= c <= d,
        0 <= slack,
        a * b - c * d <= slack * d,
        c * d - a * b <= slack * d,
        0 <= p <= w,
        q == (if p < m {
            m
        } else {
            p
        }),
        0 <= s <= q,
        0 <= u <= w,
        0x100_0000 * (d * p - w * a) <= d * (w + 0x100_0000),
        0x100_0000 * (w * a - d * p) <= d * (w + 0x100_0000),
        0x100_0000 * (d * s - q * b) <= d * (q + 0x100_0000),
        0x100_0000 * (q * b - d * s) <= d * (q + 0x100_0000),
        0x100_0000 * (d * u - w * c) <= d * (w + 0x100_0000),
        0x100_0000 * (w * c - d * u) <= d * (w + 0x100_0000),
    ensures
        ({
            let twice = if s < m {
                m
            } else {
                s
            };
            let once = if u < m {
                m
            } else {
                u
            };
            let bound = 3 * (d * (w + 0x100_0000)) + 0x100_0000 * (w * slack);
            &&& 0x100_0000 * (d * (twice - once)) <= bound
            &&& 0x100_0000 * (d * (once - twice)) <= bound
        }),
{
    let e: int = 0x100_0000;
    let g = d * (w + e);
    let pb = p * b;
    let qb = q * b;
    let wc = w * c;
    let lim = d * m;
    // The first product, scaled by what remains of the second span.
    let h = d * p - w * a;
    assert(b * h == d * pb - w * (a * b)) by (nonlinear_arith)
        requires
            h == d * p - w * a,
            pb == p * b,
    ;
    assert(0 <= g) by (nonlinear_arith)
        requires
            g == d * (w + e),
            0 < d,
            0 <= w,
            e == 0x100_0000,
    ;
    assert(e * (b * h) <= d * g && e * (-(b * h)) <= d * g) by (nonlinear_arith)
        requires
            e * h <= g,
            e * (-h) <= g,
            0 <= b <= d,
            0 <= g,
    {
        assert(b * (e * h) <= b * g);
        assert(b * (e * (-h)) <= b * g);
        assert(b * g <= d * g);
    }
    assert(w * (a * b) - d * wc <= (w * slack) * d && d * wc - w * (a * b) <= (w * slack) * d)
        by (nonlinear_arith)
        requires
            a * b - c * d <= slack * d,
            c * d - a * b <= slack * d,
            0 <= w,
            wc == w * c,
    {
        assert(w * (a * b - c * d) <= w * (slack * d));
        assert(w * (c * d - a * b) <= w * (slack * d));
    }
    let ws = w * slack;
    assert(e * (pb - wc) <= g + e * ws && e * (wc - pb) <= g + e * ws) by (nonlinear_arith)
        requires
            e * (d * pb - w * (a * b)) <= d * g,
            e * (w * (a * b) - d * pb) <= d * g,
            w * (a * b) - d * wc <= ws * d,
            d * wc - w * (a * b) <= ws * d,
            d > 0,
            e == 0x100_0000,
    {
        assert(d * (e * (pb - wc)) <= d * (g + e * ws));
        assert(d * (e * (wc - pb)) <= d * (g + e * ws));
    }
    // Below the lower bound, scaling leaves less than the bound.
    assert(m * b <= lim && (p < m ==> pb <= lim)) by (nonlinear_arith)
        requires
            0 <= m,
            0 <= b <= d,
            lim == d * m,
            pb == p * b,
            0 <= p,
    {
        assert(m * b <= m * d);
        assert(p < m ==> p * b <= m * b);
    }
    assert(d * (q + e) <= g) by (nonlinear_arith)
        requires
            q <= w,
            d > 0,
            g == d * (w + e),
    ;
    let x = if pb < lim {
        lim
    } else {
        pb
    };
    let y = if qb < lim {
        lim
    } else {
        qb
    };
    assert(x == y);
    let twice = if s < m {
        m
    } else {
        s
    };
    let once = if u < m {
        m
    } else {
        u
    };
    assert((s < m ==> d * s <= lim) && (s >= m ==> d * s >= lim) && (u < m ==> d * u <= lim) && (u
        >= m ==> d * u >= lim)) by (nonlinear_arith)
        requires
            d > 0,
            lim == d * m,
    ;
    assert(d * (twice - once) == d * twice - d * once) by (nonlinear_arith);
    assert(d * (once - twice) == d * once - d * twice) by (nonlinear_arith);
}

/// The longer a weight is left alone, the lighter it is, where the host's curves
/// leave fractions and no more of a longer time.
pub proof fn lemma_waiting_weighs_less<M: Curves>(
    curves: M,
    config: LearningConfig,
    weight: Scalar,
    from_ns: u64,
    soon_ns: u64,
    late_ns: u64,
    soon: Scalar,
    late: Scalar,
)
    requires
        leaves_fractions(curves, config),
        leaves_less_of_more(curves, config),
        weight.finite(),
        !weight.negative(),
        config.min_weight.at_most(weight),
        soon_ns <= late_ns,
        decays(curves, config, weight, from_ns, soon_ns, soon),
        decays(curves, config, weight, from_ns, late_ns, late),
    ensures
        late.at_most(soon),
        soon.at_most(weight),
        config.min_weight.at_most(late),
{
    let half_life = config.decay_half_life_hours;
    if late_ns > from_ns {
        let b = choose|b: Scalar| #[trigger]
            leaves(curves, (late_ns - from_ns) as u64, half_life, b) && late == decayed(
                weight,
                b,
                config,
            );
        crate::learning::lemma_decay_does_not_strengthen(weight, b, config);
        if soon_ns > from_ns {
            let a = choose|a: Scalar| #[trigger]
                leaves(curves, (soon_ns - from_ns) as u64, half_life, a) && soon == decayed(
                    weight,
                    a,
                    config,
                );
            crate::learning::lemma_decay_does_not_strengthen(weight, a, config);
            lemma_decay_follows_what_remains(weight, b, a, config);
        }
    }
}

/// Decay does not depend on how often it is swept: where the host's curves leave
/// fractions that multiply within a slack, a weight that is decayed at an
/// instant in between and again at the end is the weight decayed once, within
/// that slack of the weight and the rounding of three products.
pub proof fn lemma_decay_does_not_depend_on_the_sweep<M: Curves>(
    curves: M,
    config: LearningConfig,
    slack: int,
    weight: Scalar,
    from_ns: u64,
    between_ns: u64,
    to_ns: u64,
    halfway: Scalar,
    twice: Scalar,
    once: Scalar,
)
    requires
        leaves_fractions(curves, config),
        leaves_products(curves, config, slack),
        0 <= slack,
        weight.finite(),
        !weight.negative(),
        Scalar::from_bits(ZERO).below(config.min_weight),
        config.min_weight.at_most(weight),
        from_ns < between_ns < to_ns,
        decays(curves, config, weight, from_ns, between_ns, halfway),
        decays(curves, config, halfway, between_ns, to_ns, twice),
        decays(curves, config, weight, from_ns, to_ns, once),
    ensures
        ({
            let bound = 3 * (unit_scale() * (weight.exact() + 0x100_0000)) + 0x100_0000 * (
            weight.exact() * slack);
            &&& 0x100_0000 * (unit_scale() * (twice.exact() - once.exact())) <= bound
            &&& 0x100_0000 * (unit_scale() * (once.exact() - twice.exact())) <= bound
        }),
{
    let half_life = config.decay_half_life_hours;
    let first = choose|a: Scalar| #[trigger]
        leaves(curves, (between_ns - from_ns) as u64, half_life, a) && halfway == decayed(
            weight,
            a,
            config,
        );
    let second = choose|b: Scalar| #[trigger]
        leaves(curves, (to_ns - between_ns) as u64, half_life, b) && twice == decayed(
            halfway,
            b,
            config,
        );
    let both = choose|c: Scalar| #[trigger]
        leaves(curves, (to_ns - from_ns) as u64, half_life, c) && once == decayed(
            weight,
            c,
            config,
        );
    lemma_two_steps(weight, first, second, both, slack, config);
}

} // verus!
