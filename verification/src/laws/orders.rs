//! How single-precision arithmetic keeps the order of what goes in.

use vstd::arithmetic::power2::{
    lemma2_to64, lemma2_to64_rest, lemma_pow2_adds, lemma_pow2_pos, pow2,
};
use vstd::prelude::*;

use crate::arith::{
    lemma_nearest_exists, lemma_rounding_error, lemma_rounding_is_exact, lemma_rounding_is_monotone,
    lemma_sum_error, lemma_units_increase, lemma_units_of_one, lemma_whole_error, rounded,
    unit_scale, units,
};
use crate::scalar::{Scalar, HIDDEN_BIT, INFINITY_BITS, ONE, ZERO};

verus! {

/// Whether a value is a number that is not negative. It may be infinite.
pub open spec fn plain(x: Scalar) -> bool {
    !x.nan() && !x.negative()
}

/// The units of magnitudes are not negative and grow with them.
pub proof fn lemma_units_order(a: int, b: int)
    requires
        0 <= a <= b,
    ensures
        0 <= units(a) <= units(b),
        a < b ==> units(a) < units(b),
{
    assert(units(0) == 0);
    if 0 < a {
        lemma_units_increase(0, a);
    }
    if a < b {
        lemma_units_increase(a, b);
    }
}

/// Exact values of numbers keep their order.
pub proof fn lemma_exact_order(a: Scalar, b: Scalar)
    requires
        a.finite(),
        b.finite(),
        !a.negative(),
        !b.negative(),
    ensures
        a.at_most(b) <==> a.exact() <= b.exact(),
        a.below(b) <==> a.exact() < b.exact(),
        0 <= a.exact(),
        0 <= b.exact(),
{
    lemma_units_order(0, a.magnitude());
    lemma_units_order(0, b.magnitude());
    if a.magnitude() <= b.magnitude() {
        lemma_units_order(a.magnitude(), b.magnitude());
    } else {
        lemma_units_order(b.magnitude(), a.magnitude());
    }
}

/// Larger factors give a larger product.
pub proof fn lemma_products_keep_order(a: Scalar, b: Scalar, x: Scalar, y: Scalar)
    requires
        !a.negative(),
        !b.negative(),
        !x.negative(),
        !y.negative(),
        b.finite(),
        y.finite(),
        a.at_most(b),
        x.at_most(y),
    ensures
        a.product(x).at_most(b.product(y)),
        plain(a.product(x)),
        plain(b.product(y)),
{
    let d = unit_scale();
    let p = units(a.magnitude());
    let q = units(b.magnitude());
    let f = units(x.magnitude());
    let g = units(y.magnitude());
    lemma_pow2_pos(149);
    lemma_units_order(a.magnitude(), b.magnitude());
    lemma_units_order(x.magnitude(), y.magnitude());
    assert(0 <= p * f && 0 <= q * g && (p * f) * d <= (q * g) * d) by (nonlinear_arith)
        requires
            0 <= p <= q,
            0 <= f <= g,
            d > 0,
    ;
    lemma_rounding_is_monotone(p * f, d, q * g, d);
    lemma_nearest_exists(p * f, d);
    lemma_nearest_exists(q * g, d);
}

/// Larger terms give a larger sum.
pub proof fn lemma_larger_sums(a: Scalar, b: Scalar, x: Scalar, y: Scalar)
    requires
        plain(a),
        plain(b),
        plain(x),
        plain(y),
        a.at_most(b),
        x.at_most(y),
    ensures
        a.sum(x).at_most(b.sum(y)),
        plain(a.sum(x)),
        plain(b.sum(y)),
{
    lemma_units_order(a.magnitude(), b.magnitude());
    lemma_units_order(x.magnitude(), y.magnitude());
    let p = a.exact() + x.exact();
    let q = b.exact() + y.exact();
    if p > 0 {
        lemma_nearest_exists(p, 1);
    }
    if q > 0 {
        lemma_nearest_exists(q, 1);
    }
    if p > 0 && q > 0 && b.finite() && y.finite() {
        lemma_rounding_is_monotone(p, 1, q, 1);
    }
}

/// A sum is at most a number that the exact sum is at most.
pub proof fn lemma_sum_within(a: Scalar, b: Scalar, limit: Scalar)
    requires
        a.finite(),
        b.finite(),
        limit.finite(),
        !a.negative(),
        !b.negative(),
        !limit.negative(),
        a.exact() + b.exact() <= limit.exact(),
    ensures
        a.sum(b).at_most(limit),
        a.sum(b).finite(),
        !a.sum(b).negative(),
{
    lemma_units_order(0, a.magnitude());
    lemma_units_order(0, b.magnitude());
    let total = a.exact() + b.exact();
    if total > 0 {
        lemma_nearest_exists(total, 1);
        lemma_rounding_is_exact(limit.magnitude(), 1);
        assert(units(limit.magnitude()) * 1 == units(limit.magnitude()));
        lemma_rounding_is_monotone(total, 1, limit.exact(), 1);
    }
}

/// A larger number over the same divisor is larger, and over a larger divisor a
/// number is smaller.
pub proof fn lemma_quotients_keep_order(a: Scalar, b: Scalar, x: Scalar, y: Scalar)
    requires
        !a.negative(),
        !b.negative(),
        !x.negative(),
        plain(y),
        b.finite(),
        a.at_most(b),
        x.at_most(y),
        Scalar::from_bits(ZERO).below(x),
    ensures
        a.quotient(y).at_most(b.quotient(x)),
        plain(a.quotient(y)),
        plain(b.quotient(x)),
{
    let d = unit_scale();
    let p = units(a.magnitude());
    let q = units(b.magnitude());
    let f = units(x.magnitude());
    let g = units(y.magnitude());
    lemma_pow2_pos(149);
    lemma_units_order(a.magnitude(), b.magnitude());
    lemma_units_order(x.magnitude(), y.magnitude());
    lemma_units_order(0, x.magnitude());
    assert(units(0) == 0);
    assert(0 <= p * d && 0 <= q * d && (p * d) * f <= (q * d) * g) by (nonlinear_arith)
        requires
            0 <= p <= q,
            0 < f <= g,
            d > 0,
    ;
    lemma_rounding_is_monotone(p * d, g, q * d, f);
    lemma_nearest_exists(p * d, g);
    lemma_nearest_exists(q * d, f);
}

/// A power of two above one is represented exactly.
pub proof fn lemma_power(k: nat) -> (m: int)
    requires
        k <= 100,
    ensures
        units(m) == pow2(k) * unit_scale(),
        ONE <= m < INFINITY_BITS,
        m == (127 + k) * HIDDEN_BIT,
{
    let h = HIDDEN_BIT as int;
    let m = (127 + k) * h;
    lemma2_to64();
    assert(m / h == 127 + k && m % h == 0) by {
        vstd::arithmetic::div_mod::lemma_div_multiples_vanish((127 + k) as int, h);
        vstd::arithmetic::div_mod::lemma_mod_multiples_basic((127 + k) as int, h);
        assert(h * (127 + k) == m) by (nonlinear_arith)
            requires
                m == (127 + k) * h,
        ;
    }
    lemma_pow2_adds(23, 126 + k);
    lemma_pow2_adds(k, 149);
    assert(pow2(23) == h);
    assert(units(m) == h * pow2((126 + k) as nat));
    m
}

/// Whole numbers keep their order, and those of a machine word are finite.
pub proof fn lemma_naturals_keep_order(m: int, n: int)
    requires
        0 <= m <= n,
        n <= u64::MAX,
    ensures
        Scalar::natural(m).at_most(Scalar::natural(n)),
        Scalar::natural(n).finite(),
        !Scalar::natural(m).negative(),
        !Scalar::natural(n).negative(),
        Scalar::natural(n).exact() <= pow2(64) * unit_scale(),
        m >= 1 ==> Scalar::natural(m).exact() >= unit_scale(),
        m == 0 ==> Scalar::natural(m) == Scalar::from_bits(ZERO),
{
    let d = unit_scale();
    lemma_pow2_pos(149);
    lemma2_to64();
    let top = lemma_power(64);
    let one = lemma_power(0);
    lemma_rounding_is_exact(top, 1);
    lemma_rounding_is_exact(one, 1);
    lemma_rounding_is_exact(0, 1);
    assert(units(0) == 0);
    assert(units(top) * 1 == units(top) && units(one) * 1 == units(one) && units(0) * 1 == 0);
    assert(0 <= m * d && m * d <= n * d && n * d <= pow2(64) * d && 0 <= n * d) by (nonlinear_arith)
        requires
            0 <= m <= n <= pow2(64),
            d > 0,
    ;
    lemma_rounding_is_monotone(m * d, 1, n * d, 1);
    lemma_rounding_is_monotone(n * d, 1, pow2(64) * d, 1);
    lemma_nearest_exists(m * d, 1);
    lemma_nearest_exists(n * d, 1);
    lemma_units_order(rounded(n * d, 1), top);
    if m >= 1 {
        assert(d <= m * d) by (nonlinear_arith)
            requires
                m >= 1,
                d > 0,
        ;
        lemma_rounding_is_monotone(d, 1, m * d, 1);
        lemma_units_order(one, rounded(m * d, 1));
    }
    if m == 0 {
        assert(m * d == 0);
    }
}

/// Two inequalities in a row.
proof fn lemma_chain(a: int, b: int, c: int, f: int, x: int, y: int, z: int)
    requires
        0 <= b,
        0 <= c,
        a * x <= b * y,
        c * y <= f * z,
    ensures
        (a * c) * x <= (b * f) * z,
{
    assert((a * c) * x <= (b * f) * z) by (nonlinear_arith)
        requires
            0 <= b,
            0 <= c,
            a * x <= b * y,
            c * y <= f * z,
    {
        assert(c * (a * x) <= c * (b * y));
        assert(b * (c * y) <= b * (f * z));
    }
}

/// A quotient of numbers whose ratio is neither tiny nor huge is within one
/// part in `2^24` of the exact one.
pub proof fn lemma_ratio_error(a: Scalar, b: Scalar)
    requires
        a.finite(),
        b.finite(),
        !a.negative(),
        !b.negative(),
        a.exact() > 0,
        b.exact() > 0,
        b.exact() <= pow2(100) * a.exact(),
        a.exact() <= pow2(100) * b.exact(),
    ensures
        a.quotient(b).finite(),
        !a.quotient(b).negative(),
        a.quotient(b).exact() > 0,
        0x100_0000 * (a.exact() * unit_scale()) <= 0x100_0001 * (b.exact() * a.quotient(b).exact()),
        0xFF_FFFF * (b.exact() * a.quotient(b).exact()) <= 0x100_0000 * (a.exact() * unit_scale()),
{
    let d = unit_scale();
    let x = a.exact();
    let y = b.exact();
    let h = HIDDEN_BIT as int;
    lemma_pow2_pos(149);
    lemma_pow2_pos(100);
    lemma2_to64();
    assert(a.magnitude() > 0 && b.magnitude() > 0) by {
        assert(units(0) == 0);
    }
    let top = lemma_power(100);
    lemma_pow2_adds(100, 49);
    lemma_pow2_adds(23, 26);
    let low = pow2(49) as int;
    let high = pow2(100) as int;
    lemma_pow2_pos(26);
    lemma_pow2_pos(49);
    assert(units(h) == h) by {
        assert(h / h == 1 && h % h == 0);
    }
    lemma_rounding_is_exact(h, y);
    lemma_rounding_is_exact(top, y);
    assert(0 <= x * d) by (nonlinear_arith)
        requires
            0 <= x,
            0 < d,
    ;
    assert(h * y <= x * d) by (nonlinear_arith)
        requires
            y <= high * x,
            h <= low,
            d == high * low,
            0 < x,
            0 < y,
            0 < high,
            0 < h,
    {
        assert(h * y <= low * y);
        assert(low * y <= low * (high * x));
        assert(low * (high * x) == x * (high * low));
    }
    assert(x * d <= (high * d) * y) by (nonlinear_arith)
        requires
            x <= high * y,
            0 < d,
    {
        assert(x * d <= (high * y) * d);
    }
    assert(units(h) * y == h * y);
    assert(units(top) * y == (high * d) * y);
    assert((h * y) * y <= (x * d) * y && (x * d) * y <= ((high * d) * y) * y && 0 <= h * y && 0 <= (
    high * d) * y) by (nonlinear_arith)
        requires
            h * y <= x * d,
            x * d <= (high * d) * y,
            0 < y,
            0 < h,
            0 < d,
            0 < high,
    ;
    lemma_rounding_is_monotone(h * y, y, x * d, y);
    lemma_rounding_is_monotone(x * d, y, (high * d) * y, y);
    lemma_nearest_exists(x * d, y);
    lemma_rounding_error(x * d, y);
    lemma_units_order(h, rounded(x * d, y));
}

/// One over one and a count of spans is the span's share of both, within some
/// parts in `2^24`: what is left of one when every span takes as much again.
pub proof fn lemma_share(n: int, span: Scalar, length: int)
    requires
        0 <= n <= u64::MAX,
        span.finite(),
        !span.negative(),
        1 <= length <= pow2(62),
        0xFF_FFFF * (length * unit_scale()) <= 0x100_0000 * span.exact(),
        0x100_0000 * span.exact() <= 0x100_0001 * (length * unit_scale()),
    ensures
        ({
            let one = Scalar::from_bits(ONE);
            let share = one.quotient(one.sum(Scalar::natural(n).quotient(span)));
            &&& share.finite()
            &&& share.between(Scalar::from_bits(ZERO), one)
            &&& share.exact() > 0
            &&& 0x100_0000 * (share.exact() * (length + n)) <= 0x100_0008 * (length * unit_scale())
            &&& 0xFF_FFF8 * (length * unit_scale()) <= 0x100_0000 * (share.exact() * (length + n))
        }),
{
    let one = Scalar::from_bits(ONE);
    let zero = Scalar::from_bits(ZERO);
    let e: int = 0x100_0000;
    let d = unit_scale();
    let c = span.exact();
    let spans = Scalar::natural(n);
    let q = spans.quotient(span);
    let s = one.sum(q);
    let share = one.quotient(s);
    lemma_pow2_pos(149);
    lemma2_to64();
    lemma2_to64_rest();
    lemma_units_of_one();
    lemma_naturals_keep_order(n, n);
    assert(units(0) == 0);
    let big = lemma_power(100);
    lemma_pow2_adds(62, 38);
    lemma_pow2_adds(64, 36);
    lemma_pow2_adds(66, 34);
    lemma_pow2_adds(1, 99);
    lemma_pow2_adds(2, 64);
    lemma_pow2_adds(62, 1);
    let top = Scalar { bits: big as u32 };
    assert(0 < length * d) by (nonlinear_arith)
        requires
            1 <= length,
            0 < d,
    ;
    assert(0 < c);
    assert(span.magnitude() > 0);
    // How many spans, against the exact number of them.
    if n == 0 {
        assert(units(0) * d == 0);
        lemma_rounding_is_exact(0, c);
        assert(units(0) * c == 0);
        assert(q == zero);
        assert(q.exact() * length == 0);
    } else {
        let m = spans.exact();
        assert(0 < n * d) by (nonlinear_arith)
            requires
                0 < n,
                0 < d,
        ;
        lemma_whole_error(n * d);
        assert(e * (n * d) <= (e + 1) * m && (e - 1) * m <= e * (n * d));
        assert(length * d <= pow2(62) * d) by (nonlinear_arith)
            requires
                length <= pow2(62),
                0 < d,
        ;
        assert(d <= length * d) by (nonlinear_arith)
            requires
                1 <= length,
                0 < d,
        ;
        assert(c <= 2 * (pow2(62) * d));
        assert(d <= 2 * c);
        assert(c <= pow2(100) * m) by (nonlinear_arith)
            requires
                c <= 2 * (pow2(62) * d),
                d <= m,
                0 < d,
                pow2(100) == pow2(62) * pow2(38),
                pow2(38) >= 2,
                pow2(62) > 0,
        {
            assert(pow2(62) * d <= pow2(62) * m);
            assert(2 * (pow2(62) * m) <= pow2(38) * (pow2(62) * m));
        }
        assert(m <= pow2(100) * c) by (nonlinear_arith)
            requires
                m <= pow2(64) * d,
                d <= 2 * c,
                0 < c,
                pow2(100) == pow2(64) * pow2(36),
                pow2(36) >= 2,
                pow2(64) > 0,
        {
            assert(pow2(64) * d <= pow2(64) * (2 * c));
            assert(2 * (pow2(64) * c) <= pow2(36) * (pow2(64) * c));
        }
        lemma_ratio_error(spans, span);
        assert(q.exact() <= pow2(66) * d) by (nonlinear_arith)
            requires
                (e - 1) * (c * q.exact()) <= e * (m * d),
                m <= pow2(64) * d,
                d <= 2 * c,
                0 < c,
                0 < d,
                0 < q.exact(),
                e == 0x100_0000,
                pow2(66) == 4 * pow2(64),
                pow2(64) > 0,
        {
            // (e - 1) * c * q <= e * 2^64 * d * d <= e * 2^65 * d * c
            assert(m * d <= (pow2(64) * d) * d);
            assert((pow2(64) * d) * d <= (pow2(64) * d) * (2 * c));
            assert((e - 1) * (c * q.exact()) == c * ((e - 1) * q.exact()));
            assert(e * ((pow2(64) * d) * (2 * c)) == c * ((2 * e) * (pow2(64) * d)));
            assert((e - 1) * q.exact() <= (2 * e) * (pow2(64) * d));
        }
    }
    let x = q.exact();
    assert(!q.negative() && q.finite());
    lemma_units_order(0, q.magnitude());
    assert(0 <= x <= pow2(66) * d) by {
        if n == 0 {
            assert(0 <= pow2(66) * d) by (nonlinear_arith)
                requires
                    0 < d,
            ;
        }
    }
    assert(((e + 1) * (e + 1) * (e + 1)) * (length * (d + x)) >= (e * e * e) * ((length + n) * d)
        && ((e - 1) * (e - 1) * (e - 1)) * (length * (d + x)) <= (e * e * e) * ((length + n) * d)) by {
        if n == 0 {
            assert(length * (d + 0) == (length + 0) * d);
            let y = length * d;
            let up = (e + 1) * (e + 1) * (e + 1);
            let mid = e * e * e;
            let down = (e - 1) * (e - 1) * (e - 1);
            assert(down <= mid <= up) by (nonlinear_arith)
                requires
                    e == 0x100_0000,
                    up == (e + 1) * (e + 1) * (e + 1),
                    mid == e * e * e,
                    down == (e - 1) * (e - 1) * (e - 1),
            ;
            assert(down * y <= mid * y <= up * y) by (nonlinear_arith)
                requires
                    0 < y,
                    down <= mid <= up,
            ;
            assert(x == 0);
            assert(length * (d + x) == y && (length + n) * d == y);
        } else {
            let m = spans.exact();
            let ld = length * d;
            let nd = n * d;
            let cx = c * x;
            let md = m * d;
            let lx = length * x;
            // Lengths times spans, from below and from above.
            assert(((e + 1) * (e + 1) * (e + 1)) * (lx * d) >= (e * e * e) * (nd * d)
                && ((e - 1) * (e - 1) * (e - 1)) * (lx * d) <= (e * e * e) * (nd * d)) by {
                assert(e * (nd * d) <= (e + 1) * md) by (nonlinear_arith)
                    requires
                        e * nd <= (e + 1) * m,
                        md == m * d,
                        0 < d,
                {
                    assert((e * nd) * d <= ((e + 1) * m) * d);
                }
                assert((e - 1) * md <= e * (nd * d)) by (nonlinear_arith)
                    requires
                        (e - 1) * m <= e * nd,
                        md == m * d,
                        0 < d,
                {
                    assert(((e - 1) * m) * d <= (e * nd) * d);
                }
                assert(e * cx <= (e + 1) * (lx * d)) by (nonlinear_arith)
                    requires
                        e * c <= (e + 1) * ld,
                        cx == c * x,
                        lx == length * x,
                        ld == length * d,
                        0 <= x,
                {
                    assert((e * c) * x <= ((e + 1) * ld) * x);
                    assert(ld * x == lx * d);
                }
                assert((e - 1) * (lx * d) <= e * cx) by (nonlinear_arith)
                    requires
                        (e - 1) * ld <= e * c,
                        cx == c * x,
                        lx == length * x,
                        ld == length * d,
                        0 <= x,
                {
                    assert(((e - 1) * ld) * x <= (e * c) * x);
                    assert(ld * x == lx * d);
                }
                let u = nd * d;
                let v = lx * d;
                assert(e * md <= (e + 1) * cx && (e - 1) * cx <= e * md);
                assert(0x1000001 * 0x1000001 * 0x1000001 * v >= 0x1000000 * 0x1000000 * 0x1000000
                    * u) by {
                    lemma_chain(e, e + 1, e, e + 1, u, md, cx);
                    lemma_chain(e * e, (e + 1) * (e + 1), e, e + 1, u, cx, v);
                }
                assert(0xFFFFFF * 0xFFFFFF * 0xFFFFFF * v <= 0x1000000 * 0x1000000 * 0x1000000 * u) by {
                    lemma_chain(e - 1, e, e - 1, e, v, cx, md);
                    lemma_chain((e - 1) * (e - 1), e * e, e - 1, e, v, md, u);
                }
            }
            let up = (e + 1) * (e + 1) * (e + 1);
            let mid = e * e * e;
            let down = (e - 1) * (e - 1) * (e - 1);
            assert(up * lx >= mid * nd && down * lx <= mid * nd) by (nonlinear_arith)
                requires
                    up * (lx * d) >= mid * (nd * d),
                    down * (lx * d) <= mid * (nd * d),
                    0 < d,
            {
                assert((up * lx) * d >= (mid * nd) * d);
                assert((down * lx) * d <= (mid * nd) * d);
            }
            assert(length * (d + x) == ld + lx && (length + n) * d == ld + nd) by (nonlinear_arith)
                requires
                    ld == length * d,
                    lx == length * x,
                    nd == n * d,
            ;
            assert(0 <= ld);
            assert(up * (ld + lx) == up * ld + up * lx) by (nonlinear_arith);
            assert(down * (ld + lx) == down * ld + down * lx) by (nonlinear_arith);
            assert(mid * (ld + nd) == mid * ld + mid * nd) by (nonlinear_arith);
            assert(down * ld <= mid * ld <= up * ld) by (nonlinear_arith)
                requires
                    0 <= ld,
                    down <= mid <= up,
            ;
        }
    }
    // One and the spans.
    assert(one.exact() == d && !one.negative() && one.finite());
    assert(d + x <= pow2(100) * d) by (nonlinear_arith)
        requires
            x <= pow2(66) * d,
            0 < d,
            pow2(100) == pow2(66) * pow2(34),
            pow2(34) >= 2,
            pow2(66) >= 1,
    {
        assert(d <= pow2(66) * d);
        assert(2 * (pow2(66) * d) <= pow2(34) * (pow2(66) * d));
    }
    lemma_sum_within(one, q, top);
    lemma_sum_error(one, q);
    let t = s.exact();
    crate::arith::lemma_adding_up(one, q);
    lemma_exact_order(one, s);
    lemma_exact_order(s, top);
    lemma_pow2_pos(100);
    assert(d <= pow2(100) * t) by (nonlinear_arith)
        requires
            d <= t,
            0 < d,
            pow2(100) >= 1,
    ;
    lemma_ratio_error(one, s);
    let r = share.exact();
    // The share, from above and from below.
    let len = length * (d + x);
    let both = (length + n) * d;
    assert(e * (d * d) <= (e + 1) * (t * r) && (e - 1) * (t * r) <= e * (d * d));
    let tr = t * r;
    let dd = d * d;
    let xr = (d + x) * r;
    assert(e * xr <= (e + 1) * tr && (e - 1) * tr <= e * xr) by (nonlinear_arith)
        requires
            e * (d + x) <= (e + 1) * t,
            (e - 1) * t <= e * (d + x),
            tr == t * r,
            xr == (d + x) * r,
            0 < r,
    {
        assert((e * (d + x)) * r <= ((e + 1) * t) * r);
        assert(((e - 1) * t) * r <= (e * (d + x)) * r);
    }
    lemma_chain(e, e + 1, e - 1, e, xr, tr, dd);
    lemma_chain(e, e + 1, e - 1, e, dd, tr, xr);
    assert((e * (e - 1)) * xr <= ((e + 1) * e) * dd && (e * (e - 1)) * dd <= ((e + 1) * e) * xr);
    assert((e - 1) * xr <= (e + 1) * dd && (e - 1) * dd <= (e + 1) * xr);
    let up = (e + 1) * (e + 1) * (e + 1);
    let mid = e * e * e;
    let down = (e - 1) * (e - 1) * (e - 1);
    let rb = r * both;
    let lxr = length * xr;
    let ldd = length * dd;
    assert(up * lxr >= mid * rb && down * lxr <= mid * rb) by (nonlinear_arith)
        requires
            up * len >= mid * both,
            down * len <= mid * both,
            len == length * (d + x),
            xr == (d + x) * r,
            lxr == length * xr,
            rb == r * both,
            0 < r,
    {
        assert(lxr == len * r);
        assert((up * len) * r >= (mid * both) * r);
        assert((down * len) * r <= (mid * both) * r);
    }
    assert((e - 1) * lxr <= (e + 1) * ldd && (e - 1) * ldd <= (e + 1) * lxr) by (nonlinear_arith)
        requires
            (e - 1) * xr <= (e + 1) * dd,
            (e - 1) * dd <= (e + 1) * xr,
            lxr == length * xr,
            ldd == length * dd,
            1 <= length,
    {
        assert(length * ((e - 1) * xr) <= length * ((e + 1) * dd));
        assert(length * ((e - 1) * dd) <= length * ((e + 1) * xr));
    }
    // mid * rb <= up * lxr, (e - 1) * lxr <= (e + 1) * ldd.
    assert((mid * (e - 1)) * rb <= (up * (e + 1)) * ldd) by {
        lemma_chain(mid, up, e - 1, e + 1, rb, lxr, ldd);
    }
    assert((down * (e - 1)) * ldd <= (mid * (e + 1)) * rb) by {
        lemma_chain(e - 1, e + 1, down, mid, ldd, lxr, rb);
        assert((e - 1) * down == down * (e - 1) && (e + 1) * mid == mid * (e + 1)) by (nonlinear_arith);
    }
    let w = r * (length + n);
    let ld = length * d;
    assert(rb == w * d && ldd == ld * d) by (nonlinear_arith)
        requires
            rb == r * both,
            both == (length + n) * d,
            w == r * (length + n),
            ldd == length * dd,
            dd == d * d,
            ld == length * d,
    ;
    assert(0 <= ldd) by (nonlinear_arith)
        requires
            ldd == ld * d,
            0 < ld,
            0 < d,
    ;
    assert(mid * (e - 1) == 79228157791897854723898736640int && up * (e + 1) == 79228181403731957922052177921int && down * (e - 1) == 79228143624800094964756250625int && mid * (e
        + 1) == 79228167236630820463189164032int) by (nonlinear_arith)
        requires
            e == 0x100_0000,
            up == (e + 1) * (e + 1) * (e + 1),
            mid == e * e * e,
            down == (e - 1) * (e - 1) * (e - 1),
    ;
    assert(79228157791897854723898736640int * rb <= 79228181403731957922052177921int * ldd);
    assert(0x100_0000 * rb <= 0x100_0008 * ldd) by (nonlinear_arith)
        requires
            79228157791897854723898736640int * rb <= 79228181403731957922052177921int * ldd,
            0 <= ldd,
    ;
    assert(79228143624800094964756250625int * ldd <= 79228167236630820463189164032int * rb);
    assert(0xFF_FFF8 * ldd <= 0x100_0000 * rb) by (nonlinear_arith)
        requires
            79228143624800094964756250625int * ldd <= 79228167236630820463189164032int * rb,
            0 <= ldd,
    ;
    assert(e * w <= 0x100_0008 * ld && 0xFF_FFF8 * ld <= e * w) by (nonlinear_arith)
        requires
            e * rb <= 0x100_0008 * ldd,
            0xFF_FFF8 * ldd <= e * rb,
            rb == w * d,
            ldd == ld * d,
            0 < d,
    {
        assert((e * w) * d <= (0x100_0008 * ld) * d);
        assert((0xFF_FFF8 * ld) * d <= (e * w) * d);
    }
    // At most one.
    lemma_quotients_keep_order(one, one, one, s);
    assert(one.quotient(one) == one) by {
        lemma_rounding_is_exact(ONE as int, d);
    }
    assert(zero.at_most(share));
}

/// Whether a number is a fraction, to within one part in `2^24`.
pub open spec fn near(value: Scalar, num: int, den: int) -> bool {
    &&& !value.negative()
    &&& value.finite()
    &&& 0x100_0000 * (den * value.exact()) <= 0x100_0001 * (num * unit_scale())
    &&& 0xFF_FFFF * (num * unit_scale()) <= 0x100_0000 * (den * value.exact())
}

/// A pattern, as a fraction.
pub proof fn lemma_pattern(value: Scalar, exponent: int, significand: int, num: int, den: int)
    requires
        1 <= exponent <= 150,
        HIDDEN_BIT <= significand < 2 * HIDDEN_BIT,
        value.bits == exponent * HIDDEN_BIT + (significand - HIDDEN_BIT),
        0x100_0000 * (den * significand) <= 0x100_0001 * (num * pow2((150 - exponent) as nat)),
        0xFF_FFFF * (num * pow2((150 - exponent) as nat)) <= 0x100_0000 * (den * significand),
    ensures
        near(value, num, den),
{
    let g = pow2((exponent - 1) as nat) as int;
    let h = pow2((150 - exponent) as nat) as int;
    lemma_pow2_pos((exponent - 1) as nat);
    lemma_pow2_adds((exponent - 1) as nat, (150 - exponent) as nat);
    assert(value.magnitude() / HIDDEN_BIT as int == exponent && value.magnitude() % HIDDEN_BIT as int
        == significand - HIDDEN_BIT);
    assert(value.exact() == significand * g);
    assert(0x100_0000 * (den * (significand * g)) <= 0x100_0001 * (num * (g * h))) by (nonlinear_arith)
        requires
            0x100_0000 * (den * significand) <= 0x100_0001 * (num * h),
            g > 0,
    {
        assert((0x100_0000 * (den * significand)) * g <= (0x100_0001 * (num * h)) * g);
    }
    assert(0xFF_FFFF * (num * (g * h)) <= 0x100_0000 * (den * (significand * g))) by (nonlinear_arith)
        requires
            0xFF_FFFF * (num * h) <= 0x100_0000 * (den * significand),
            g > 0,
    {
        assert((0xFF_FFFF * (num * h)) * g <= (0x100_0000 * (den * significand)) * g);
    }
}

/// Exact values of numbers of either sign keep their order.
pub proof fn lemma_signed_order(a: Scalar, b: Scalar)
    requires
        a.finite(),
        b.finite(),
    ensures
        a.at_most(b) <==> a.exact() <= b.exact(),
        a.below(b) <==> a.exact() < b.exact(),
{
    assert(units(0) == 0);
    lemma_units_order(0, a.magnitude());
    lemma_units_order(0, b.magnitude());
    if a.magnitude() <= b.magnitude() {
        lemma_units_order(a.magnitude(), b.magnitude());
    } else {
        lemma_units_order(b.magnitude(), a.magnitude());
    }
}

/// The place of a rounded total.
spec fn place(total: int) -> int {
    if total == 0 {
        0
    } else if total < 0 {
        -rounded(-total, 1)
    } else {
        rounded(total, 1)
    }
}

/// Sums with one term in common keep the order of the other, whatever the signs.
pub proof fn lemma_signed_sums(a: Scalar, b: Scalar, x: Scalar)
    requires
        a.finite(),
        b.finite(),
        x.finite(),
        a.at_most(b),
    ensures
        a.sum(x).at_most(b.sum(x)),
        !a.sum(x).nan(),
        !b.sum(x).nan(),
        x.exact() <= 0 ==> a.sum(x).at_most(a),
        x.exact() >= 0 ==> a.at_most(a.sum(x)),
{
    lemma_signed_order(a, b);
    let p = a.exact() + x.exact();
    let q = b.exact() + x.exact();
    lemma_places(p, q);
    lemma_places(p, a.exact());
    lemma_places(a.exact(), p);
    lemma_rounding_is_exact(a.magnitude(), 1);
    assert(units(a.magnitude()) * 1 == units(a.magnitude()));
    assert(units(0) == 0);
    lemma_units_order(0, a.magnitude());
    assert(place(a.exact()) == a.rank());
    lemma_sum_place(a, x);
    lemma_sum_place(b, x);
}

/// The place of a sum is that of the rounded total.
proof fn lemma_sum_place(a: Scalar, x: Scalar)
    requires
        a.finite(),
        x.finite(),
    ensures
        a.sum(x).rank() == place(a.exact() + x.exact()),
        !a.sum(x).nan(),
{
    let total = a.exact() + x.exact();
    if total > 0 {
        lemma_nearest_exists(total, 1);
        assert(a.sum(x).bits == rounded(total, 1));
    } else if total < 0 {
        lemma_nearest_exists(-total, 1);
        assert(a.sum(x).bits == 0x8000_0000 + rounded(-total, 1));
    }
}

/// Rounding totals of either sign keeps their order.
proof fn lemma_places(p: int, q: int)
    ensures
        p <= q ==> place(p) <= place(q),
        -(INFINITY_BITS as int) <= place(p) <= INFINITY_BITS,
        -(INFINITY_BITS as int) <= place(q) <= INFINITY_BITS,
{
    if p > 0 {
        lemma_nearest_exists(p, 1);
    } else if p < 0 {
        lemma_nearest_exists(-p, 1);
    }
    if q > 0 {
        lemma_nearest_exists(q, 1);
    } else if q < 0 {
        lemma_nearest_exists(-q, 1);
    }
    if 0 < p <= q {
        lemma_rounding_is_monotone(p, 1, q, 1);
    } else if p <= q < 0 {
        lemma_rounding_is_monotone(-q, 1, -p, 1);
    }
}

/// Numbers that are not positive over one divisor keep their order.
pub proof fn lemma_negative_quotients(a: Scalar, b: Scalar, x: Scalar)
    requires
        !a.nan(),
        !b.nan(),
        x.finite(),
        a.at_most(b),
        b.at_most(Scalar::from_bits(ZERO)),
        Scalar::from_bits(ZERO).below(x),
    ensures
        a.quotient(x).at_most(b.quotient(x)),
        b.quotient(x).at_most(Scalar::from_bits(ZERO)),
{
    let d = unit_scale();
    let p = units(a.magnitude());
    let q = units(b.magnitude());
    let f = units(x.magnitude());
    lemma_pow2_pos(149);
    lemma_units_order(0, a.magnitude());
    lemma_units_order(0, b.magnitude());
    lemma_units_order(0, x.magnitude());
    assert(units(0) == 0);
    assert(0 <= p * d && 0 <= q * d) by (nonlinear_arith)
        requires
            0 <= p,
            0 <= q,
            0 < d,
    ;
    lemma_nearest_exists(p * d, f);
    lemma_nearest_exists(q * d, f);
    lemma_rounding_is_exact(0, f);
    assert(0 * f == 0);
    if b.is_zero() {
        assert(0 * d == 0);
    }
    if a.is_zero() {
        assert(0 * d == 0);
    }
    if b.magnitude() <= a.magnitude() {
        lemma_units_order(b.magnitude(), a.magnitude());
        assert((q * d) * f <= (p * d) * f) by (nonlinear_arith)
            requires
                q <= p,
                0 < d,
                0 < f,
        ;
        lemma_rounding_is_monotone(q * d, f, p * d, f);
    }
}

/// The least normal number has as many units as its pattern says.
pub proof fn lemma_least_normal()
    ensures
        units(0x80_0000) == 0x80_0000,
{
    lemma2_to64();
    assert(0x80_0000int / 0x80_0000 == 1 && 0x80_0000int % 0x80_0000 == 0);
    assert(pow2(0) == 1);
}

} // verus!
