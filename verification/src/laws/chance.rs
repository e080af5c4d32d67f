//! Laws of chance: what a draw stands for, and that it favours nothing.

use vstd::arithmetic::div_mod::{lemma_fundamental_div_mod, lemma_fundamental_div_mod_converse};
use vstd::arithmetic::power2::{lemma2_to64, lemma_pow2_adds, lemma_pow2_pos, pow2};
use vstd::prelude::*;

use crate::arith::{lemma_units_of_one, unit_scale};
use crate::laws::orders::lemma_exact_order;
use crate::rng::{accepted, fraction_drawn, interval, number_drawn, Rng, RANGE};
use crate::scalar::{Scalar, HIDDEN_BIT, ONE, ZERO};

verus! {

/// Where the draws that stand for a value begin.
pub open spec fn run_start(value: int, n: u64) -> int {
    let range = 0x1_0000_0000_0000_0000int;
    (value * range + range % n as int + n - 1) / n as int
}

/// No value is favoured: the draws that stand for a value below `n` are a run of
/// as many as there are for any other, the 64-bit values shared out evenly.
pub proof fn lemma_no_value_is_favoured(x: u64, n: u64, value: int)
    requires
        n > 0,
        0 <= value < n,
    ensures
        accepted(x, n) && interval(x, n) == value <==> run_start(value, n) <= x < run_start(value, n)
            + 0x1_0000_0000_0000_0000int / n as int,
{
    let range = 0x1_0000_0000_0000_0000int;
    let m = n as int;
    let q = range / m;
    let t = range % m;
    let p = x * m;
    let c = value * range + t;
    let s = (c + m - 1) / m;
    lemma_fundamental_div_mod(range, m);
    lemma_fundamental_div_mod(c + m - 1, m);
    lemma_fundamental_div_mod(p, range);
    assert(RANGE as int == range);
    assert((range - m) % m == t) by {
        assert(range - m == (q - 1) * m + t) by (nonlinear_arith)
            requires
                range == m * q + t,
        ;
        lemma_fundamental_div_mod_converse(range - m, m, q - 1, t);
    }
    // The positions of the value.
    let v = p / range;
    let rest = p % range;
    assert(p == range * v + rest);
    let next = (value + 1) * range;
    assert(next == c + q * m) by (nonlinear_arith)
        requires
            next == (value + 1) * range,
            c == value * range + t,
            range == m * q + t,
    ;
    if v == value && rest >= t {
        assert(c <= p < next) by (nonlinear_arith)
            requires
                p == range * value + rest,
                t <= rest < range,
                c == value * range + t,
                next == (value + 1) * range,
        ;
    }
    if c <= p < next {
        assert(v == value) by (nonlinear_arith)
            requires
                p == range * v + rest,
                0 <= rest < range,
                value * range <= p < (value + 1) * range,
                0 < range,
        ;
        assert(range * v == value * range) by (nonlinear_arith)
            requires
                v == value,
        ;
    }
    // The draws of those positions.
    assert(c <= p <==> s <= x) by (nonlinear_arith)
        requires
            p == x * m,
            c + m - 1 == m * s + (c + m - 1) % m,
            0 <= (c + m - 1) % m < m,
            0 < m,
    ;
    assert(p < next <==> x < s + q) by (nonlinear_arith)
        requires
            p == x * m,
            next == c + q * m,
            c + m - 1 == m * s + (c + m - 1) % m,
            0 <= (c + m - 1) % m < m,
            0 < m,
    ;
}

/// A number is drawn from its range, and from the first draw that is accepted.
pub proof fn lemma_a_number_is_in_its_range<R: Rng>(before: R, n: u64, value: u64, after: R)
    requires
        number_drawn(before, n, Some(value), after),
    ensures
        value < n,
        n == 1 ==> value == 0,
        accepted(before.draw(0), n) ==> value == interval(before.draw(0), n) && forall|j: nat| #[trigger]
            after.draw(j) == before.draw(j + 1),
{
    let k = choose|k: nat|
        {
            &&& k < RANGE
            &&& accepted(#[trigger] before.draw(k), n)
            &&& forall|j: nat| j < k ==> !accepted(#[trigger] before.draw(j), n)
            &&& value == interval(before.draw(k), n)
            &&& forall|j: nat| #[trigger] after.draw(j) == before.draw(k + 1 + j)
        };
    let x = before.draw(k) as int;
    let m = n as int;
    let range = RANGE as int;
    let p = x * m;
    lemma_fundamental_div_mod(p, range);
    let v = p / range;
    assert(v < m) by (nonlinear_arith)
        requires
            p == range * v + p % range,
            0 <= p % range,
            p == x * m,
            0 <= x < range,
            0 < m,
    ;
    if accepted(before.draw(0), n) {
        assert(k == 0);
        assert forall|j: nat| #[trigger] after.draw(j) == before.draw(j + 1) by {
            assert(after.draw(j) == before.draw(k + 1 + j));
        }
    }
}

/// A fraction is its draw: that many parts in `2^24` as the draw's leading bits
/// say, at least none and less than the whole.
pub proof fn lemma_a_fraction_is_its_draw<R: Rng>(before: R, u: Scalar, after: R)
    requires
        fraction_drawn(before, u, after),
    ensures
        0x100_0000 * u.exact() == (before.draw(0) as int / 0x100_0000_0000) * unit_scale(),
        !u.negative(),
        u.finite(),
        u.below(Scalar::from_bits(ONE)),
        Scalar::from_bits(ZERO).at_most(u),
{
    let k = before.draw(0) as int / 0x100_0000_0000;
    let d = unit_scale();
    lemma_pow2_pos(149);
    lemma_units_of_one();
    lemma2_to64();
    lemma_pow2_adds(24, 125);
    if k == 0 {
        assert(u.exact() == 0);
        assert(k * d == 0) by (nonlinear_arith)
            requires
                k == 0,
        ;
    } else {
        let exponent = u.bits as int / HIDDEN_BIT as int;
        let significand = HIDDEN_BIT + u.bits as int % HIDDEN_BIT as int;
        let h = pow2((126 - exponent) as nat) as int;
        let g = pow2((exponent - 1) as nat) as int;
        lemma_pow2_adds((126 - exponent) as nat, (exponent - 1) as nat);
        assert(u.exact() == significand * g);
        assert(u.exact() == k * pow2(125)) by (nonlinear_arith)
            requires
                u.exact() == significand * g,
                significand == k * h,
                h * g == pow2(125),
        ;
        assert(0x100_0000 * (k * pow2(125)) == k * d) by (nonlinear_arith)
            requires
                d == 0x100_0000 * pow2(125),
        ;
    }
    assert(u.exact() < d) by (nonlinear_arith)
        requires
            0x100_0000 * u.exact() == k * d,
            k < 0x100_0000,
            0 < d,
    ;
    lemma_exact_order(u, Scalar::from_bits(ONE));
    lemma_exact_order(Scalar::from_bits(ZERO), u);
}

} // verus!
