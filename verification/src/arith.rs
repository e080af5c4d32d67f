//! Arithmetic on single-precision values.
//!
//! Every finite value is a whole number of units of `2^-149`, so the exact
//! result of an operation is a fraction of two whole numbers. The value
//! returned is the one nearest to that fraction, and of two that are equally
//! near the one with the even pattern, as IEEE-754 has it.

use vstd::arithmetic::power2::{lemma2_to64, lemma_pow2_adds, lemma_pow2_pos, lemma_pow2_unfold, pow2};
use vstd::prelude::*;

use crate::scalar::{Scalar, HIDDEN_BIT, INFINITY_BITS, SIGN_BIT};

verus! {

/// The pattern of the NaN that an operation without a value gives.
pub const QUIET_NAN: u32 = 0x7FC0_0000;

/// The number of units of `2^-149` that a magnitude stands for. The magnitude
/// of infinity counts as the power of two that comes after the largest finite
/// value.
pub open spec fn units(m: int) -> int {
    let exponent = m / HIDDEN_BIT as int;
    let fraction = m % HIDDEN_BIT as int;
    if exponent == 0 {
        fraction
    } else {
        (HIDDEN_BIT + fraction) * pow2((exponent - 1) as nat)
    }
}

/// Whether the magnitude `m` is nearest to `num / den` units: the fraction lies
/// between the midpoints to the neighbours of `m`, and on a midpoint `m` is
/// even.
pub open spec fn nearest(num: int, den: int, m: int) -> bool {
    &&& 0 <= m <= INFINITY_BITS
    &&& m < INFINITY_BITS ==> {
        ||| 2 * num < den * (units(m) + units(m + 1))
        ||| 2 * num == den * (units(m) + units(m + 1)) && m % 2 == 0
    }
    &&& m > 0 ==> {
        ||| 2 * num > den * (units(m - 1) + units(m))
        ||| 2 * num == den * (units(m - 1) + units(m)) && m % 2 == 0
    }
}

/// The magnitude nearest to `num / den` units.
pub open spec fn rounded(num: int, den: int) -> int {
    choose|m: int| nearest(num, den, m)
}

/// The value with the given sign and magnitude.
pub open spec fn signed(negative: bool, m: int) -> Scalar {
    Scalar {
        bits: if negative {
            (SIGN_BIT + m) as u32
        } else {
            m as u32
        },
    }
}

/// The difference of the exponents of a unit and of one.
pub open spec fn unit_scale() -> int {
    pow2(149) as int
}

/// A pattern below the infinities, split into a significand and the power of
/// two that it is multiplied with.
proof fn lemma_units(q: int, sig: int)
    requires
        0 <= q,
        0 <= sig <= 2 * HIDDEN_BIT,
        q == 0 || HIDDEN_BIT <= sig,
    ensures
        units(q * HIDDEN_BIT + sig) == sig * pow2(q as nat),
{
    let h = HIDDEN_BIT as int;
    let m = q * h + sig;
    lemma2_to64();
    assert(pow2(0) == 1);
    if sig < h {
        vstd::arithmetic::div_mod::lemma_fundamental_div_mod_converse(m, h, 0, sig);
        assert(sig * 1 == sig);
    } else if sig < 2 * h {
        assert(m == (q + 1) * h + (sig - h)) by (nonlinear_arith)
            requires
                m == q * h + sig,
        ;
        vstd::arithmetic::div_mod::lemma_fundamental_div_mod_converse(m, h, q + 1, sig - h);
    } else {
        assert(m == (q + 2) * h + 0) by (nonlinear_arith)
            requires
                m == q * h + sig,
                sig == 2 * h,
        ;
        vstd::arithmetic::div_mod::lemma_fundamental_div_mod_converse(m, h, q + 2, 0);
        lemma_pow2_unfold((q + 1) as nat);
        let p = pow2(q as nat) as int;
        assert(h * (2 * p) == (2 * h) * p) by (nonlinear_arith);
    }
}

/// Each magnitude stands for more units than the one before it.
proof fn lemma_units_step(m: int)
    requires
        0 <= m,
    ensures
        units(m) < units(m + 1),
        units(m) >= 0,
{
    let h = HIDDEN_BIT as int;
    let e = m / h;
    let f = m % h;
    vstd::arithmetic::div_mod::lemma_fundamental_div_mod(m, h);
    if e == 0 {
        lemma_units(0, m);
        lemma_units(0, m + 1);
        lemma2_to64();
        assert(0 * h == 0);
        assert(m * 1 == m);
        assert((m + 1) * 1 == m + 1);
    } else {
        let q = e - 1;
        let sig = h + f;
        assert(m == q * h + sig) by (nonlinear_arith)
            requires
                m == h * e + f,
                q == e - 1,
                sig == h + f,
        ;
        lemma_units(q, sig);
        lemma_units(q, sig + 1);
        lemma_pow2_pos(q as nat);
        let p = pow2(q as nat) as int;
        assert((sig + 1) * p == sig * p + p) by (nonlinear_arith);
        assert(sig * p >= 0) by (nonlinear_arith)
            requires
                sig >= 0,
                p > 0,
        ;
    }
}

/// A larger magnitude stands for more units.
pub proof fn lemma_units_increase(a: int, b: int)
    requires
        0 <= a < b,
    ensures
        units(a) < units(b),
        units(a) >= 0,
    decreases b - a,
{
    lemma_units_step(a);
    if a + 1 < b {
        lemma_units_increase(a + 1, b);
    }
}

/// No fraction is nearest to two magnitudes.
pub proof fn lemma_nearest_is_unique(num: int, den: int, a: int, b: int)
    requires
        den > 0,
        nearest(num, den, a),
        nearest(num, den, b),
    ensures
        a == b,
{
    if a != b {
        let lo = if a < b {
            a
        } else {
            b
        };
        let hi = if a < b {
            b
        } else {
            a
        };
        let low = units(lo) + units(lo + 1);
        let high = units(hi - 1) + units(hi);
        lemma_units_step(lo);
        lemma_units_step(hi - 1);
        if lo + 1 < hi {
            lemma_units_increase(lo, hi - 1);
            lemma_units_increase(lo + 1, hi);
            assert(den * low < den * high) by (nonlinear_arith)
                requires
                    low < high,
                    den > 0,
            ;
        }
    }
}

/// The number of fine steps in a unit: `2^512`, small enough for every exponent
/// that an operation meets.
spec fn fine() -> int {
    pow2(512) as int
}

/// The length of a step of `2^e` units, in fine steps and `den`ths.
spec fn step_length(den: int, e: int) -> int {
    den * pow2((e + 512) as nat)
}

/// Whether `num / den` units lie at `m` steps of `2^e` units, or, with
/// `sticky`, between `m` steps and `m + 1`.
spec fn located(num: int, den: int, m: int, e: int, sticky: bool) -> bool {
    let a = step_length(den, e);
    if sticky {
        m * a < num * fine() < (m + 1) * a
    } else {
        m * a == num * fine()
    }
}

/// Whether `num / den` units lie at or above `sig` steps of `2^q` units, below
/// `sig + 1` steps, and nearer to the latter exactly if `up` says so.
spec fn cut(num: int, den: int, sig: int, q: int, up: bool) -> bool {
    let b = step_length(den, q);
    let x = num * fine();
    &&& sig * b <= x < (sig + 1) * b
    &&& if up {
        2 * x > (2 * sig + 1) * b || (2 * x == (2 * sig + 1) * b && sig % 2 == 1)
    } else {
        2 * x < (2 * sig + 1) * b || (2 * x == (2 * sig + 1) * b && sig % 2 == 0)
    }
}

/// A step of `2^(e + k)` units is `2^k` steps of `2^e`.
proof fn lemma_step_length(den: int, e: int, k: int)
    requires
        den > 0,
        e >= -512,
        k >= 0,
    ensures
        step_length(den, e + k) == pow2(k as nat) * step_length(den, e),
        step_length(den, e) > 0,
{
    lemma_pow2_adds((e + 512) as nat, k as nat);
    lemma_pow2_pos((e + 512) as nat);
    let p = pow2((e + 512) as nat) as int;
    let t = pow2(k as nat) as int;
    assert(den * (p * t) == t * (den * p)) by (nonlinear_arith);
    assert(den * p > 0) by (nonlinear_arith)
        requires
            den > 0,
            p > 0,
    ;
}

/// Cutting at a coarser step.
proof fn lemma_cut(num: int, den: int, m: int, e: int, sticky: bool, k: int, up: bool)
    requires
        den > 0,
        e >= -512,
        m >= 0,
        k >= 1,
        located(num, den, m, e, sticky),
        up == ({
            let t = pow2(k as nat) as int;
            let half = pow2((k - 1) as nat) as int;
            m % t > half || (m % t == half && (sticky || (m / t) % 2 == 1))
        }),
    ensures
        cut(num, den, m / (pow2(k as nat) as int), e + k, up),
{
    let a = step_length(den, e);
    let t = pow2(k as nat) as int;
    let half = pow2((k - 1) as nat) as int;
    let b = step_length(den, e + k);
    let x = num * fine();
    lemma_step_length(den, e, k);
    lemma_pow2_unfold(k as nat);
    lemma_pow2_pos(k as nat);
    let sig = m / t;
    let rest = m % t;
    vstd::arithmetic::div_mod::lemma_fundamental_div_mod(m, t);
    assert(m * a == sig * b + rest * a) by (nonlinear_arith)
        requires
            m == t * sig + rest,
            b == t * a,
    ;
    assert((m + 1) * a == m * a + a) by (nonlinear_arith);
    assert((sig + 1) * b == sig * b + b) by (nonlinear_arith);
    assert((2 * sig + 1) * b == 2 * (sig * b) + b) by (nonlinear_arith);
    assert(b == 2 * (half * a)) by (nonlinear_arith)
        requires
            b == t * a,
            t == 2 * half,
    ;
    assert(0 <= rest * a && rest * a + a <= b) by (nonlinear_arith)
        requires
            0 <= rest,
            rest + 1 <= t,
            b == t * a,
            a > 0,
    ;
    if rest > half {
        assert(rest * a > half * a) by (nonlinear_arith)
            requires
                rest > half,
                a > 0,
        ;
    } else if rest < half {
        assert(rest * a + a <= half * a) by (nonlinear_arith)
            requires
                rest + 1 <= half,
                a > 0,
        ;
    }
}

/// A place far below a step is nearer to its start.
proof fn lemma_far(num: int, den: int, m: int, e: int, sticky: bool, k: int)
    requires
        den > 0,
        e >= -512,
        0 <= m < pow2(96),
        k > 120,
        located(num, den, m, e, sticky),
    ensures
        cut(num, den, 0, e + k, false),
{
    let a = step_length(den, e);
    let b = step_length(den, e + k);
    let t = pow2(k as nat) as int;
    lemma_step_length(den, e, k);
    lemma2_to64();
    vstd::arithmetic::power2::lemma_pow2_strictly_increases(96, 97);
    vstd::arithmetic::power2::lemma_pow2_strictly_increases(97, 98);
    vstd::arithmetic::power2::lemma_pow2_strictly_increases(98, k as nat);
    lemma_pow2_unfold(97);
    lemma_pow2_unfold(98);
    assert(2 * ((m + 1) * a) < b && 0 <= m * a) by (nonlinear_arith)
        requires
            2 * (m + 1) < t,
            m >= 0,
            b == t * a,
            a > 0,
    ;
    assert((m + 1) * a == m * a + a) by (nonlinear_arith);
    assert(0 * b == 0);
    assert(1 * b == b);
}

/// A place on a step stays there on a finer step.
proof fn lemma_exact(num: int, den: int, m: int, q: int, k: int)
    requires
        den > 0,
        q >= 0,
        m >= 0,
        k >= 0,
        located(num, den, m, q + k, false),
    ensures
        cut(num, den, m * pow2(k as nat), q, false),
{
    let a = step_length(den, q + k);
    let b = step_length(den, q);
    let t = pow2(k as nat) as int;
    let sig = m * t;
    lemma_step_length(den, q, k);
    assert(m * a == sig * b) by (nonlinear_arith)
        requires
            sig == m * t,
            a == t * b,
    ;
    assert((sig + 1) * b == sig * b + b) by (nonlinear_arith);
    assert((2 * sig + 1) * b == 2 * (sig * b) + b) by (nonlinear_arith);
}

/// The cut says which magnitude is nearest.
proof fn lemma_settle(num: int, den: int, sig: int, q: int, up: bool)
    requires
        den > 0,
        q >= 0,
        0 <= sig < 2 * HIDDEN_BIT,
        q == 0 || HIDDEN_BIT <= sig,
        cut(num, den, sig, q, up),
    ensures
        ({
            let pattern = q * HIDDEN_BIT + sig + (if up {
                1int
            } else {
                0
            });
            nearest(num, den, if pattern > INFINITY_BITS {
                INFINITY_BITS as int
            } else {
                pattern
            })
        }),
{
    let h = HIDDEN_BIT as int;
    let p = q * h + sig;
    let f = fine();
    let g = pow2(q as nat) as int;
    let b = step_length(den, q);
    lemma_pow2_pos(512);
    lemma_pow2_adds(q as nat, 512);
    assert(b == (den * g) * f) by (nonlinear_arith)
        requires
            b == den * (g * f),
    ;
    let c = den * g;
    // The comparisons hold in units as they hold in fine steps.
    assert(sig * c <= num < (sig + 1) * c) by (nonlinear_arith)
        requires
            sig * b <= num * f < (sig + 1) * b,
            b == c * f,
            f > 0,
    ;
    assert((2 * num) * f == 2 * (num * f)) by (nonlinear_arith);
    let y = (2 * sig + 1) * c;
    assert((2 * sig + 1) * b == y * f) by (nonlinear_arith)
        requires
            b == c * f,
            y == (2 * sig + 1) * c,
    ;
    let z = 2 * num;
    assert((z * f > y * f ==> z > y) && (z * f == y * f ==> z == y) && (z * f < y * f ==> z < y))
        by (nonlinear_arith)
        requires
            f > 0,
    ;
    assert(q * h >= 0) by (nonlinear_arith)
        requires
            q >= 0,
            h > 0,
    ;
    lemma_units(q, sig);
    lemma_units(q, sig + 1);
    assert(den * units(p) == sig * c) by (nonlinear_arith)
        requires
            units(p) == sig * g,
            c == den * g,
    ;
    assert(den * units(p + 1) == (sig + 1) * c) by (nonlinear_arith)
        requires
            units(p + 1) == (sig + 1) * g,
            c == den * g,
    ;
    assert((sig + 1) * c == sig * c + c && y == 2 * (sig * c) + c) by (nonlinear_arith)
        requires
            y == (2 * sig + 1) * c,
    ;
    assert(den * (units(p) + units(p + 1)) == den * units(p) + den * units(p + 1))
        by (nonlinear_arith);
    assert(p % 2 == sig % 2) by {
        assert(q * h == 2 * (q * 0x40_0000)) by (nonlinear_arith)
            requires
                h == 0x80_0000,
        ;
    }
    lemma_neighbours(den, p);
    lemma_neighbours(den, p + 1);
    let top = INFINITY_BITS as int;
    if p >= top {
        lemma_units_step(top - 1);
        if p > top {
            lemma_units_increase(top, p);
        }
        let lo = units(top - 1);
        let hi = units(top);
        assert(2 * num > den * (lo + hi)) by (nonlinear_arith)
            requires
                num >= den * units(p),
                units(p) >= hi,
                lo < hi,
                den > 0,
        ;
    }
}

/// The midpoints to the neighbours lie on either side of a magnitude.
proof fn lemma_neighbours(den: int, p: int)
    requires
        den > 0,
        p >= 0,
    ensures
        p > 0 ==> den * (units(p - 1) + units(p)) < 2 * (den * units(p)),
        2 * (den * units(p)) < den * (units(p) + units(p + 1)),
{
    lemma_units_step(p);
    let u = units(p);
    let v = units(p + 1);
    assert(2 * (den * u) < den * (u + v)) by (nonlinear_arith)
        requires
            u < v,
            den > 0,
    ;
    if p > 0 {
        lemma_units_step(p - 1);
        let t = units(p - 1);
        assert(den * (t + u) < 2 * (den * u)) by (nonlinear_arith)
            requires
                t < u,
                den > 0,
        ;
    }
}

/// The significand that a cut of a number of `len` bits leaves fits its field.
proof fn lemma_cut_size(m: int, len: int, k: int, q: int)
    requires
        1 <= len,
        pow2((len - 1) as nat) <= m < pow2(len as nat),
        k >= 1,
        k >= len - 24,
        q > 0 ==> k == len - 24,
    ensures
        0 <= m / (pow2(k as nat) as int) < 2 * HIDDEN_BIT,
        q > 0 ==> HIDDEN_BIT <= m / (pow2(k as nat) as int),
{
    let t = pow2(k as nat) as int;
    lemma_pow2_pos(k as nat);
    lemma2_to64();
    lemma_pow2_adds(k as nat, 24);
    if (len as nat) < (k + 24) as nat {
        vstd::arithmetic::power2::lemma_pow2_strictly_increases(len as nat, (k + 24) as nat);
    }
    vstd::arithmetic::div_mod::lemma_fundamental_div_mod(m, t);
    let s = m / t;
    assert(0 <= s < 0x100_0000) by (nonlinear_arith)
        requires
            0 <= m < t * 0x100_0000,
            m == t * s + m % t,
            0 <= m % t < t,
    ;
    if q > 0 {
        lemma_pow2_adds(k as nat, 23);
        assert(0x80_0000 <= s) by (nonlinear_arith)
            requires
                m >= t * 0x80_0000,
                m == t * s + m % t,
                0 <= m % t < t,
        ;
    }
}

/// The significand that scaling a number of `len` bits gives fits its field.
proof fn lemma_exact_size(m: int, len: int, k: int, q: int)
    requires
        1 <= len,
        pow2((len - 1) as nat) <= m < pow2(len as nat),
        0 <= k <= 24 - len,
        q > 0 ==> k == 24 - len,
    ensures
        0 <= m * pow2(k as nat) < 2 * HIDDEN_BIT,
        q > 0 ==> HIDDEN_BIT <= m * pow2(k as nat),
{
    let t = pow2(k as nat) as int;
    lemma_pow2_pos(k as nat);
    lemma2_to64();
    lemma_pow2_adds(len as nat, k as nat);
    if len + k < 24 {
        vstd::arithmetic::power2::lemma_pow2_strictly_increases((len + k) as nat, 24);
    }
    let w = pow2(len as nat) as int;
    assert(0 <= m * t < w * t) by (nonlinear_arith)
        requires
            0 <= m < w,
            t > 0,
    ;
    if q > 0 {
        lemma_pow2_adds((len - 1) as nat, k as nat);
        let v = pow2((len - 1) as nat) as int;
        assert(m * t >= v * t) by (nonlinear_arith)
            requires
                m >= v,
                t > 0,
        ;
    }
}

/// `2^k`.
fn power_of_two(k: u32) -> (r: u128)
    requires
        k < 128,
    ensures
        r == pow2(k as nat),
{
    let mut r: u128 = 1;
    let mut i: u32 = 0;
    proof {
        lemma2_to64();
    }
    while i < k
        invariant
            i <= k < 128,
            r == pow2(i as nat),
        decreases k - i,
    {
        proof {
            lemma_pow2_unfold((i + 1) as nat);
            lemma2_to64();
            lemma_pow2_adds(64, 63);
            if i + 1 < 127 {
                vstd::arithmetic::power2::lemma_pow2_strictly_increases((i + 1) as nat, 127);
            }
            assert(pow2(127) == 0x8000_0000_0000_0000_0000_0000_0000_0000) by {
                lemma2_to64();
                vstd::arithmetic::power2::lemma2_to64_rest();
            }
        }
        r = r * 2;
        i = i + 1;
    }
    r
}

/// The number of bits of `m`.
fn bit_length(m: u128) -> (r: u32)
    requires
        0 < m < 0x1_0000_0000_0000_0000_0000_0000,
    ensures
        1 <= r <= 96,
        pow2((r - 1) as nat) <= m < pow2(r as nat),
{
    let mut r: u32 = 0;
    let mut p: u128 = 1;
    proof {
        lemma2_to64();
        vstd::arithmetic::power2::lemma2_to64_rest();
        lemma_pow2_adds(64, 32);
    }
    while p <= m
        invariant
            0 < m < 0x1_0000_0000_0000_0000_0000_0000,
            pow2(96) == 0x1_0000_0000_0000_0000_0000_0000,
            p == pow2(r as nat),
            r <= 96,
            r >= 1 ==> pow2((r - 1) as nat) <= m,
            r == 0 ==> p == 1,
        decreases 97 - r,
    {
        proof {
            if r == 96 {
                assert(false);
            }
            lemma_pow2_unfold((r + 1) as nat);
        }
        p = p * 2;
        r = r + 1;
    }
    r
}

/// The magnitude nearest to the place that `m`, `e` and `sticky` give.
fn round(m: u128, e: i32, sticky: bool, Ghost(num): Ghost<int>, Ghost(den): Ghost<int>) -> (r: u32)
    requires
        0 < m < 0x1_0000_0000_0000_0000_0000_0000,
        -500 <= e <= 500,
        sticky ==> m >= 0x200_0000,
        den > 0,
        located(num, den, m as int, e as int, sticky),
    ensures
        r == rounded(num, den),
        nearest(num, den, r as int),
{
    let len: u32 = bit_length(m);
    let q: i32 = if e + len as i32 - 24 > 0 {
        e + len as i32 - 24
    } else {
        0
    };
    let shift: i32 = q - e;
    let mut sig: u32 = 0;
    let mut up: bool = false;
    proof {
        lemma2_to64();
        vstd::arithmetic::power2::lemma2_to64_rest();
        lemma_pow2_adds(64, 32);
        if sticky && len < 26 {
            if len < 25 {
                vstd::arithmetic::power2::lemma_pow2_strictly_increases(len as nat, 25);
            }
            assert(false);
        }
    }
    if shift <= 0 {
        let scale: u32 = (-shift) as u32;
        proof {
            lemma_exact_size(m as int, len as int, scale as int, q as int);
            lemma_exact(num, den, m as int, q as int, scale as int);
        }
        let wide: u128 = m * power_of_two(scale);
        sig = wide as u32;
    } else if shift <= 120 {
        let step: u128 = power_of_two(shift as u32);
        let half: u128 = power_of_two(shift as u32 - 1);
        proof {
            lemma_pow2_pos(shift as nat);
        }
        let whole: u128 = m / step;
        let rest: u128 = m % step;
        proof {
            lemma_cut_size(m as int, len as int, shift as int, q as int);
        }
        sig = whole as u32;
        up = rest > half || (rest == half && (sticky || sig % 2 == 1));
        proof {
            lemma_cut(num, den, m as int, e as int, sticky, shift as int, up);
        }
    } else {
        proof {
            lemma_far(num, den, m as int, e as int, sticky, shift as int);
        }
    }
    proof {
        lemma_settle(num, den, sig as int, q as int, up);
    }
    let mut r: u32 = INFINITY_BITS;
    if q < 254 {
        r = q as u32 * HIDDEN_BIT + sig;
        if up {
            r = r + 1;
        }
    }
    if r > INFINITY_BITS {
        r = INFINITY_BITS;
    }
    proof {
        if q >= 254 {
            assert(q * HIDDEN_BIT >= 254 * HIDDEN_BIT) by (nonlinear_arith)
                requires
                    q >= 254,
                    HIDDEN_BIT > 0,
            ;
        }
        lemma_nearest_is_unique(num, den, r as int, rounded(num, den));
    }
    r
}

/// A finite magnitude as a significand and the power of two it is multiplied
/// with.
fn split(m: u32) -> (r: (u32, u32))
    requires
        m < INFINITY_BITS,
    ensures
        units(m as int) == r.0 * pow2(r.1 as nat),
        r.0 < 0x100_0000,
        r.1 <= 253,
        m > 0 ==> r.0 > 0,
        r.1 > 0 ==> r.0 >= HIDDEN_BIT,
        r.1 == (if m < HIDDEN_BIT {
            0
        } else {
            m as int / HIDDEN_BIT as int - 1
        }),
{
    proof {
        lemma2_to64();
    }
    if m < HIDDEN_BIT {
        proof {
            lemma_units(0, m as int);
            assert(0 * HIDDEN_BIT == 0);
        }
        (m, 0)
    } else {
        let q: u32 = m / HIDDEN_BIT - 1;
        let sig: u32 = HIDDEN_BIT + m % HIDDEN_BIT;
        proof {
            lemma_units(q as int, sig as int);
        }
        (sig, q)
    }
}

/// The magnitude nearest to the product.
fn multiply(x: u32, y: u32) -> (r: u32)
    requires
        0 < x < INFINITY_BITS,
        0 < y < INFINITY_BITS,
    ensures
        r == rounded(units(x as int) * units(y as int), unit_scale()),
        r <= INFINITY_BITS,
{
    let (sx, ex) = split(x);
    let (sy, ey) = split(y);
    proof {
        assert(0 < sx * sy < 0x1_0000_0000_0000) by (nonlinear_arith)
            requires
                0 < sx < 0x100_0000,
                0 < sy < 0x100_0000,
        ;
        let a = pow2(ex as nat) as int;
        let b = pow2(ey as nat) as int;
        let num = units(x as int) * units(y as int);
        let e = ex + ey - 149;
        let p = pow2((e + 512) as nat) as int;
        let d = unit_scale();
        let f = fine();
        lemma_pow2_pos(149);
        lemma_pow2_adds(149, (e + 512) as nat);
        lemma_pow2_adds(ex as nat, ey as nat);
        lemma_pow2_adds((ex + ey) as nat, 512);
        assert(d * p == (a * b) * f);
        assert((sx * sy) * (d * p) == num * f) by (nonlinear_arith)
            requires
                d * p == (a * b) * f,
                num == (sx * a) * (sy * b),
        ;
    }
    let m: u128 = sx as u128 * sy as u128;
    round(
        m,
        ex as i32 + ey as i32 - 149,
        false,
        Ghost(units(x as int) * units(y as int)),
        Ghost(unit_scale()),
    )
}

/// The magnitude nearest to the quotient.
fn divide(x: u32, y: u32) -> (r: u32)
    requires
        0 < x < INFINITY_BITS,
        0 < y < INFINITY_BITS,
    ensures
        r == rounded(units(x as int) * unit_scale(), units(y as int)),
        r <= INFINITY_BITS,
{
    let (sx, ex) = split(x);
    let (sy, ey) = split(y);
    let ghost num = units(x as int) * unit_scale();
    let ghost den = units(y as int);
    let e: i32 = ex as i32 - ey as i32 + 99;
    let wide: u128 = sx as u128 * 0x4_0000_0000_0000;
    let m: u128 = wide / sy as u128;
    let rest: u128 = wide % sy as u128;
    proof {
        let w = wide as int;
        let d = sy as int;
        vstd::arithmetic::div_mod::lemma_fundamental_div_mod(w, d);
        assert(0x200_0000 <= m < 0x1_0000_0000_0000_0000_0000_0000) by (nonlinear_arith)
            requires
                w == d * m + rest,
                0 <= rest < d,
                0 < d < 0x100_0000,
                0x4_0000_0000_0000 <= w < 0x400_0000_0000_0000_0000,
        ;
        let a = pow2(ex as nat) as int;
        let b = pow2(ey as nat) as int;
        let p = pow2((e + 512) as nat) as int;
        let z = pow2((ex + 611) as nat) as int;
        let f = fine();
        lemma_pow2_pos(ey as nat);
        lemma_pow2_pos((ex + 611) as nat);
        lemma_pow2_adds(ey as nat, (e + 512) as nat);
        lemma2_to64();
        lemma_pow2_adds(ex as nat, 149);
        lemma_pow2_adds((ex + 149) as nat, 512);
        lemma_pow2_adds(50, (ex + 611) as nat);
        assert(pow2(50) == 0x4_0000_0000_0000) by {
            vstd::arithmetic::power2::lemma2_to64_rest();
        }
        assert(den * p == d * z) by (nonlinear_arith)
            requires
                den == d * b,
                z == b * p,
        ;
        assert((a * unit_scale()) * f == 0x4_0000_0000_0000 * z);
        assert(num * f == w * z) by (nonlinear_arith)
            requires
                num == (sx * a) * unit_scale(),
                (a * unit_scale()) * f == 0x4_0000_0000_0000 * z,
                w == sx * 0x4_0000_0000_0000,
        ;
        assert(den > 0) by (nonlinear_arith)
            requires
                den == d * b,
                d > 0,
                b > 0,
        ;
        assert(m * (d * z) + rest * z == w * z && (m + 1) * (d * z) == m * (d * z) + d * z)
            by (nonlinear_arith)
            requires
                w == d * m + rest,
        ;
        assert(0 <= rest * z < d * z && (rest > 0 ==> rest * z > 0) && (rest == 0 ==> rest * z
            == 0)) by (nonlinear_arith)
            requires
                0 <= rest < d,
                z > 0,
        ;
    }
    round(m, e, rest != 0, Ghost(num), Ghost(den))
}

/// The magnitude nearest to the sum of two, or to their difference.
fn combine(x: u32, y: u32, subtract: bool) -> (r: u32)
    requires
        0 < x < INFINITY_BITS,
        y <= x,
        subtract ==> y < x,
    ensures
        r == rounded(
            if subtract {
                units(x as int) - units(y as int)
            } else {
                units(x as int) + units(y as int)
            },
            1,
        ),
        r <= INFINITY_BITS,
{
    let (sx, ex) = split(x);
    let (sy, ey) = split(y);
    let ghost ux = units(x as int);
    let ghost uy = units(y as int);
    let ghost num = if subtract {
        ux - uy
    } else {
        ux + uy
    };
    let ghost f = fine();
    proof {
        if y < x {
            lemma_units_increase(y as int, x as int);
        } else {
            lemma_units_step(x as int);
        }
        vstd::arithmetic::div_mod::lemma_div_is_ordered(y as int, x as int, HIDDEN_BIT as int);
    }
    let d: u32 = ex - ey;
    if d <= 64 {
        let scale: u128 = power_of_two(d);
        proof {
            lemma2_to64();
            vstd::arithmetic::power2::lemma2_to64_rest();
            if d < 64 {
                vstd::arithmetic::power2::lemma_pow2_strictly_increases(d as nat, 64);
            }
            assert(0 <= sx * scale <= 0x100_0000 * 0x1_0000_0000_0000_0000) by (nonlinear_arith)
                requires
                    0 <= sx < 0x100_0000,
                    0 <= scale <= 0x1_0000_0000_0000_0000,
            ;
            let b = pow2(ey as nat) as int;
            lemma_pow2_adds(d as nat, ey as nat);
            lemma_pow2_pos(ey as nat);
            assert(ux == (sx * scale) * b) by (nonlinear_arith)
                requires
                    ux == sx * (scale * b),
            ;
            assert(ux - uy == (sx * scale - sy) * b && ux + uy == (sx * scale + sy) * b)
                by (nonlinear_arith)
                requires
                    ux == (sx * scale) * b,
                    uy == sy * b,
            ;
            if subtract {
                assert(sx * scale - sy > 0) by (nonlinear_arith)
                    requires
                        (sx * scale - sy) * b > 0,
                        b > 0,
                ;
            } else {
                assert(sx * scale + sy > 0) by (nonlinear_arith)
                    requires
                        sx > 0,
                        scale > 0,
                        sy >= 0,
                ;
            }
            lemma_pow2_adds(ey as nat, 512);
        }
        let wide: u128 = sx as u128 * scale;
        let m: u128 = if subtract {
            wide - sy as u128
        } else {
            wide + sy as u128
        };
        proof {
            let b = pow2(ey as nat) as int;
            assert(m * (1 * (b * f)) == num * f) by (nonlinear_arith)
                requires
                    num == m * b,
            ;
        }
        round(m, ey as i32, false, Ghost(num), Ghost(1))
    } else {
        let wide: u128 = sx as u128 * 0x100_0000_0000;
        let e: i32 = ex as i32 - 40;
        let m: u128 = if subtract && sy > 0 {
            wide - 1
        } else {
            wide
        };
        proof {
            lemma2_to64();
            vstd::arithmetic::power2::lemma2_to64_rest();
            let p = pow2((e + 512) as nat) as int;
            lemma_pow2_adds(40, (e + 512) as nat);
            lemma_pow2_adds(ex as nat, 512);
            assert(ux * f == wide * p) by (nonlinear_arith)
                requires
                    ux == sx * pow2(ex as nat),
                    pow2(ex as nat) * f == 0x100_0000_0000 * p,
                    wide == sx * 0x100_0000_0000,
            ;
            lemma_pow2_pos((ey + 512) as nat);
            lemma_pow2_adds(ey as nat, 512);
            lemma_pow2_adds(24, (ey + 512) as nat);
            vstd::arithmetic::power2::lemma_pow2_strictly_increases(
                (ey + 536) as nat,
                (e + 512) as nat,
            );
            let c = pow2((ey + 512) as nat) as int;
            assert(uy * f == sy * c) by (nonlinear_arith)
                requires
                    uy == sy * pow2(ey as nat),
                    c == pow2(ey as nat) * f,
            ;
            assert(0 <= sy * c < 0x100_0000 * c && (sy > 0 ==> sy * c > 0) && (sy == 0 ==> sy * c
                == 0)) by (nonlinear_arith)
                requires
                    0 <= sy < 0x100_0000,
                    c > 0,
            ;
            assert((ux - uy) * f == ux * f - uy * f && (ux + uy) * f == ux * f + uy * f)
                by (nonlinear_arith);
            assert((wide + 1) * p == wide * p + p && (wide - 1) * p == wide * p - p)
                by (nonlinear_arith);
            assert(1 * p == p);
        }
        round(m, e, sy > 0, Ghost(num), Ghost(1))
    }
}

/// There is a magnitude nearest to every fraction that is not negative.
pub proof fn lemma_nearest_exists(num: int, den: int)
    requires
        den > 0,
        num >= 0,
    ensures
        nearest(num, den, rounded(num, den)),
{
    let top = INFINITY_BITS as int;
    if 2 * num > den * (units(top - 1) + units(top)) || 2 * num == den * (units(top - 1) + units(
        top,
    )) {
        assert(nearest(num, den, top));
    } else {
        lemma_nearest_below(num, den, top - 1);
    }
}

/// As [`lemma_nearest_exists`], for a fraction below the midpoint after `m`.
proof fn lemma_nearest_below(num: int, den: int, m: int)
    requires
        den > 0,
        num >= 0,
        0 <= m < INFINITY_BITS,
        2 * num <= den * (units(m) + units(m + 1)),
        2 * num == den * (units(m) + units(m + 1)) ==> m % 2 == 0,
    ensures
        exists|r: int| nearest(num, den, r),
    decreases m,
{
    if m == 0 {
        assert(nearest(num, den, 0));
    } else {
        let mid = den * (units(m - 1) + units(m));
        if 2 * num > mid || (2 * num == mid && m % 2 == 0) {
            assert(nearest(num, den, m));
        } else {
            lemma_nearest_below(num, den, m - 1);
        }
    }
}

/// Rounding keeps the order of fractions.
pub proof fn lemma_rounding_is_monotone(n1: int, d1: int, n2: int, d2: int)
    requires
        d1 > 0,
        d2 > 0,
        0 <= n1,
        0 <= n2,
        n1 * d2 <= n2 * d1,
    ensures
        rounded(n1, d1) <= rounded(n2, d2),
{
    lemma_nearest_exists(n1, d1);
    lemma_nearest_exists(n2, d2);
    let a = rounded(n1, d1);
    let b = rounded(n2, d2);
    if a > b {
        let below = units(a - 1) + units(a);
        let above = units(b) + units(b + 1);
        lemma_units_step(b);
        lemma_units_step(a - 1);
        if b + 1 < a {
            lemma_units_increase(b, a - 1);
            lemma_units_increase(b + 1, a);
        }
        // d1 * below <= 2 * n1 and 2 * n2 <= d2 * above, so below <= above.
        assert(d1 * d2 * below <= d1 * d2 * above) by (nonlinear_arith)
            requires
                d1 * below <= 2 * n1,
                2 * n2 <= d2 * above,
                n1 * d2 <= n2 * d1,
                d1 > 0,
                d2 > 0,
        ;
        assert(d1 * d2 > 0) by (nonlinear_arith)
            requires
                d1 > 0,
                d2 > 0,
        ;
        let c = d1 * d2;
        assert(below <= above) by (nonlinear_arith)
            requires
                c * below <= c * above,
                c > 0,
        ;
        assert(b + 1 == a);
        // Both stand on the midpoint between two neighbours, one of which is odd.
        assert(2 * n1 == d1 * below) by (nonlinear_arith)
            requires
                below == above,
                d1 * below <= 2 * n1,
                2 * n2 <= d2 * above,
                n1 * d2 <= n2 * d1,
                d1 > 0,
                d2 > 0,
        ;
        assert(2 * n2 == d2 * above) by (nonlinear_arith)
            requires
                below == above,
                d1 * below <= 2 * n1,
                2 * n2 <= d2 * above,
                n1 * d2 <= n2 * d1,
                d1 > 0,
                d2 > 0,
        ;
    }
}

/// A fraction that is a magnitude rounds to it.
pub proof fn lemma_rounding_is_exact(m: int, den: int)
    requires
        den > 0,
        0 <= m <= INFINITY_BITS,
    ensures
        rounded(units(m) * den, den) == m,
        units(m) >= 0,
{
    lemma_units_step(m);
    lemma_neighbours(den, m);
    assert(2 * (units(m) * den) == 2 * (den * units(m))) by (nonlinear_arith);
    assert(nearest(units(m) * den, den, m));
    lemma_nearest_is_unique(units(m) * den, den, m, rounded(units(m) * den, den));
}

impl Scalar {
    /// Whether the sign bit is set.
    pub open spec fn negative(self) -> bool {
        self.bits >= SIGN_BIT
    }

    /// Whether the value is an infinity.
    pub open spec fn infinite(self) -> bool {
        self.magnitude() == INFINITY_BITS
    }

    /// Whether the value is neither infinite nor a NaN.
    pub open spec fn finite(self) -> bool {
        self.magnitude() < INFINITY_BITS
    }

    /// Whether the value is one of the two zeros.
    pub open spec fn is_zero(self) -> bool {
        self.magnitude() == 0
    }

    /// The value of a finite number, in units of `2^-149`.
    pub open spec fn exact(self) -> int {
        if self.negative() {
            -units(self.magnitude())
        } else {
            units(self.magnitude())
        }
    }

    /// The number with the other sign.
    pub open spec fn negated(self) -> Scalar {
        signed(!self.negative(), self.magnitude())
    }

    /// The product of two values.
    pub open spec fn product(self, other: Scalar) -> Scalar {
        let negative = self.negative() != other.negative();
        if self.nan() || other.nan() || (self.infinite() && other.is_zero()) || (self.is_zero()
            && other.infinite()) {
            Scalar { bits: QUIET_NAN }
        } else if self.infinite() || other.infinite() {
            signed(negative, INFINITY_BITS as int)
        } else {
            signed(
                negative,
                rounded(units(self.magnitude()) * units(other.magnitude()), unit_scale()),
            )
        }
    }

    /// The quotient of two values.
    pub open spec fn quotient(self, other: Scalar) -> Scalar {
        let negative = self.negative() != other.negative();
        if self.nan() || other.nan() || (self.infinite() && other.infinite()) || (self.is_zero()
            && other.is_zero()) {
            Scalar { bits: QUIET_NAN }
        } else if self.infinite() || other.is_zero() {
            signed(negative, INFINITY_BITS as int)
        } else if other.infinite() {
            signed(negative, 0)
        } else {
            signed(
                negative,
                rounded(units(self.magnitude()) * unit_scale(), units(other.magnitude())),
            )
        }
    }

    /// The sum of two values.
    pub open spec fn sum(self, other: Scalar) -> Scalar {
        let total = self.exact() + other.exact();
        if self.nan() || other.nan() || (self.infinite() && other.infinite() && self.negative()
            != other.negative()) {
            Scalar { bits: QUIET_NAN }
        } else if self.infinite() {
            self
        } else if other.infinite() {
            other
        } else if total == 0 {
            signed(self.negative() && other.negative(), 0)
        } else if total < 0 {
            signed(true, rounded(-total, 1))
        } else {
            signed(false, rounded(total, 1))
        }
    }

    /// The difference of two values.
    pub open spec fn difference(self, other: Scalar) -> Scalar {
        self.sum(other.negated())
    }

    /// The value without its sign.
    pub open spec fn absolute(self) -> Scalar {
        signed(false, self.magnitude())
    }

    /// The larger of two values; a NaN gives way to a number.
    pub open spec fn larger(self, other: Scalar) -> Scalar {
        if self.nan() || self.below(other) {
            other
        } else {
            self
        }
    }

    /// The smaller of two values; a NaN gives way to a number.
    pub open spec fn smaller(self, other: Scalar) -> Scalar {
        if self.nan() || other.below(self) {
            other
        } else {
            self
        }
    }

    /// The value nearest to a whole number.
    pub open spec fn natural(n: int) -> Scalar {
        signed(false, rounded(n * unit_scale(), 1))
    }

    /// The pattern without its sign.
    fn size(self) -> (r: u32)
        ensures
            r == self.magnitude(),
    {
        if self.bits < SIGN_BIT {
            self.bits
        } else {
            self.bits - SIGN_BIT
        }
    }

    /// The value with the given sign and magnitude.
    fn assembled(negative: bool, m: u32) -> (r: Scalar)
        requires
            m <= INFINITY_BITS,
        ensures
            r == signed(negative, m as int),
    {
        if negative {
            Scalar { bits: SIGN_BIT + m }
        } else {
            Scalar { bits: m }
        }
    }

    /// `self * other`.
    pub fn times(self, other: Scalar) -> (r: Scalar)
        ensures
            r == self.product(other),
    {
        let negative: bool = (self.bits >= SIGN_BIT) != (other.bits >= SIGN_BIT);
        let a: u32 = self.size();
        let b: u32 = other.size();
        if a > INFINITY_BITS || b > INFINITY_BITS {
            Scalar { bits: QUIET_NAN }
        } else if a == INFINITY_BITS || b == INFINITY_BITS {
            if a == 0 || b == 0 {
                Scalar { bits: QUIET_NAN }
            } else {
                Scalar::assembled(negative, INFINITY_BITS)
            }
        } else if a == 0 || b == 0 {
            proof {
                lemma_pow2_pos(149);
                lemma_rounding_is_exact(0, unit_scale());
                assert(units(0) == 0);
                assert(0 * unit_scale() == 0);
                assert(units(a as int) * units(b as int) == 0) by (nonlinear_arith)
                    requires
                        units(a as int) == 0 || units(b as int) == 0,
                ;
            }
            Scalar::assembled(negative, 0)
        } else {
            Scalar::assembled(negative, multiply(a, b))
        }
    }

    /// `self / other`.
    pub fn over(self, other: Scalar) -> (r: Scalar)
        ensures
            r == self.quotient(other),
    {
        let negative: bool = (self.bits >= SIGN_BIT) != (other.bits >= SIGN_BIT);
        let a: u32 = self.size();
        let b: u32 = other.size();
        if a > INFINITY_BITS || b > INFINITY_BITS || (a == INFINITY_BITS && b == INFINITY_BITS) || (a
            == 0 && b == 0) {
            Scalar { bits: QUIET_NAN }
        } else if a == INFINITY_BITS || b == 0 {
            Scalar::assembled(negative, INFINITY_BITS)
        } else if b == INFINITY_BITS {
            Scalar::assembled(negative, 0)
        } else if a == 0 {
            proof {
                lemma_units_increase(0, b as int);
                lemma_rounding_is_exact(0, units(b as int));
                assert(units(0) == 0);
                assert(0 * unit_scale() == 0);
                assert(0 * units(b as int) == 0);
            }
            Scalar::assembled(negative, 0)
        } else {
            Scalar::assembled(negative, divide(a, b))
        }
    }

    /// `self + other`.
    pub fn plus(self, other: Scalar) -> (r: Scalar)
        ensures
            r == self.sum(other),
    {
        let x: bool = self.bits >= SIGN_BIT;
        let y: bool = other.bits >= SIGN_BIT;
        let a: u32 = self.size();
        let b: u32 = other.size();
        if a > INFINITY_BITS || b > INFINITY_BITS || (a == INFINITY_BITS && b == INFINITY_BITS && x
            != y) {
            Scalar { bits: QUIET_NAN }
        } else if a == INFINITY_BITS {
            self
        } else if b == INFINITY_BITS {
            other
        } else {
            proof {
                lemma_units_step(a as int);
                lemma_units_step(b as int);
                assert(units(0) == 0);
                if a > 0 {
                    lemma_units_increase(0, a as int);
                }
                if b > 0 {
                    lemma_units_increase(0, b as int);
                }
                if a < b {
                    lemma_units_increase(a as int, b as int);
                } else if b < a {
                    lemma_units_increase(b as int, a as int);
                }
            }
            if a == 0 && b == 0 {
                Scalar::assembled(x && y, 0)
            } else if x == y {
                if a >= b {
                    Scalar::assembled(x, combine(a, b, false))
                } else {
                    Scalar::assembled(x, combine(b, a, false))
                }
            } else if a == b {
                Scalar::assembled(false, 0)
            } else if a > b {
                Scalar::assembled(x, combine(a, b, true))
            } else {
                Scalar::assembled(y, combine(b, a, true))
            }
        }
    }

    /// `-self`.
    pub fn negate(self) -> (r: Scalar)
        ensures
            r == self.negated(),
    {
        if self.bits >= SIGN_BIT {
            Scalar { bits: self.bits - SIGN_BIT }
        } else {
            Scalar { bits: self.bits + SIGN_BIT }
        }
    }

    /// `self - other`.
    pub fn minus(self, other: Scalar) -> (r: Scalar)
        ensures
            r == self.difference(other),
    {
        self.plus(other.negate())
    }

    /// The value without its sign.
    pub fn abs(self) -> (r: Scalar)
        ensures
            r == self.absolute(),
    {
        Scalar { bits: self.size() }
    }

    /// The larger of two values; a NaN gives way to a number.
    pub fn max(self, other: Scalar) -> (r: Scalar)
        ensures
            r == self.larger(other),
    {
        if self.is_nan() || self.lt(other) {
            other
        } else {
            self
        }
    }

    /// The smaller of two values; a NaN gives way to a number.
    pub fn min(self, other: Scalar) -> (r: Scalar)
        ensures
            r == self.smaller(other),
    {
        if self.is_nan() || other.lt(self) {
            other
        } else {
            self
        }
    }

    /// The value nearest to a whole number.
    pub fn from_u64(n: u64) -> (r: Scalar)
        ensures
            r == Scalar::natural(n as int),
    {
        if n == 0 {
            proof {
                lemma_rounding_is_exact(0, 1);
                assert(units(0) == 0);
                assert(0 * unit_scale() == 0);
            }
            return Scalar { bits: 0 };
        }
        proof {
            lemma_pow2_adds(149, 512);
            let d = unit_scale();
            let f = fine();
            assert(n * (1 * (d * f)) == (n * d) * f) by (nonlinear_arith);
        }
        let m: u32 = round(n as u128, 149, false, Ghost(n * unit_scale()), Ghost(1));
        Scalar { bits: m }
    }
}

/// The units of one.
pub proof fn lemma_units_of_one()
    ensures
        units(crate::scalar::ONE as int) == unit_scale(),
        unit_scale() > 0,
{
    lemma_pow2_pos(149);
    lemma_units(126, HIDDEN_BIT as int);
    lemma2_to64();
    lemma_pow2_adds(23, 126);
}

/// A number times a factor whose magnitude is at most one is no larger in
/// magnitude.
pub proof fn lemma_shrinking(weight: Scalar, factor: Scalar)
    requires
        weight.finite(),
        factor.magnitude() <= crate::scalar::ONE,
    ensures
        weight.product(factor).finite(),
        weight.product(factor).magnitude() <= weight.magnitude(),
        weight.product(factor).negative() == (weight.negative() != factor.negative()),
{
    let a = weight.magnitude();
    let b = factor.magnitude();
    let one = crate::scalar::ONE as int;
    let d = unit_scale();
    lemma_units_of_one();
    lemma_units_step(a);
    lemma_units_step(b);
    if b < one {
        lemma_units_increase(b, one);
    }
    let x = units(a);
    let y = units(b);
    assert(0 <= x * y && (x * y) * d <= (x * d) * d) by (nonlinear_arith)
        requires
            0 <= x,
            0 <= y <= d,
            d > 0,
    ;
    lemma_rounding_is_exact(a, d);
    assert(0 <= x * d) by (nonlinear_arith)
        requires
            0 <= x,
            d > 0,
    ;
    lemma_rounding_is_monotone(x * y, d, x * d, d);
    lemma_nearest_exists(x * y, d);
}

/// A number times a factor that is at least one is no smaller.
pub proof fn lemma_growing(weight: Scalar, factor: Scalar)
    requires
        weight.finite(),
        !weight.negative(),
        factor.finite(),
        Scalar::from_bits(crate::scalar::ONE).at_most(factor),
    ensures
        weight.at_most(weight.product(factor)),
{
    let a = weight.magnitude();
    let b = factor.magnitude();
    let one = crate::scalar::ONE as int;
    let d = unit_scale();
    lemma_units_of_one();
    lemma_units_step(a);
    lemma_units_step(b);
    if one < b {
        lemma_units_increase(one, b);
    }
    let x = units(a);
    let y = units(b);
    assert(0 <= x * d && (x * d) * d <= (x * y) * d && 0 <= x * y) by (nonlinear_arith)
        requires
            0 <= x,
            d <= y,
            d > 0,
    ;
    lemma_rounding_is_exact(a, d);
    lemma_rounding_is_monotone(x * d, d, x * y, d);
    lemma_nearest_exists(x * y, d);
}

/// Adding what is not negative does not lower a number.
pub proof fn lemma_adding_up(weight: Scalar, delta: Scalar)
    requires
        weight.finite(),
        !weight.negative(),
        delta.finite(),
        !delta.negative(),
    ensures
        weight.at_most(weight.sum(delta)),
        !weight.sum(delta).negative(),
{
    let a = weight.magnitude();
    let b = delta.magnitude();
    lemma_units_step(a);
    lemma_units_step(b);
    lemma_rounding_is_exact(a, 1);
    assert(units(a) * 1 == units(a));
    if a > 0 {
        lemma_units_increase(0, a);
    }
    assert(units(0) == 0);
    lemma_rounding_is_monotone(units(a), 1, units(a) + units(b), 1);
    lemma_nearest_exists(units(a) + units(b), 1);
}

/// Adding what is not positive does not raise a number, and gives a number.
pub proof fn lemma_taking_away(weight: Scalar, delta: Scalar)
    requires
        weight.finite(),
        !weight.negative(),
        delta.finite(),
        delta.negative() || delta.is_zero(),
    ensures
        weight.sum(delta).at_most(weight),
        weight.sum(delta).finite(),
        delta.magnitude() <= weight.magnitude() ==> !weight.sum(delta).negative(),
{
    let a = weight.magnitude();
    let b = delta.magnitude();
    let total = weight.exact() + delta.exact();
    lemma_units_step(a);
    lemma_units_step(b);
    lemma_rounding_is_exact(a, 1);
    lemma_rounding_is_exact(b, 1);
    assert(units(a) * 1 == units(a) && units(b) * 1 == units(b));
    assert(units(0) == 0);
    if a < b {
        lemma_units_increase(a, b);
    } else if b < a {
        lemma_units_increase(b, a);
    }
    if total > 0 {
        lemma_rounding_is_monotone(total, 1, units(a), 1);
        lemma_nearest_exists(total, 1);
    } else if total < 0 {
        lemma_rounding_is_monotone(-total, 1, units(b), 1);
        lemma_nearest_exists(-total, 1);
    }
}

/// One and what is at most one make a number.
pub proof fn lemma_doubling_one(part: Scalar)
    requires
        !part.negative(),
        part.magnitude() <= crate::scalar::ONE,
    ensures
        Scalar::from_bits(crate::scalar::ONE).sum(part).finite(),
{
    let one = crate::scalar::ONE as int;
    let two = 0x4000_0000int;
    lemma_units_of_one();
    lemma_units(127, HIDDEN_BIT as int);
    lemma2_to64();
    lemma_pow2_adds(23, 127);
    lemma_pow2_adds(1, 149);
    let b = part.magnitude();
    if b < one {
        lemma_units_increase(b, one);
    }
    lemma_units_step(b);
    lemma_rounding_is_exact(two, 1);
    assert(units(two) * 1 == units(two));
    lemma_rounding_is_monotone(units(one) + units(b), 1, units(two), 1);
    lemma_nearest_exists(units(one) + units(b), 1);
}

/// The distances from a normal magnitude to its neighbours, in units, are at
/// most one part in `2^23` of it.
pub proof fn lemma_gaps(m: int)
    requires
        HIDDEN_BIT <= m,
    ensures
        HIDDEN_BIT * (units(m + 1) - units(m)) <= units(m),
        HIDDEN_BIT * (units(m) - units(m - 1)) <= units(m),
        units(m) >= HIDDEN_BIT,
{
    let h = HIDDEN_BIT as int;
    let e = m / h;
    let f = m % h;
    vstd::arithmetic::div_mod::lemma_fundamental_div_mod(m, h);
    assert(e >= 1) by (nonlinear_arith)
        requires
            m == h * e + f,
            m >= h,
            0 <= f < h,
            h > 0,
    ;
    let q = e - 1;
    let g = pow2(q as nat) as int;
    let sig = h + f;
    lemma_pow2_pos(q as nat);
    assert(q * h + sig == m) by (nonlinear_arith)
        requires
            m == h * e + f,
            q == e - 1,
            sig == h + f,
    ;
    lemma_units(q, sig);
    lemma_units(q, sig + 1);
    assert(h * ((sig + 1) * g - sig * g) <= sig * g && sig * g >= h) by (nonlinear_arith)
        requires
            sig >= h > 0,
            g >= 1,
    ;
    if f > 0 {
        lemma_units(q, sig - 1);
        assert(h * (sig * g - (sig - 1) * g) <= sig * g) by (nonlinear_arith)
            requires
                sig >= h > 0,
                g >= 1,
        ;
    } else if q == 0 {
        lemma2_to64();
        lemma_units(0, h - 1);
    } else {
        lemma_pow2_unfold(q as nat);
        let half = pow2((q - 1) as nat) as int;
        assert((q - 1) * h + (2 * h - 1) == m - 1) by (nonlinear_arith)
            requires
                m == q * h + sig,
                sig == h,
        ;
        lemma_units(q - 1, 2 * h - 1);
        assert(h * (sig * g - (2 * h - 1) * half) <= sig * g) by (nonlinear_arith)
            requires
                sig == h,
                h > 0,
                g == 2 * half,
                half >= 0,
        ;
    }
}

/// The fraction that rounds to a normal magnitude is within one part in `2^24`
/// of it.
pub proof fn lemma_rounding_error(num: int, den: int)
    requires
        den > 0,
        num >= 0,
        HIDDEN_BIT <= rounded(num, den) < INFINITY_BITS,
    ensures
        0x100_0000 * num <= 0x100_0001 * (den * units(rounded(num, den))),
        0xFF_FFFF * (den * units(rounded(num, den))) <= 0x100_0000 * num,
{
    let m = rounded(num, den);
    lemma_nearest_exists(num, den);
    lemma_gaps(m);
    let u = units(m);
    let above = units(m + 1);
    let below = units(m - 1);
    assert(0x100_0000 * num <= 0x100_0001 * (den * u)) by (nonlinear_arith)
        requires
            2 * num <= den * (u + above),
            0x80_0000 * (above - u) <= u,
            den > 0,
    {
        assert(0x80_0000 * (den * (above - u)) <= den * u);
        assert(den * (u + above) == 2 * (den * u) + den * (above - u));
    }
    assert(0xFF_FFFF * (den * u) <= 0x100_0000 * num) by (nonlinear_arith)
        requires
            2 * num >= den * (below + u),
            0x80_0000 * (u - below) <= u,
            den > 0,
    {
        assert(0x80_0000 * (den * (u - below)) <= den * u);
        assert(den * (below + u) == 2 * (den * u) - den * (u - below));
    }
}

/// The fraction that rounds to a subnormal magnitude is within half a unit of
/// it.
pub proof fn lemma_subnormal_error(num: int, den: int)
    requires
        den > 0,
        num >= 0,
        rounded(num, den) < HIDDEN_BIT,
    ensures
        2 * (den * units(rounded(num, den))) <= 2 * num + den,
        2 * num <= 2 * (den * units(rounded(num, den))) + den,
{
    let m = rounded(num, den);
    lemma_nearest_exists(num, den);
    lemma2_to64();
    lemma_units(0, m);
    lemma_units(0, m + 1);
    assert(den * (m + (m + 1)) == 2 * (den * m) + den) by (nonlinear_arith);
    if m > 0 {
        lemma_units(0, m - 1);
        assert(den * ((m - 1) + m) == 2 * (den * m) - den) by (nonlinear_arith);
    } else {
        assert(den * 0 == 0);
    }
}

/// A whole number of units rounds to within one part in `2^24`, or to infinity.
pub proof fn lemma_whole_error(total: int)
    requires
        total > 0,
    ensures
        0 < rounded(total, 1) <= INFINITY_BITS,
        rounded(total, 1) < INFINITY_BITS ==> {
            &&& 0x100_0000 * total <= 0x100_0001 * units(rounded(total, 1))
            &&& 0xFF_FFFF * units(rounded(total, 1)) <= 0x100_0000 * total
        },
{
    let m = rounded(total, 1);
    lemma2_to64();
    lemma_nearest_exists(total, 1);
    if total < HIDDEN_BIT {
        lemma_units(0, total);
        lemma_rounding_is_exact(total, 1);
        assert(units(total) * 1 == total);
    } else {
        lemma_units(0, HIDDEN_BIT as int);
        lemma_rounding_is_exact(HIDDEN_BIT as int, 1);
        assert(units(HIDDEN_BIT as int) * 1 == HIDDEN_BIT);
        lemma_rounding_is_monotone(HIDDEN_BIT as int, 1, total, 1);
        if m < INFINITY_BITS {
            lemma_rounding_error(total, 1);
            assert(1 * units(m) == units(m));
        }
    }
}

/// The sum of two numbers that are not negative is within one part in `2^24` of
/// the exact sum, or infinite.
pub proof fn lemma_sum_error(a: Scalar, b: Scalar)
    requires
        a.finite(),
        b.finite(),
        !a.negative(),
        !b.negative(),
    ensures
        !a.sum(b).negative(),
        !a.sum(b).nan(),
        a.sum(b).finite() ==> {
            &&& 0x100_0000 * (a.exact() + b.exact()) <= 0x100_0001 * a.sum(b).exact()
            &&& 0xFF_FFFF * a.sum(b).exact() <= 0x100_0000 * (a.exact() + b.exact())
        },
        a.exact() >= 0,
        b.exact() >= 0,
{
    lemma_units_step(a.magnitude());
    lemma_units_step(b.magnitude());
    let total = a.exact() + b.exact();
    assert(units(0) == 0);
    if total > 0 {
        lemma_whole_error(total);
    }
}

/// The sums of one number with two others, none of them negative, keep their
/// order.
pub proof fn lemma_sums_keep_order(a: Scalar, x: Scalar, y: Scalar)
    requires
        a.finite(),
        !a.negative(),
        !x.negative(),
        !y.negative(),
        y.finite(),
        x.at_most(y),
    ensures
        a.sum(x).at_most(a.sum(y)),
        a.at_most(a.sum(x)),
{
    lemma_adding_up(a, x);
    lemma_adding_up(a, y);
    lemma_units_step(a.magnitude());
    lemma_units_step(x.magnitude());
    assert(units(0) == 0);
    if x.magnitude() < y.magnitude() {
        lemma_units_increase(x.magnitude(), y.magnitude());
    }
    let p = a.exact() + x.exact();
    let q = a.exact() + y.exact();
    if p > 0 {
        lemma_nearest_exists(p, 1);
        lemma_nearest_exists(q, 1);
        lemma_rounding_is_monotone(p, 1, q, 1);
    }
}

/// What a number leaves of a larger one is a number, at most the larger, and
/// exceeds the exact difference by at most one part in `2^24`.
pub proof fn lemma_difference(a: Scalar, b: Scalar)
    requires
        a.finite(),
        !a.negative(),
        !b.negative(),
        b.at_most(a),
    ensures
        a.difference(b).finite(),
        !a.difference(b).negative(),
        a.difference(b).at_most(a),
        0 <= a.difference(b).exact() <= a.exact(),
        0xFF_FFFF * a.difference(b).exact() <= 0x100_0000 * (a.exact() - b.exact()),
{
    let r = a.difference(b);
    let total = a.exact() - b.exact();
    assert(units(0) == 0);
    lemma_units_step(a.magnitude());
    lemma_units_step(b.magnitude());
    if b.magnitude() < a.magnitude() {
        lemma_units_increase(b.magnitude(), a.magnitude());
    }
    assert(b.negated().exact() == -b.exact());
    lemma_taking_away(a, b.negated());
    if total > 0 {
        lemma_whole_error(total);
    }
    lemma_units_step(r.magnitude());
    if r.magnitude() < a.magnitude() {
        lemma_units_increase(r.magnitude(), a.magnitude());
    }
}

/// What one number leaves of two larger ones keeps their order.
pub proof fn lemma_differences_keep_order(a: Scalar, b: Scalar, less: Scalar)
    requires
        a.at_most(b),
        b.finite(),
        !a.negative(),
        !b.negative(),
        !less.negative(),
        less.at_most(a),
    ensures
        a.difference(less).at_most(b.difference(less)),
{
    lemma_difference(a, less);
    lemma_difference(b, less);
    assert(units(0) == 0);
    assert(less.negated().exact() == -less.exact());
    if a.magnitude() < b.magnitude() {
        lemma_units_increase(a.magnitude(), b.magnitude());
    }
    if less.magnitude() < a.magnitude() {
        lemma_units_increase(less.magnitude(), a.magnitude());
    }
    let p = a.exact() - less.exact();
    let q = b.exact() - less.exact();
    if p > 0 {
        lemma_nearest_exists(p, 1);
        lemma_nearest_exists(q, 1);
        lemma_rounding_is_monotone(p, 1, q, 1);
    }
}

/// A part divided by the whole is at most one.
pub proof fn lemma_part_of_a_whole(part: Scalar, whole: Scalar)
    requires
        part.finite(),
        !part.negative(),
        part.below(whole),
    ensures
        !part.quotient(whole).negative(),
        part.quotient(whole).magnitude() <= crate::scalar::ONE,
{
    if whole.finite() {
        let d = unit_scale();
        let a = units(part.magnitude());
        let b = units(whole.magnitude());
        lemma_units_of_one();
        lemma_units_increase(part.magnitude(), whole.magnitude());
        lemma_rounding_is_exact(crate::scalar::ONE as int, b);
        assert(0 <= a * d && (a * d) * b <= (d * b) * b && 0 <= d * b) by (nonlinear_arith)
            requires
                0 <= a < b,
                d > 0,
        ;
        lemma_rounding_is_monotone(a * d, b, d * b, b);
        lemma_nearest_exists(a * d, b);
    }
}

/// Numbers times one factor keep their order.
pub proof fn lemma_scaling_keeps_order(a: Scalar, b: Scalar, factor: Scalar)
    requires
        a.at_most(b),
        b.finite(),
        !a.negative(),
        !b.negative(),
        !factor.negative(),
        factor.magnitude() <= crate::scalar::ONE,
    ensures
        a.product(factor).at_most(b.product(factor)),
{
    let d = unit_scale();
    let x = units(a.magnitude());
    let y = units(b.magnitude());
    let f = units(factor.magnitude());
    lemma_units_of_one();
    lemma_units_step(a.magnitude());
    lemma_units_step(factor.magnitude());
    if a.magnitude() < b.magnitude() {
        lemma_units_increase(a.magnitude(), b.magnitude());
    }
    assert(0 <= x * f && 0 <= y * f && (x * f) * d <= (y * f) * d) by (nonlinear_arith)
        requires
            0 <= x <= y,
            0 <= f,
            d > 0,
    ;
    lemma_rounding_is_monotone(x * f, d, y * f, d);
    lemma_nearest_exists(x * f, d);
    lemma_nearest_exists(y * f, d);
    lemma_shrinking(a, factor);
    lemma_shrinking(b, factor);
}

/// How far a part divided by the whole may exceed the exact fraction.
pub proof fn lemma_part_error(part: Scalar, whole: Scalar)
    requires
        part.finite(),
        !part.negative(),
        whole.finite(),
        part.below(whole),
    ensures
        0xFF_FFFF * (whole.exact() * part.quotient(whole).exact()) <= 0x100_0000 * (part.exact()
            * unit_scale() + whole.exact()),
        part.quotient(whole).exact() >= 0,
{
    let d = unit_scale();
    let a = part.exact();
    let b = whole.exact();
    let q = part.quotient(whole);
    lemma_part_of_a_whole(part, whole);
    lemma_units_increase(part.magnitude(), whole.magnitude());
    lemma_units_step(q.magnitude());
    lemma_pow2_pos(149);
    assert(0 <= a * d) by (nonlinear_arith)
        requires
            0 <= a,
            0 < d,
    ;
    lemma_nearest_exists(a * d, b);
    if q.magnitude() < HIDDEN_BIT {
        lemma_subnormal_error(a * d, b);
    } else {
        lemma_rounding_error(a * d, b);
    }
}

/// How far a number that is scaled down may exceed the exact product.
pub proof fn lemma_scaling_error(weight: Scalar, factor: Scalar)
    requires
        weight.finite(),
        !weight.negative(),
        !factor.negative(),
        factor.magnitude() <= crate::scalar::ONE,
    ensures
        0xFF_FFFF * (2 * (unit_scale() * weight.product(factor).exact())) <= 0x100_0000 * (2 * (
        weight.exact() * factor.exact()) + unit_scale()),
        weight.product(factor).exact() >= 0,
{
    let d = unit_scale();
    let x = weight.exact();
    let y = factor.exact();
    let p = weight.product(factor);
    lemma_units_of_one();
    lemma_units_step(weight.magnitude());
    lemma_units_step(factor.magnitude());
    lemma_units_step(p.magnitude());
    lemma_shrinking(weight, factor);
    assert(0 <= x * y) by (nonlinear_arith)
        requires
            0 <= x,
            0 <= y,
    ;
    lemma_nearest_exists(x * y, d);
    if p.magnitude() < HIDDEN_BIT {
        lemma_subnormal_error(x * y, d);
    } else {
        lemma_rounding_error(x * y, d);
    }
}

/// A significand times a power of two is the units of a magnitude.
proof fn lemma_representable(sig: int, q: int) -> (m: int)
    requires
        1 <= sig <= 2 * HIDDEN_BIT,
        0 <= q,
    ensures
        units(m) == sig * pow2(q as nat),
        0 < m <= (q + 2) * HIDDEN_BIT,
    decreases q,
{
    let h = HIDDEN_BIT as int;
    if sig >= h || q == 0 {
        lemma_units(q, sig);
        assert(0 < q * h + sig <= (q + 2) * h) by (nonlinear_arith)
            requires
                0 <= q,
                h > 0,
                1 <= sig <= 2 * h,
        ;
        q * h + sig
    } else {
        lemma_pow2_unfold(q as nat);
        let p = pow2((q - 1) as nat) as int;
        assert(sig * (2 * p) == (2 * sig) * p) by (nonlinear_arith);
        lemma_representable(2 * sig, q - 1)
    }
}

/// A small whole number is represented exactly.
pub proof fn lemma_natural(n: int)
    requires
        1 <= n <= 0x100_0000,
    ensures
        Scalar::natural(n).finite(),
        !Scalar::natural(n).negative(),
        Scalar::natural(n).exact() == n * unit_scale(),
        unit_scale() > 0,
{
    lemma_pow2_pos(149);
    let m = lemma_representable(n, 149);
    lemma_rounding_is_exact(m, 1);
    assert(units(m) * 1 == units(m));
}

/// A number, taken several times: the product is a number that is not negative,
/// or infinite, it exceeds none that the exact product does not exceed, and
/// where it is finite and the number normal it is within one part in `2^24`.
pub proof fn lemma_multiple(value: Scalar, n: int, limit: Scalar)
    requires
        value.finite(),
        !value.negative(),
        value.magnitude() > 0,
        1 <= n <= 0x100_0000,
        limit.finite(),
        !limit.negative(),
    ensures
        !value.product(Scalar::natural(n)).negative(),
        !value.product(Scalar::natural(n)).nan(),
        limit.exact() <= n * value.exact() ==> limit.at_most(value.product(Scalar::natural(n))),
        value.product(Scalar::natural(n)).finite() && HIDDEN_BIT <= value.magnitude()
            ==> 0x100_0000 * (n * value.exact()) <= 0x100_0001 * value.product(
            Scalar::natural(n),
        ).exact(),
{
    let d = unit_scale();
    let x = value.exact();
    let b = limit.exact();
    let p = value.product(Scalar::natural(n));
    lemma_natural(n);
    lemma_units_step(value.magnitude());
    lemma_units_step(limit.magnitude());
    assert(x * (n * d) == (n * x) * d) by (nonlinear_arith);
    assert(0 <= (n * x) * d && x * d <= (n * x) * d && 0 <= x * d && 0 <= b * d) by (nonlinear_arith)
        requires
            0 <= x,
            0 <= b,
            1 <= n,
            0 < d,
    ;
    lemma_nearest_exists((n * x) * d, d);
    assert(p.magnitude() == rounded((n * x) * d, d));
    if b <= n * x {
        lemma_rounding_is_exact(limit.magnitude(), d);
        assert((b * d) * d <= ((n * x) * d) * d) by (nonlinear_arith)
            requires
                b <= n * x,
                0 < d,
        ;
        lemma_rounding_is_monotone(b * d, d, (n * x) * d, d);
    }
    if p.finite() && HIDDEN_BIT <= value.magnitude() {
        lemma_rounding_is_exact(value.magnitude(), d);
        assert((x * d) * d <= ((n * x) * d) * d) by (nonlinear_arith)
            requires
                x * d <= (n * x) * d,
                0 < d,
        ;
        lemma_rounding_is_monotone(x * d, d, (n * x) * d, d);
        lemma_rounding_error((n * x) * d, d);
        let f = units(p.magnitude());
        assert(0x100_0000 * (n * x) <= 0x100_0001 * f) by (nonlinear_arith)
            requires
                0x100_0000 * ((n * x) * d) <= 0x100_0001 * (d * f),
                0 < d,
        ;
    }
}

/// How far a number that is scaled down may be from the exact product, either
/// way.
pub proof fn lemma_scaling_distance(weight: Scalar, factor: Scalar)
    requires
        weight.finite(),
        !weight.negative(),
        !factor.negative(),
        factor.magnitude() <= crate::scalar::ONE,
    ensures
        0x100_0000 * (unit_scale() * weight.product(factor).exact() - weight.exact()
            * factor.exact()) <= unit_scale() * (weight.exact() + 0x100_0000),
        0x100_0000 * (weight.exact() * factor.exact() - unit_scale() * weight.product(
            factor,
        ).exact()) <= unit_scale() * (weight.exact() + 0x100_0000),
        0 <= weight.product(factor).exact() <= weight.exact(),
{
    let d = unit_scale();
    let x = weight.exact();
    let y = factor.exact();
    let p = weight.product(factor);
    let r = p.exact();
    lemma_units_of_one();
    lemma_units_step(weight.magnitude());
    lemma_units_step(factor.magnitude());
    lemma_units_step(p.magnitude());
    lemma_shrinking(weight, factor);
    if p.magnitude() < weight.magnitude() {
        lemma_units_increase(p.magnitude(), weight.magnitude());
    }
    assert(0 <= x * y) by (nonlinear_arith)
        requires
            0 <= x,
            0 <= y,
    ;
    lemma_nearest_exists(x * y, d);
    assert(d * r <= d * (x + 0x100_0000) && 0x100_0000 * d <= d * (x + 0x100_0000))
        by (nonlinear_arith)
        requires
            0 <= r <= x,
            0 < d,
    ;
    if p.magnitude() < HIDDEN_BIT {
        lemma_subnormal_error(x * y, d);
    } else {
        lemma_rounding_error(x * y, d);
    }
}

} // verus!
