//! Randomness for routing decisions.
//!
//! Randomness is injected: a generator is a stream of 64-bit draws, and every
//! decision that depends on chance says which draws it took. A seeded
//! generator therefore replays a decision exactly.
//!
//! The generators here are statistical. They must not be used for keys,
//! nonces, or identifiers that need unpredictability.

use vstd::prelude::*;

use crate::scalar::{Scalar, HIDDEN_BIT, ONE, ZERO};

verus! {

/// The number of 64-bit values.
pub const RANGE: u128 = 0x1_0000_0000_0000_0000;

/// The increment between successive states of [`SplitMix64`].
pub const GOLDEN_GAMMA: u64 = 0x9E37_79B9_7F4A_7C15;

/// The largest single-precision value that [`FixedRng::from_f32s`] keeps.
pub const ALMOST_ONE: u32 = 0x3F7F_FFFE;

/// Whether a draw `x` may stand for a value below `n`.
///
/// The draw times `n` is a position on `n` intervals of equal length. The
/// positions that would make some interval longer than another are refused.
pub open spec fn accepted(x: u64, n: u64) -> bool {
    (x * n) % RANGE as int >= (RANGE - n) % n as int
}

/// The interval, out of `n`, that the draw `x` falls in.
pub open spec fn interval(x: u64, n: u64) -> int {
    (x * n) / RANGE as int
}

/// Whether `u` is the fraction of the next draw of `before`, and `after` is the
/// generator one draw on.
pub open spec fn fraction_drawn<R: Rng>(before: R, u: Scalar, after: R) -> bool {
    &&& u.is_unit_fraction(before.draw(0) as int / 0x100_0000_0000)
    &&& forall|k: nat| #[trigger] after.draw(k) == before.draw(k + 1)
}

/// Whether a draw of a value below `n` gave `value`, and `after` is the
/// generator after it: the value is the interval, out of `n`, of the first draw
/// of `before` that is accepted. There is none where `n` is zero, or where no
/// draw is accepted in as many as there are 64-bit values.
pub open spec fn number_drawn<R: Rng>(before: R, n: u64, value: Option<u64>, after: R) -> bool {
    match value {
        Some(value) => n > 0 && exists|k: nat|
            {
                &&& k < RANGE
                &&& accepted(#[trigger] before.draw(k), n)
                &&& forall|j: nat| j < k ==> !accepted(#[trigger] before.draw(j), n)
                &&& value == interval(before.draw(k), n)
                &&& forall|j: nat| #[trigger] after.draw(j) == before.draw(k + 1 + j)
            },
        None => if n == 0 {
            after == before
        } else {
            &&& forall|j: nat| j < RANGE ==> !accepted(#[trigger] before.draw(j), n)
            &&& forall|j: nat| #[trigger] after.draw(j) == before.draw(RANGE as nat + j)
        },
    }
}

/// Whether `value` is what a draw of a value below `n` gave, or zero where it
/// gave none.
pub open spec fn drawn_or_zero<R: Rng>(before: R, n: u64, value: u64, after: R) -> bool {
    number_drawn(before, n, Some(value), after) || value == 0 && number_drawn(
        before,
        n,
        None,
        after,
    )
}

/// A source of pseudo-randomness for routing decisions.
pub trait Rng: Sized {
    /// The draw that comes after `k` others.
    spec fn draw(&self, k: nat) -> u64;

    /// Next raw 64-bit value.
    fn next_u64(&mut self) -> (r: u64)
        ensures
            r == old(self).draw(0),
            forall|k: nat| #[trigger] final(self).draw(k) == old(self).draw(k + 1),
    ;

    /// Next value uniformly distributed in `[0, 1)`.
    ///
    /// Built from the top 24 bits, so the result is exactly representable and
    /// never reaches one.
    fn next_f32(&mut self) -> (r: Scalar)
        ensures
            r.is_unit_fraction(old(self).draw(0) as int / 0x100_0000_0000),
            forall|k: nat| #[trigger] final(self).draw(k) == old(self).draw(k + 1),
            r.between(Scalar::from_bits(ZERO), Scalar::from_bits(ONE)),
            r.below(Scalar::from_bits(ONE)),
    {
        let x: u64 = self.next_u64();
        Scalar::unit_fraction((x / 0x100_0000_0000) as u32)
    }

    /// Uniform integer in `[0, n)`, or `None` when `n` is zero.
    ///
    /// Draws until one is accepted, so no value is more likely than another.
    /// `None` too where none is accepted in as many draws as there are 64-bit
    /// values.
    fn next_below(&mut self, n: u64) -> (r: Option<u64>)
        ensures
            match r {
                Some(value) => 0 <= value < n && exists|k: nat|
                    {
                        &&& k < RANGE
                        &&& accepted(#[trigger] old(self).draw(k), n)
                        &&& forall|j: nat| j < k ==> !accepted(#[trigger] old(self).draw(j), n)
                        &&& value == interval(old(self).draw(k), n)
                        &&& forall|j: nat| #[trigger]
                            final(self).draw(j) == old(self).draw(k + 1 + j)
                    },
                None => if n == 0 {
                    *final(self) == *old(self)
                } else {
                    &&& forall|j: nat| j < RANGE ==> !accepted(#[trigger] old(self).draw(j), n)
                    &&& forall|j: nat| #[trigger]
                        final(self).draw(j) == old(self).draw(RANGE as nat + j)
                },
            },
    {
        if n == 0 {
            return None;
        }
        let threshold: u64 = 0u64.wrapping_sub(n) % n;
        let ghost start = *self;
        let mut tried: u128 = 0;
        while tried < RANGE
            invariant
                n > 0,
                tried <= RANGE,
                start == *old(self),
                threshold == (RANGE - n) % n as int,
                forall|j: nat| j < tried ==> !accepted(#[trigger] start.draw(j), n),
                forall|j: nat| #[trigger] self.draw(j) == start.draw(tried as nat + j),
            decreases RANGE - tried,
        {
            let ghost before = *self;
            let x: u64 = self.next_u64();
            assert(x == start.draw(tried as nat)) by {
                assert(before.draw(0) == start.draw(tried as nat + 0));
            }
            proof {
                assert(0 <= x * n <= 0xFFFF_FFFF_FFFF_FFFF * 0xFFFF_FFFF_FFFF_FFFF)
                    by (nonlinear_arith)
                    requires
                        0 <= x <= 0xFFFF_FFFF_FFFF_FFFF,
                        0 <= n <= 0xFFFF_FFFF_FFFF_FFFF,
                ;
            }
            let m: u128 = x as u128 * n as u128;
            let low: u64 = (m % RANGE) as u64;
            assert forall|j: nat| #[trigger] self.draw(j) == start.draw(tried as nat + 1 + j) by {
                assert(self.draw(j) == before.draw(j + 1));
                assert(before.draw(j + 1) == start.draw(tried as nat + (j + 1)));
            }
            if low >= threshold {
                let high: u64 = (m / RANGE) as u64;
                assert(interval(x, n) < n) by (nonlinear_arith)
                    requires
                        0 <= x <= 0xFFFF_FFFF_FFFF_FFFF,
                        n > 0,
                        interval(x, n) == (x * n) / 0x1_0000_0000_0000_0000,
                ;
                assert(accepted(start.draw(tried as nat), n));
                return Some(high);
            }
            tried = tried + 1;
        }
        None
    }
}

/// The output that [`SplitMix64`] gives in the state `z`.
pub open spec fn mixed(z: u64) -> u64 {
    let a = (z ^ (z >> 30)).wrapping_mul(0xBF58_476D_1CE4_E5B9);
    let b = (a ^ (a >> 27)).wrapping_mul(0x94D0_49BB_1331_11EB);
    b ^ (b >> 31)
}

/// The state that is `n` increments after `state`.
pub open spec fn stepped(state: u64, n: int) -> u64 {
    ((state + n * GOLDEN_GAMMA) % RANGE as int) as u64
}

/// The number whose little-endian bytes are `bytes`.
pub open spec fn le_value(bytes: Seq<u8>) -> int
    decreases bytes.len(),
{
    if bytes.len() == 0 {
        0
    } else {
        bytes[0] + 256 * le_value(bytes.skip(1))
    }
}

/// `state` after the identity bytes have been folded in, eight at a time.
pub open spec fn absorbed(state: u64, bytes: Seq<u8>) -> u64
    decreases bytes.len(),
{
    if bytes.len() == 0 {
        state
    } else if bytes.len() < 8 {
        (state ^ (le_value(bytes) as u64)).wrapping_mul(GOLDEN_GAMMA)
    } else {
        absorbed(
            (state ^ (le_value(bytes.take(8)) as u64)).wrapping_mul(GOLDEN_GAMMA),
            bytes.skip(8),
        )
    }
}

/// SplitMix64: a small, fast, well-distributed generator with a full period.
#[derive(Debug)]
pub struct SplitMix64 {
    state: u64,
}

impl Clone for SplitMix64 {
    fn clone(&self) -> (r: Self)
        ensures
            r == *self,
    {
        SplitMix64 { state: self.state }
    }
}

impl View for SplitMix64 {
    type V = u64;

    closed spec fn view(&self) -> u64 {
        self.state
    }
}

/// The number that up to eight little-endian bytes make.
fn le_number(bytes: &[u8], from: usize, to: usize) -> (r: u64)
    requires
        from <= to <= bytes@.len(),
        to - from <= 8,
    ensures
        r == le_value(bytes@.subrange(from as int, to as int)),
{
    let mut value: u64 = 0;
    let mut at: usize = to;
    proof {
        vstd::arithmetic::power::lemma_pow0(256);
        assert(bytes@.subrange(to as int, to as int).len() == 0);
    }
    while from < at
        invariant
            from <= at <= to <= bytes@.len(),
            to - from <= 8,
            value == le_value(bytes@.subrange(at as int, to as int)),
            value < vstd::arithmetic::power::pow(256, (to - at) as nat),
        decreases at,
    {
        proof {
            vstd::arithmetic::power::lemma_pow_increases(256, (to - at) as nat, 7);
            assert(vstd::arithmetic::power::pow(256, 7) == 0x100_0000_0000_0000) by {
                reveal_with_fuel(vstd::arithmetic::power::pow, 8);
            }
            let rest = bytes@.subrange(at - 1, to as int);
            assert(rest.skip(1) =~= bytes@.subrange(at as int, to as int));
            reveal(vstd::arithmetic::power::pow);
        }
        at = at - 1;
        value = value * 256 + bytes[at] as u64;
    }
    value
}

impl SplitMix64 {
    /// Create a generator from an explicit seed.
    pub fn seeded(seed: u64) -> (r: SplitMix64)
        ensures
            r@ == seed,
    {
        SplitMix64 { state: seed }
    }

    /// Seed from a node identity and a timestamp.
    ///
    /// Two nodes that start at the same instant would otherwise explore
    /// identically.
    pub fn from_identity(node_id: &[u8], now_ns: u64) -> (r: SplitMix64)
        ensures
            r@ == absorbed(now_ns, node_id@),
    {
        let mut state: u64 = now_ns;
        let mut at: usize = 0;
        assert(node_id@.skip(0) =~= node_id@);
        while at < node_id.len()
            invariant
                at <= node_id@.len(),
                absorbed(state, node_id@.skip(at as int)) == absorbed(now_ns, node_id@),
            decreases node_id@.len() - at,
        {
            let ghost rest = node_id@.skip(at as int);
            let len: usize = if node_id.len() - at < 8 {
                node_id.len() - at
            } else {
                8
            };
            let chunk: u64 = le_number(node_id, at, at + len);
            proof {
                assert(rest.take(len as int) =~= node_id@.subrange(at as int, at + len));
                assert(rest.take(len as int).len() == len);
                if len < 8 {
                    assert(rest.take(len as int) =~= rest);
                }
                assert(rest.skip(len as int) =~= node_id@.skip(at + len));
            }
            state = (state ^ chunk).wrapping_mul(GOLDEN_GAMMA);
            at = at + len;
        }
        SplitMix64 { state }
    }
}

/// The number of steps, less one, from `state` to `target`.
spec fn steps_before(state: u64, target: u64) -> int {
    ((target - state) * 0xF1DE_83E1_9937_733D - 1) % RANGE as int
}

/// The increment is odd, so the states pass through every value.
proof fn lemma_reaches(state: u64, target: u64)
    ensures
        0 <= steps_before(state, target) < RANGE,
        stepped(state, steps_before(state, target) + 1) == target,
{
    let inverse = 0xF1DE_83E1_9937_733Dint;
    let gamma = GOLDEN_GAMMA as int;
    let range = RANGE as int;
    let d = target - state;
    let p = d * inverse;
    let a = steps_before(state, target);
    let m = (p - 1) / range;
    vstd::arithmetic::div_mod::lemma_fundamental_div_mod(p - 1, range);
    assert(gamma * inverse == 1 + 10771413168148108919 * range);
    let c = 10771413168148108919int;
    assert(p * gamma == d + (d * c) * range) by (nonlinear_arith)
        requires
            p == d * inverse,
            gamma * inverse == 1 + c * range,
    ;
    assert((a + 1) * gamma == p * gamma - (m * gamma) * range) by (nonlinear_arith)
        requires
            a + 1 == p - range * m,
    ;
    let q = d * c - m * gamma;
    assert((d * c) * range - (m * gamma) * range == q * range) by (nonlinear_arith)
        requires
            q == d * c - m * gamma,
    ;
    assert(state + (a + 1) * gamma == target + q * range);
    vstd::arithmetic::div_mod::lemma_mod_multiples_vanish(q, target as int, range);
    assert(q * range == range * q) by (nonlinear_arith);
}

/// One of the states gives the largest output.
proof fn lemma_largest_output()
    ensures
        mixed(0xCF9A_04AF_FA6B_ADC0) == u64::MAX,
{
    let t = 0xCF9A_04AF_FA6B_ADC0u64;
    assert(t ^ (t >> 30) == 0xCF9A_04AC_C403_BF7F) by (bit_vector)
        requires
            t == 0xCF9A_04AF_FA6B_ADC0u64,
    ;
    let a = (t ^ (t >> 30)).wrapping_mul(0xBF58_476D_1CE4_E5B9);
    assert(a == 0xF027_AA8C_721D_FDC7);
    assert(a ^ (a >> 27) == 0xF027_AA92_76E8_AC49) by (bit_vector)
        requires
            a == 0xF027_AA8C_721D_FDC7u64,
    ;
    let b = (a ^ (a >> 27)).wrapping_mul(0x94D0_49BB_1331_11EB);
    assert(b == 0xFFFF_FFFE_0000_0003);
    assert(b ^ (b >> 31) == 0xFFFF_FFFF_FFFF_FFFF) by (bit_vector)
        requires
            b == 0xFFFF_FFFE_0000_0003u64,
    ;
}

/// The largest draw is accepted for every bound.
proof fn lemma_largest_is_accepted(n: u64)
    requires
        n > 0,
    ensures
        accepted(u64::MAX, n),
{
    let range = RANGE as int;
    let m = n as int;
    assert(u64::MAX * n == (range - m) + range * (m - 1)) by (nonlinear_arith)
        requires
            m == n,
            range == 0x1_0000_0000_0000_0000,
            u64::MAX == range - 1,
    ;
    vstd::arithmetic::div_mod::lemma_mod_multiples_vanish(m - 1, range - m, range);
    vstd::arithmetic::div_mod::lemma_small_mod((range - m) as nat, range as nat);
    vstd::arithmetic::div_mod::lemma_mod_decreases((range - m) as nat, m as nat);
}

impl Rng for SplitMix64 {
    closed spec fn draw(&self, k: nat) -> u64 {
        mixed(stepped(self.state, k as int + 1))
    }

    fn next_u64(&mut self) -> (r: u64) {
        let ghost before = self.state;
        self.state = self.state.wrapping_add(GOLDEN_GAMMA);
        proof {
            let range = RANGE as int;
            let gamma = GOLDEN_GAMMA as int;
            assert(1int * gamma == gamma);
            assert(self.state == stepped(before, 1));
            assert forall|k: nat| #[trigger] self.draw(k) == old(self).draw(k + 1) by {
                let n = k as int + 1;
                vstd::arithmetic::div_mod::lemma_add_mod_noop(
                    before + gamma,
                    n * gamma,
                    range,
                );
                vstd::arithmetic::div_mod::lemma_add_mod_noop(
                    self.state as int,
                    n * gamma,
                    range,
                );
                vstd::arithmetic::div_mod::lemma_small_mod(self.state as nat, range as nat);
                assert((n + 1) * gamma == n * gamma + gamma) by (nonlinear_arith);
            }
        }
        let z: u64 = self.state;
        let a: u64 = (z ^ (z >> 30)).wrapping_mul(0xBF58_476D_1CE4_E5B9);
        let b: u64 = (a ^ (a >> 27)).wrapping_mul(0x94D0_49BB_1331_11EB);
        b ^ (b >> 31)
    }
}

/// The draws of a seeded [`SplitMix64`] are determined by the seed: the `k`-th
/// is the mix of the state `k + 1` increments on.
pub proof fn lemma_draws_follow_the_seed(g: SplitMix64, k: nat)
    ensures
        g.draw(k) == mixed(stepped(g@, k as int + 1)),
{
}

/// A [`SplitMix64`] gives a value below every bound but zero: its draws pass
/// through every 64-bit value.
pub proof fn lemma_a_number_is_always_drawn(g: SplitMix64, n: u64, after: SplitMix64)
    requires
        n > 0,
    ensures
        !number_drawn(g, n, None, after),
{
    lemma_reaches(g.state, 0xCF9A_04AF_FA6B_ADC0);
    lemma_largest_output();
    lemma_largest_is_accepted(n);
    let k = steps_before(g.state, 0xCF9A_04AF_FA6B_ADC0) as nat;
    assert(accepted(g.draw(k), n));
}

/// Multiples of a number that has an inverse are equal only where the numbers
/// are.
proof fn lemma_multiples_differ(x: int, y: int, factor: int, inverse: int, c: int)
    requires
        0 <= x < RANGE,
        0 <= y < RANGE,
        factor * inverse == 1 + c * RANGE as int,
        (x * factor) % RANGE as int == (y * factor) % RANGE as int,
    ensures
        x == y,
{
    let range = RANGE as int;
    let d = x - y;
    let p = (x * factor) / range;
    let q = (y * factor) / range;
    vstd::arithmetic::div_mod::lemma_fundamental_div_mod(x * factor, range);
    vstd::arithmetic::div_mod::lemma_fundamental_div_mod(y * factor, range);
    assert(d * factor == range * (p - q)) by (nonlinear_arith)
        requires
            d == x - y,
            x * factor - y * factor == range * p - range * q,
    ;
    let m = (p - q) * inverse - d * c;
    assert(d == range * m) by (nonlinear_arith)
        requires
            d * factor == range * (p - q),
            factor * inverse == 1 + c * range,
            m == (p - q) * inverse - d * c,
    {
        assert((d * factor) * inverse == (range * (p - q)) * inverse);
        assert((d * factor) * inverse == d * (factor * inverse));
        assert(d * (1 + c * range) == d + range * (d * c));
        assert((range * (p - q)) * inverse == range * ((p - q) * inverse));
    }
    assert(m == 0) by (nonlinear_arith)
        requires
            d == range * m,
            -range < d < range,
            range > 0,
    ;
    assert(range * 0 == 0);
}

/// Different states give different outputs.
proof fn lemma_mixed_differ(x: u64, y: u64)
    requires
        mixed(x) == mixed(y),
    ensures
        x == y,
{
    let p = x ^ (x >> 30);
    let q = y ^ (y >> 30);
    let a = p.wrapping_mul(0xBF58_476D_1CE4_E5B9);
    let b = q.wrapping_mul(0xBF58_476D_1CE4_E5B9);
    let m = a ^ (a >> 27);
    let n = b ^ (b >> 27);
    let g = m.wrapping_mul(0x94D0_49BB_1331_11EB);
    let h = n.wrapping_mul(0x94D0_49BB_1331_11EB);
    assert(g == h) by (bit_vector)
        requires
            g ^ (g >> 31) == h ^ (h >> 31),
    ;
    assert(0x94D0_49BB_1331_11EBint * 0x3196_42B2_D24D_8EC3int == 1 + 2077064247507883091int
        * RANGE as int);
    lemma_multiples_differ(
        m as int,
        n as int,
        0x94D0_49BB_1331_11EB,
        0x3196_42B2_D24D_8EC3,
        2077064247507883091,
    );
    assert(a == b) by (bit_vector)
        requires
            a ^ (a >> 27) == b ^ (b >> 27),
    ;
    assert(0xBF58_476D_1CE4_E5B9int * 0x96DE_1B17_3F11_9089int == 1 + 8125545580553827436int
        * RANGE as int);
    lemma_multiples_differ(
        p as int,
        q as int,
        0xBF58_476D_1CE4_E5B9,
        0x96DE_1B17_3F11_9089,
        8125545580553827436,
    );
    assert(x == y) by (bit_vector)
        requires
            x ^ (x >> 30) == y ^ (y >> 30),
    ;
}

/// Different numbers of increments give different states, as long as there are
/// fewer than there are states.
proof fn lemma_stepped_differ(state: u64, i: int, j: int)
    requires
        0 <= i < j,
        j - i < RANGE,
    ensures
        stepped(state, i) != stepped(state, j),
{
    let range = RANGE as int;
    let gamma = GOLDEN_GAMMA as int;
    if stepped(state, i) == stepped(state, j) {
        let p = state + i * gamma;
        let q = state + j * gamma;
        vstd::arithmetic::div_mod::lemma_mod_bound(p, range);
        vstd::arithmetic::div_mod::lemma_mod_bound(q, range);
        vstd::arithmetic::div_mod::lemma_sub_mod_noop(q, p, range);
        vstd::arithmetic::div_mod::lemma_small_mod(0, range as nat);
        assert(q - p == (j - i) * gamma) by (nonlinear_arith)
            requires
                p == state + i * gamma,
                q == state + j * gamma,
        ;
        assert(gamma * 0xF1DE_83E1_9937_733Dint == 1 + 10771413168148108919int * range);
        assert(0int * gamma == 0);
        lemma_multiples_differ(
            j - i,
            0,
            gamma,
            0xF1DE_83E1_9937_733D,
            10771413168148108919,
        );
    }
}

/// Different seeds differ in their first draw, and so in every draw.
pub proof fn lemma_draws_tell_seeds_apart(a: SplitMix64, b: SplitMix64, k: nat)
    ensures
        a.draw(k) == b.draw(k) <==> a@ == b@,
{
    let range = RANGE as int;
    let gamma = GOLDEN_GAMMA as int;
    let n = k as int + 1;
    if a.draw(k) == b.draw(k) {
        lemma_mixed_differ(stepped(a.state, n), stepped(b.state, n));
        let p = a.state + n * gamma;
        let q = b.state + n * gamma;
        vstd::arithmetic::div_mod::lemma_mod_bound(p, range);
        vstd::arithmetic::div_mod::lemma_mod_bound(q, range);
        vstd::arithmetic::div_mod::lemma_sub_mod_noop(p, n * gamma, range);
        vstd::arithmetic::div_mod::lemma_sub_mod_noop(q, n * gamma, range);
        vstd::arithmetic::div_mod::lemma_small_mod(a.state as nat, range as nat);
        vstd::arithmetic::div_mod::lemma_small_mod(b.state as nat, range as nat);
    }
}

/// The period is full: no two of as many successive draws as there are 64-bit
/// values are equal.
pub proof fn lemma_the_period_is_full(g: SplitMix64, i: nat, j: nat)
    requires
        i < j,
        j - i < RANGE,
    ensures
        g.draw(i) != g.draw(j),
{
    lemma_stepped_differ(g.state, i as int + 1, j as int + 1);
    if g.draw(i) == g.draw(j) {
        lemma_mixed_differ(stepped(g.state, i as int + 1), stepped(g.state, j as int + 1));
    }
}

/// Up to eight bytes make a 64-bit value.
proof fn lemma_le_value_bound(bytes: Seq<u8>)
    requires
        bytes.len() <= 8,
    ensures
        0 <= le_value(bytes) < vstd::arithmetic::power::pow(256, bytes.len()),
        le_value(bytes) < RANGE,
    decreases bytes.len(),
{
    vstd::arithmetic::power::lemma_pow0(256);
    if bytes.len() > 0 {
        lemma_le_value_bound(bytes.skip(1));
        reveal(vstd::arithmetic::power::pow);
    }
    vstd::arithmetic::power::lemma_pow_increases(256, bytes.len(), 8);
    assert(vstd::arithmetic::power::pow(256, 8) == 0x1_0000_0000_0000_0000) by {
        reveal_with_fuel(vstd::arithmetic::power::pow, 9);
    }
}

/// Different bytes of one length make different numbers.
proof fn lemma_le_value_differ(a: Seq<u8>, b: Seq<u8>)
    requires
        a.len() == b.len(),
        le_value(a) == le_value(b),
    ensures
        a == b,
    decreases a.len(),
{
    if a.len() > 0 {
        let p = le_value(a.skip(1));
        let q = le_value(b.skip(1));
        assert(a[0] + 256 * p == b[0] + 256 * q);
        assert(a[0] == b[0] && p == q);
        lemma_le_value_differ(a.skip(1), b.skip(1));
        assert(a =~= seq![a[0]] + a.skip(1));
        assert(b =~= seq![b[0]] + b.skip(1));
    } else {
        assert(a =~= b);
    }
}

/// Zero bytes at the end do not change a number.
proof fn lemma_le_value_padded(bytes: Seq<u8>, zeros: nat)
    ensures
        le_value(bytes + Seq::new(zeros, |i: int| 0u8)) == le_value(bytes),
    decreases bytes.len() + zeros,
{
    let padding = Seq::new(zeros, |i: int| 0u8);
    let whole = bytes + padding;
    if bytes.len() > 0 {
        lemma_le_value_padded(bytes.skip(1), zeros);
        assert(whole.skip(1) =~= bytes.skip(1) + padding);
    } else if zeros > 0 {
        lemma_le_value_padded(bytes, (zeros - 1) as nat);
        assert(whole.skip(1) =~= bytes + Seq::new((zeros - 1) as nat, |i: int| 0u8));
    } else {
        assert(whole =~= bytes);
    }
}

/// One step of folding in tells apart what goes in.
proof fn lemma_folding_differs(s: u64, t: u64, x: u64, y: u64)
    requires
        (s ^ x).wrapping_mul(GOLDEN_GAMMA) == (t ^ y).wrapping_mul(GOLDEN_GAMMA),
        s == t || x == y,
    ensures
        s == t,
        x == y,
{
    let p = s ^ x;
    let q = t ^ y;
    assert(GOLDEN_GAMMA as int * 0xF1DE_83E1_9937_733Dint == 1 + 10771413168148108919int
        * RANGE as int);
    lemma_multiples_differ(
        p as int,
        q as int,
        GOLDEN_GAMMA as int,
        0xF1DE_83E1_9937_733D,
        10771413168148108919,
    );
    assert(s == t && x == y) by (bit_vector)
        requires
            s ^ x == t ^ y,
            s == t || x == y,
    ;
}

/// Folding in the same bytes keeps different states apart.
proof fn lemma_absorbing_keeps_apart(s: u64, t: u64, bytes: Seq<u8>)
    requires
        absorbed(s, bytes) == absorbed(t, bytes),
    ensures
        s == t,
    decreases bytes.len(),
{
    if bytes.len() >= 8 {
        let x = le_value(bytes.take(8)) as u64;
        lemma_absorbing_keeps_apart(
            (s ^ x).wrapping_mul(GOLDEN_GAMMA),
            (t ^ x).wrapping_mul(GOLDEN_GAMMA),
            bytes.skip(8),
        );
        lemma_folding_differs(s, t, x, x);
    } else if bytes.len() > 0 {
        let x = le_value(bytes) as u64;
        lemma_folding_differs(s, t, x, x);
    }
}

/// Identities of one length that differ within one group of eight bytes seed
/// different generators at one instant, whose every draw differs.
pub proof fn lemma_identities_seed_apart(
    a: Seq<u8>,
    b: Seq<u8>,
    from: int,
    now_ns: u64,
    g: SplitMix64,
    h: SplitMix64,
    k: nat,
)
    requires
        a.len() == b.len(),
        a != b,
        0 <= from,
        from % 8 == 0,
        forall|i: int| 0 <= i < a.len() && !(from <= i < from + 8) ==> a[i] == b[i],
        g@ == absorbed(now_ns, a),
        h@ == absorbed(now_ns, b),
    ensures
        g@ != h@,
        g.draw(k) != h.draw(k),
{
    lemma_absorbed_differ(a, b, from, now_ns);
    lemma_draws_tell_seeds_apart(g, h, k);
}

/// Bytes that differ within one group of eight are folded into different
/// states.
proof fn lemma_absorbed_differ(a: Seq<u8>, b: Seq<u8>, from: int, state: u64)
    requires
        a.len() == b.len(),
        a != b,
        0 <= from,
        from % 8 == 0,
        forall|i: int| 0 <= i < a.len() && !(from <= i < from + 8) ==> a[i] == b[i],
    ensures
        absorbed(state, a) != absorbed(state, b),
    decreases a.len(),
{
    if a.len() == 0 {
        assert(a =~= b);
    } else if a.len() < 8 {
        lemma_le_value_bound(a);
        lemma_le_value_bound(b);
        if absorbed(state, a) == absorbed(state, b) {
            lemma_folding_differs(state, state, le_value(a) as u64, le_value(b) as u64);
            lemma_le_value_differ(a, b);
        }
    } else {
        let x = le_value(a.take(8)) as u64;
        let y = le_value(b.take(8)) as u64;
        lemma_le_value_bound(a.take(8));
        lemma_le_value_bound(b.take(8));
        if from == 0 {
            assert(a.skip(8) =~= b.skip(8));
            if absorbed(state, a) == absorbed(state, b) {
                lemma_absorbing_keeps_apart(
                    (state ^ x).wrapping_mul(GOLDEN_GAMMA),
                    (state ^ y).wrapping_mul(GOLDEN_GAMMA),
                    a.skip(8),
                );
                lemma_folding_differs(state, state, x, y);
                lemma_le_value_differ(a.take(8), b.take(8));
                assert(a =~= a.take(8) + a.skip(8));
                assert(b =~= b.take(8) + b.skip(8));
            }
        } else {
            assert(a.take(8) =~= b.take(8));
            if a.skip(8) == b.skip(8) {
                assert(a =~= a.take(8) + a.skip(8));
                assert(b =~= b.take(8) + b.skip(8));
            }
            lemma_absorbed_differ(
                a.skip(8),
                b.skip(8),
                from - 8,
                (state ^ x).wrapping_mul(GOLDEN_GAMMA),
            );
        }
    }
}

/// Zero bytes that fill a group of eight change nothing.
proof fn lemma_group_padded(bytes: Seq<u8>, zeros: nat, state: u64)
    requires
        0 < bytes.len(),
        bytes.len() + zeros <= 8,
        bytes.len() < 8,
    ensures
        absorbed(state, bytes + Seq::new(zeros, |i: int| 0u8)) == absorbed(state, bytes),
{
    let whole = bytes + Seq::new(zeros, |i: int| 0u8);
    lemma_le_value_padded(bytes, zeros);
    let next = (state ^ (le_value(bytes) as u64)).wrapping_mul(GOLDEN_GAMMA);
    assert(absorbed(state, bytes) == next);
    if whole.len() == 8 {
        assert(whole.take(8) =~= whole);
        let rest = whole.skip(8);
        assert(rest.len() == 0);
        assert(absorbed(next, rest) == next);
    }
}

/// An empty identity leaves the seed to the instant, and zero bytes that fill
/// the last group of eight change nothing.
pub proof fn lemma_padding_seeds_the_same(bytes: Seq<u8>, zeros: nat, now_ns: u64)
    requires
        bytes.len() % 8 > 0,
        zeros <= 8 - bytes.len() % 8,
    ensures
        absorbed(now_ns, Seq::empty()) == now_ns,
        absorbed(now_ns, bytes + Seq::new(zeros, |i: int| 0u8)) == absorbed(now_ns, bytes),
    decreases bytes.len(),
{
    let padding = Seq::new(zeros, |i: int| 0u8);
    let whole = bytes + padding;
    if bytes.len() < 8 {
        lemma_group_padded(bytes, zeros, now_ns);
    } else {
        let x = le_value(bytes.take(8)) as u64;
        let next = (now_ns ^ x).wrapping_mul(GOLDEN_GAMMA);
        assert(whole.take(8) =~= bytes.take(8));
        assert(whole.skip(8) =~= bytes.skip(8) + padding);
        assert(absorbed(now_ns, bytes) == absorbed(next, bytes.skip(8)));
        assert(absorbed(now_ns, whole) == absorbed(next, whole.skip(8)));
        lemma_padding_seeds_the_same(bytes.skip(8), zeros, next);
    }
}

/// A generator that returns a fixed sequence.
///
/// Values are consumed in order and then repeat.
#[derive(Debug)]
pub struct FixedRng {
    values: Vec<u64>,
    cursor: usize,
}

impl Clone for FixedRng {
    fn clone(&self) -> (r: Self)
        ensures
            r.values() == self.values(),
            r.cursor() == self.cursor(),
    {
        FixedRng { values: self.values.clone(), cursor: self.cursor }
    }
}

impl FixedRng {
    /// The values, from the next one on.
    pub closed spec fn values(&self) -> Seq<u64> {
        self.values@
    }

    /// Where in the values the next draw stands.
    pub closed spec fn cursor(&self) -> nat {
        self.cursor as nat
    }

    /// Build from raw 64-bit values.
    pub fn new(values: Vec<u64>) -> (r: FixedRng)
        requires
            values@.len() > 0,
        ensures
            r.values() == values@,
            r.cursor() == 0,
    {
        FixedRng { values, cursor: 0 }
    }

    /// Build from values in `[0, 1)`: the draws whose fractions are the given
    /// values, rounded down to the 24 bits that a fraction holds.
    pub fn from_f32s(values: &[Scalar]) -> (r: FixedRng)
        requires
            values@.len() > 0,
        ensures
            r.values().len() == values@.len(),
            r.cursor() == 0,
            forall|i: int|
                0 <= i < values@.len() ==> #[trigger] r.values()[i] == top_bits_of(values@[i])
                    * 0x100_0000_0000,
    {
        let mut out: Vec<u64> = Vec::new();
        let mut i: usize = 0;
        while i < values.len()
            invariant
                i <= values@.len(),
                out@.len() == i,
                forall|j: int|
                    0 <= j < i ==> #[trigger] out@[j] == top_bits_of(values@[j]) * 0x100_0000_0000,
            decreases values@.len() - i,
        {
            let clamped = values[i].clamp(Scalar::from_bits(ZERO), Scalar::from_bits(ALMOST_ONE));
            let top: u32 = top_bits(clamped);
            out.push(top as u64 * 0x100_0000_0000);
            i = i + 1;
        }
        FixedRng { values: out, cursor: 0 }
    }
}

/// The 24-bit fraction of a value, after the value has been limited to the
/// unit interval; a NaN has none and counts as zero.
pub open spec fn top_bits_of(value: Scalar) -> int {
    floor_24(value.clamped(Scalar::from_bits(ZERO), Scalar::from_bits(ALMOST_ONE)))
}

/// The largest `k` for which `k / 2^24` is at most `value`, for a value in the
/// unit interval; zero for a NaN.
pub open spec fn floor_24(value: Scalar) -> int {
    let exponent = value.bits as int / HIDDEN_BIT as int;
    let significand = HIDDEN_BIT + value.bits as int % HIDDEN_BIT as int;
    if value.nan() || value.rank() <= 0 || exponent == 0 {
        0
    } else {
        significand / (vstd::arithmetic::power2::pow2((126 - exponent) as nat) as int)
    }
}

/// Computes [`floor_24`].
fn top_bits(value: Scalar) -> (r: u32)
    requires
        value.nan() || value.rank() <= ALMOST_ONE,
    ensures
        r == floor_24(value),
        r < 0x0100_0000,
{
    if value.is_nan() || !Scalar::from_bits(ZERO).lt(value) {
        return 0;
    }
    let exponent: u32 = value.bits / HIDDEN_BIT;
    let significand: u32 = HIDDEN_BIT + value.bits % HIDDEN_BIT;
    if exponent == 0 {
        return 0;
    }
    let shift: u32 = 126 - exponent;
    if shift >= 24 {
        proof {
            vstd::arithmetic::power2::lemma2_to64();
            if shift > 24 {
                vstd::arithmetic::power2::lemma_pow2_strictly_increases(24, shift as nat);
            }
            vstd::arithmetic::div_mod::lemma_basic_div(
                significand as int,
                vstd::arithmetic::power2::pow2(shift as nat) as int,
            );
        }
        return 0;
    }
    proof {
        vstd::bits::lemma_u32_shr_is_div(significand, shift);
        vstd::arithmetic::power2::lemma_pow2_pos(shift as nat);
        vstd::arithmetic::div_mod::lemma_div_is_ordered_by_denominator(
            significand as int,
            1,
            vstd::arithmetic::power2::pow2(shift as nat) as int,
        );
    }
    significand >> shift
}

impl Rng for FixedRng {
    open spec fn draw(&self, k: nat) -> u64 {
        let len = self.values().len();
        if len == 0 {
            0
        } else {
            self.values()[((self.cursor() % len + k) % len) as int]
        }
    }

    fn next_u64(&mut self) -> (r: u64) {
        if self.values.len() == 0 {
            return 0;
        }
        let len: usize = self.values.len();
        let at: usize = self.cursor % len;
        let value: u64 = self.values[at];
        self.cursor = if at + 1 == len {
            0
        } else {
            at + 1
        };
        proof {
            vstd::arithmetic::div_mod::lemma_small_mod(at as nat, len as nat);
            vstd::arithmetic::div_mod::lemma_small_mod(self.cursor as nat, len as nat);
            assert(self.values() == old(self).values());
            assert forall|k: nat| #[trigger] self.draw(k) == old(self).draw(k + 1) by {
                if at + 1 == len {
                    vstd::arithmetic::div_mod::lemma_mod_add_multiples_vanish(
                        k as int,
                        len as int,
                    );
                }
            }
        }
        value
    }
}

} // verus!
