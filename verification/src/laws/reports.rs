//! Laws of reports: what the ratios and the percentages are, and when a report
//! warns.

use vstd::arithmetic::power2::{
    lemma2_to64, lemma2_to64_rest, lemma_pow2_adds, lemma_pow2_pos, pow2,
};
use vstd::prelude::*;

use crate::arith::{
    lemma_nearest_exists, lemma_rounding_error, lemma_units_of_one, rounded, unit_scale, units,
};
use crate::cli::{percent, ModelStatus, EIGHTY, HUNDRED};
use crate::laws::lifecycle::lemma_a_part_of_a_whole;
use crate::laws::orders::{
    lemma_exact_order, lemma_least_normal, lemma_products_keep_order, lemma_units_order,
};
use crate::node::LearningHealth;
use crate::scalar::{Scalar, HIDDEN_BIT, ONE, ZERO};
use crate::store::{JournalRow, Outcome, SynapseRow};
use crate::synapse::SynapseState;

verus! {

/// The patterns of a hundred and of eighty.
proof fn lemma_hundred_and_eighty()
    ensures
        Scalar::from_bits(HUNDRED).exact() == 100 * unit_scale(),
        Scalar::from_bits(EIGHTY).exact() == 80 * unit_scale(),
{
    lemma2_to64();
    lemma_pow2_adds(17, 132);
    assert(HUNDRED as int == 133 * HIDDEN_BIT + 0x48_0000);
    assert(EIGHTY as int == 133 * HIDDEN_BIT + 0x20_0000);
    let g = pow2(132) as int;
    assert(Scalar::from_bits(HUNDRED).exact() == 0xC8_0000 * g);
    assert(Scalar::from_bits(EIGHTY).exact() == 0xA0_0000 * g);
    assert(unit_scale() == 0x2_0000 * g);
}

/// A percentage is what a part is of a hundred parts of the whole, within a few
/// parts in `2^24`.
pub proof fn lemma_a_percentage(part: int, whole: int)
    requires
        0 < part <= whole <= u64::MAX,
    ensures
        ({
            let p = percent(part, whole);
            &&& p.finite()
            &&& !p.negative()
            &&& 0x100_0000 * (whole * p.exact()) <= 0x100_0010 * ((100 * part) * unit_scale())
            &&& 0xFF_FFF0 * ((100 * part) * unit_scale()) <= 0x100_0000 * (whole * p.exact())
        }),
{
    let e: int = 0x100_0000;
    let d = unit_scale();
    let one = Scalar::from_bits(ONE);
    let hundred = Scalar::from_bits(HUNDRED);
    let share = Scalar::natural(part).quotient(Scalar::natural(whole));
    let q = share.exact();
    let p = percent(part, whole);
    lemma_pow2_pos(149);
    lemma_units_of_one();
    lemma_hundred_and_eighty();
    assert(units(0) == 0);
    lemma_a_part_of_a_whole(part, whole);
    // The percentage is a normal number.
    lemma2_to64();
    lemma2_to64_rest();
    lemma_pow2_adds(65, 84);
    lemma_pow2_adds(24, 60);
    lemma_pow2_pos(84);
    lemma_pow2_pos(60);
    lemma_pow2_adds(64, 1);
    assert(q >= pow2(84)) by (nonlinear_arith)
        requires
            (e - 8) * (part * d) <= e * (whole * q),
            part >= 1,
            whole <= 0xFFFF_FFFF_FFFF_FFFF,
            d == pow2(65) * pow2(84),
            pow2(65) == 0x1_0000_0000_0000_0000 * 2,
            pow2(84) >= 1,
            q > 0,
            e == 0x100_0000,
    {
        let g = pow2(84) as int;
        assert(d <= part * d);
        assert((e - 8) * d <= e * (whole * q));
        assert(e * d <= 2 * ((e - 8) * d));
        assert(d <= 2 * (whole * q));
        assert(whole * q <= 0xFFFF_FFFF_FFFF_FFFF * q);
        if q < g {
            assert(0xFFFF_FFFF_FFFF_FFFF * q < 0x1_0000_0000_0000_0000 * g);
        }
    }
    lemma_least_normal();
    assert(units(HIDDEN_BIT as int) == HIDDEN_BIT);
    if share.magnitude() < HIDDEN_BIT {
        lemma_units_order(share.magnitude(), HIDDEN_BIT as int);
    }
    lemma_exact_order(one, hundred);
    lemma_products_keep_order(share, share, one, hundred);
    lemma_products_keep_order(share, one, hundred, hundred);
    let num = q * hundred.exact();
    assert(share.product(one) == share) by {
        crate::arith::lemma_rounding_is_exact(share.magnitude(), d);
    }
    assert(one.product(hundred) == hundred) by {
        crate::arith::lemma_rounding_is_exact(hundred.magnitude(), d);
        let x = hundred.exact();
        assert(d * x == x * d) by (nonlinear_arith);
    }
    assert(0 <= num) by (nonlinear_arith)
        requires
            num == q * hundred.exact(),
            0 < q,
            0 < hundred.exact(),
    ;
    lemma_nearest_exists(num, d);
    assert(p.magnitude() == rounded(num, d));
    lemma_rounding_error(num, d);
    let r = p.exact();
    assert(e * (100 * q) <= (e + 1) * r && (e - 1) * r <= e * (100 * q)) by (nonlinear_arith)
        requires
            e * num <= (e + 1) * (d * r),
            (e - 1) * (d * r) <= e * num,
            num == q * (100 * d),
            0 < d,
    {
        assert((e * (100 * q)) * d <= ((e + 1) * r) * d);
        assert(((e - 1) * r) * d <= (e * (100 * q)) * d);
    }
    assert(e * (whole * r) <= (e + 16) * ((100 * part) * d) && (e - 16) * ((100 * part) * d) <= e * (whole
        * r)) by (nonlinear_arith)
        requires
            e * (100 * q) <= (e + 1) * r,
            (e - 1) * r <= e * (100 * q),
            e * (whole * q) <= (e + 8) * (part * d),
            (e - 8) * (part * d) <= e * (whole * q),
            0 < whole,
            0 < part,
            0 < d,
            0 <= r,
            e == 0x100_0000,
    {
        let wr = whole * r;
        let wq = whole * q;
        let pd = part * d;
        assert(e * (100 * wq) <= (e + 1) * wr) by {
            assert(whole * (e * (100 * q)) <= whole * ((e + 1) * r));
        }
        assert((e - 1) * wr <= e * (100 * wq)) by {
            assert(whole * ((e - 1) * r) <= whole * (e * (100 * q)));
        }
        assert(0 <= pd && 0 <= wr);
        assert(100 * ((e - 8) * pd) <= (e + 1) * wr);
        assert((e - 1) * wr <= 100 * ((e + 8) * pd));
        assert((100 * part) * d == 100 * pd);
    }
}

/// A report warns that no receipts arrive where more than eight in ten decisions
/// are pending, and does not where fewer are, a few parts in `2^24` aside.
pub proof fn lemma_when_receipts_are_missing(recent: Seq<JournalRow>, synapses: Seq<SynapseRow>)
    requires
        recent.len() <= u64::MAX,
    ensures
        ({
            let status = ModelStatus::of(recent, synapses);
            let pending = recent.filter(|e: JournalRow| e.outcome is Pending).len() as int;
            let total = recent.len() as int;
            &&& status.without_receipts ==> total > 0
            &&& total > 0 && pending <= total && 0xFF_FFF0 * (100 * pending) > 0x100_0000 * (80 * total)
                ==> status.without_receipts
            &&& total > 0 && 0 < pending <= total && 0x100_0010 * (100 * pending) <= 0x100_0000 * (80
                * total) ==> !status.without_receipts
        }),
{
    let pending = recent.filter(|e: JournalRow| e.outcome is Pending).len() as int;
    let total = recent.len() as int;
    let e: int = 0x100_0000;
    let d = unit_scale();
    if total > 0 && 0 < pending <= total {
        lemma_pow2_pos(149);
        lemma_hundred_and_eighty();
        lemma_a_percentage(pending, total);
        let p = percent(pending, total);
        let r = p.exact();
        lemma_exact_order(Scalar::from_bits(EIGHTY), p);
        if (e - 16) * (100 * pending) > e * (80 * total) {
            assert(r > 80 * d) by (nonlinear_arith)
                requires
                    (e - 16) * ((100 * pending) * d) <= e * (total * r),
                    (e - 16) * (100 * pending) > e * (80 * total),
                    0 < total,
                    0 < d,
                    e == 0x100_0000,
            {
                assert(((e - 16) * (100 * pending)) * d > (e * (80 * total)) * d);
                assert(((e - 16) * (100 * pending)) * d == (e - 16) * ((100 * pending) * d));
                assert((e * (80 * total)) * d == e * (total * (80 * d)));
                assert(total * (80 * d) < total * r);
            }
        }
        if (e + 16) * (100 * pending) <= e * (80 * total) {
            assert(r <= 80 * d) by (nonlinear_arith)
                requires
                    e * (total * r) <= (e + 16) * ((100 * pending) * d),
                    (e + 16) * (100 * pending) <= e * (80 * total),
                    0 < total,
                    0 < d,
                    e == 0x100_0000,
            {
                assert(((e + 16) * (100 * pending)) * d <= (e * (80 * total)) * d);
                assert(((e + 16) * (100 * pending)) * d == (e + 16) * ((100 * pending) * d));
                assert((e * (80 * total)) * d == e * (total * (80 * d)));
                assert(total * r <= total * (80 * d));
            }
        }
    }
}

/// A report counts what it says: the synapses that may carry, the decisions that
/// were delivered, explored or are pending. It says that learning stopped where
/// decisions were made, none of them by exploration, with more than one synapse
/// to choose from.
pub proof fn lemma_what_a_report_says(recent: Seq<JournalRow>, synapses: Seq<SynapseRow>)
    requires
        recent.len() <= usize::MAX,
        synapses.len() <= usize::MAX,
    ensures
        ({
            let status = ModelStatus::of(recent, synapses);
            let delivered = recent.filter(|e: JournalRow| e.outcome == Outcome::Delivered).len();
            let explored = recent.filter(|e: JournalRow| e.explored).len();
            let pending = recent.filter(|e: JournalRow| e.outcome == Outcome::Pending).len();
            let eligible = synapses.filter(
                |s: SynapseRow| s.state == SynapseState::Active || s.state == SynapseState::Weakening,
            ).len();
            &&& status.sampled == recent.len()
            &&& status.eligible == eligible
            &&& status.delivered == percent(delivered as int, recent.len() as int)
            &&& status.explored == percent(explored as int, recent.len() as int)
            &&& status.pending == percent(pending as int, recent.len() as int)
            &&& status.stopped_learning <==> recent.len() > 0 && eligible >= 2 && explored == 0
        }),
{
    let eligible = synapses.filter(
        |s: SynapseRow| s.state == SynapseState::Active || s.state == SynapseState::Weakening,
    );
    lemma_same_count(
        recent,
        |e: JournalRow| e.outcome == Outcome::Delivered,
        |e: JournalRow| e.outcome is Delivered,
    );
    lemma_same_count(
        recent,
        |e: JournalRow| e.outcome == Outcome::Pending,
        |e: JournalRow| e.outcome is Pending,
    );
    lemma_same_count(
        synapses,
        |s: SynapseRow| s.state == SynapseState::Active || s.state == SynapseState::Weakening,
        |s: SynapseRow| s.state.carries(),
    );
    synapses.lemma_filter_len(|s: SynapseRow| s.state.carries());
}

/// Two tests that agree leave as many.
proof fn lemma_same_count<A>(list: Seq<A>, f: spec_fn(A) -> bool, g: spec_fn(A) -> bool)
    requires
        forall|a: A| #[trigger] f(a) == g(a),
    ensures
        list.filter(f).len() == list.filter(g).len(),
    decreases list.len(),
{
    reveal(Seq::filter);
    if list.len() > 0 {
        lemma_same_count(list.drop_last(), f, g);
    }
}

/// The summary of decisions gives the part of them that were explored, that are
/// pending and that were delivered, and nothing where there are none.
pub proof fn lemma_what_a_summary_says(recent: Seq<JournalRow>)
    requires
        0 < recent.len() <= usize::MAX,
    ensures
        ({
            let health = LearningHealth::of(recent);
            let total = recent.len() as int;
            let explored = recent.filter(|e: JournalRow| e.explored).len() as int;
            let pending = recent.filter(|e: JournalRow| e.outcome is Pending).len() as int;
            let delivered = recent.filter(|e: JournalRow| e.outcome is Delivered).len() as int;
            &&& health.decisions_sampled == total
            &&& is_part(health.exploration_ratio, explored, total)
            &&& is_part(health.pending_ratio, pending, total)
            &&& is_part(health.delivery_ratio, delivered, total)
        }),
        LearningHealth::of(Seq::empty()).decisions_sampled == 0,
        LearningHealth::of(Seq::empty()).delivery_ratio == Scalar::from_bits(ZERO),
{
    let explored = |e: JournalRow| e.explored;
    let pending = |e: JournalRow| e.outcome is Pending;
    let delivered = |e: JournalRow| e.outcome is Delivered;
    recent.lemma_filter_len(explored);
    recent.lemma_filter_len(pending);
    recent.lemma_filter_len(delivered);
    let total = recent.len() as int;
    lemma_a_part_of_a_whole(recent.filter(explored).len() as int, total);
    lemma_a_part_of_a_whole(recent.filter(pending).len() as int, total);
    lemma_a_part_of_a_whole(recent.filter(delivered).len() as int, total);
}

/// Whether a ratio is a part of a whole, within a few parts in `2^24`.
pub open spec fn is_part(ratio: Scalar, part: int, whole: int) -> bool {
    &&& part == 0 ==> ratio == Scalar::from_bits(ZERO)
    &&& part > 0 ==> !ratio.negative() && ratio.finite()
    &&& part > 0 ==> 0x100_0000 * (whole * ratio.exact()) <= 0x100_0008 * (part * unit_scale())
    &&& part > 0 ==> 0xFF_FFF8 * (part * unit_scale()) <= 0x100_0000 * (whole * ratio.exact())
}

} // verus!
