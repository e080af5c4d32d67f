//! Laws of delivery: receipts, and how a sender retries.

use vstd::arithmetic::power2::{lemma2_to64, lemma_pow2_unfold, pow2};
use vstd::prelude::*;

use crate::delivery::{Receipt, ReceiptStatus, RejectReason, RetryPolicy};
use crate::signal::SignalId;
use crate::store::Outcome;

verus! {

/// Backing off grows: each attempt is drawn from an interval at least as long
/// as the one before, twice as long until the cap, which no interval passes.
/// The first wait is drawn from the base.
pub proof fn lemma_backing_off_doubles(policy: RetryPolicy, attempt: u32)
    requires
        2 <= attempt < 33,
        1 <= policy.base_ms,
        1 <= policy.cap_ms,
    ensures
        policy.ceiling(attempt) <= policy.ceiling((attempt + 1) as u32),
        policy.ceiling(attempt) <= policy.cap_ms,
        attempt < 32 && 2 * policy.ceiling(attempt) <= policy.cap_ms ==> policy.ceiling(
            (attempt + 1) as u32,
        ) == 2 * policy.ceiling(attempt),
        policy.base_ms <= policy.cap_ms ==> policy.ceiling(2) == policy.base_ms,
        policy.cap_ms < policy.base_ms ==> policy.ceiling(2) == policy.cap_ms,
{
    let k = (attempt - 2) as nat;
    lemma2_to64();
    lemma_pow2_unfold((k + 1) as nat);
    let p = pow2(k) as int;
    assert(p >= 1) by {
        vstd::arithmetic::power2::lemma_pow2_pos(k);
    }
    assert(policy.base_ms * (2 * p) == 2 * (policy.base_ms * p)) by (nonlinear_arith);
    assert(policy.base_ms <= policy.base_ms * p) by (nonlinear_arith)
        requires
            1 <= policy.base_ms,
            1 <= p,
    ;
    assert(pow2(0) == 1);
    assert(policy.base_ms * 1 == policy.base_ms);
    assert(policy.ceiling(2) == policy.ceiling(2u32));
}

/// From the thirty-third attempt on the interval stays as it is, and every
/// interval has room for at least one wait.
pub proof fn lemma_backing_off_levels_out(policy: RetryPolicy, attempt: u32)
    ensures
        33 <= attempt ==> policy.ceiling(attempt) == policy.ceiling(33),
        policy.ceiling(attempt) >= 1,
        policy.ceiling(attempt) <= policy.cap_ms || policy.cap_ms == 0,
{
}

/// When a sender tries again: while attempts and time are left, and only after a
/// rejection that may pass. More attempts made, or more time gone, never turn a
/// stop into another try.
pub proof fn lemma_when_a_sender_retries(
    policy: RetryPolicy,
    attempts: u32,
    elapsed_secs: u64,
    reason: Option<RejectReason>,
    again: bool,
)
    requires
        call_ensures(RetryPolicy::should_retry, (&policy, attempts, elapsed_secs, reason), again),
    ensures
        policy.max_attempts <= attempts ==> !again,
        policy.total_deadline_secs <= elapsed_secs ==> !again,
        attempts < policy.max_attempts && elapsed_secs < policy.total_deadline_secs && reason is None
            ==> again,
        reason == Some(RejectReason::TtlExhausted) || reason == Some(RejectReason::UnsupportedType)
            || reason == Some(RejectReason::Refused) ==> !again,
        attempts < policy.max_attempts && elapsed_secs < policy.total_deadline_secs && (reason
            == Some(RejectReason::NoRoute) || reason == Some(RejectReason::QueueFull) || reason
            == Some(RejectReason::BelowThreshold) || reason == Some(RejectReason::TransportFailure))
            ==> again,
{
}

/// The reasons of a rejection are told apart by their texts.
pub proof fn lemma_reasons_are_told_apart(a: RejectReason, b: RejectReason)
    ensures
        a.text() == b.text() ==> a == b,
{
    reveal_strlit("below_threshold");
    reveal_strlit("ttl_exhausted");
    reveal_strlit("no_route");
    reveal_strlit("queue_full");
    reveal_strlit("unsupported_type");
    reveal_strlit("refused");
    reveal_strlit("transport_failure");
    let x = a.text();
    let y = b.text();
    if x == y {
        assert(x.len() == y.len());
        assert(x[0] == y[0]);
    }
}

/// A receipt resolves a decision to what it reports: a delivery to a delivery, a
/// rejection, whatever its reason, to a rejection. It names the signal that it
/// answers and the hops.
pub proof fn lemma_a_receipt_reports_what_happened(
    id: SignalId,
    hops: u16,
    reason: RejectReason,
    good: Receipt,
    bad: Receipt,
    good_outcome: Outcome,
    bad_outcome: Outcome,
)
    requires
        call_ensures(Receipt::delivered, (id, hops), good),
        call_ensures(Receipt::rejected, (id, reason, hops), bad),
        call_ensures(Receipt::outcome, (&good,), good_outcome),
        call_ensures(Receipt::outcome, (&bad,), bad_outcome),
    ensures
        good_outcome is Delivered,
        bad_outcome is Rejected,
        good.correlation_id == id && bad.correlation_id == id,
        good.hops == hops && bad.hops == hops,
        bad.status == ReceiptStatus::Rejected(reason),
        good.status is Delivered,
{
}

} // verus!
