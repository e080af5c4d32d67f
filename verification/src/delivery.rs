//! Delivery classes, receipts and retry.

use vstd::prelude::*;

use crate::rng::{drawn_or_zero, Rng};
use crate::signal::SignalId;
use crate::store::Outcome;
use crate::time::{saturated, saturating_product};

verus! {

/// How hard a node must try, and whether failure is reported.
#[derive(Clone, Copy, Debug, PartialEq, Eq, Structural)]
pub enum DeliveryClass {
    /// No guarantee. May be silently absorbed. The default.
    BestEffort,
    /// At least once, or the sender learns that it failed. Never silent.
    Acknowledged,
}

impl Default for DeliveryClass {
    fn default() -> (r: Self)
        ensures
            r == DeliveryClass::BestEffort,
    {
        DeliveryClass::BestEffort
    }
}

impl DeliveryClass {
    /// The wire representation.
    pub open spec fn wire(self) -> u8 {
        match self {
            DeliveryClass::BestEffort => 0,
            DeliveryClass::Acknowledged => 1,
        }
    }

    /// Wire representation.
    pub fn to_wire(self) -> (r: u8)
        ensures
            r == self.wire(),
    {
        match self {
            DeliveryClass::BestEffort => 0,
            DeliveryClass::Acknowledged => 1,
        }
    }

    /// Parse from the wire representation. Reserved values do not parse.
    pub fn from_wire(byte: u8) -> (r: Option<DeliveryClass>)
        ensures
            r is Some <==> byte <= 1,
            r matches Some(class) ==> class.wire() == byte,
    {
        match byte {
            0 => Some(DeliveryClass::BestEffort),
            1 => Some(DeliveryClass::Acknowledged),
            _ => None,
        }
    }

    /// Whether a node must report failure rather than drop silently.
    pub fn requires_receipt(self) -> (r: bool)
        ensures
            r == (self is Acknowledged),
    {
        match self {
            DeliveryClass::Acknowledged => true,
            DeliveryClass::BestEffort => false,
        }
    }
}

/// Distinct classes have distinct wire representations, so the class that
/// parses from a class's wire byte is that class.
pub proof fn lemma_wire_round_trip(class: DeliveryClass, parsed: DeliveryClass)
    requires
        parsed.wire() == class.wire(),
    ensures
        parsed == class,
{
}

/// Why an acknowledged signal could not be delivered.
#[derive(Clone, Copy, Debug, PartialEq, Eq, Structural)]
pub enum RejectReason {
    /// Weight fell below the propagation weight.
    BelowThreshold,
    /// TTL reached zero at a node that could not handle the signal.
    TtlExhausted,
    /// No candidate synapse passed scope filtering.
    NoRoute,
    /// The activation queue was full and overflow selected this signal.
    QueueFull,
    /// This node cannot handle the type and cannot forward it.
    UnsupportedType,
    /// Policy declined the signal.
    Refused,
    /// The peers that were chosen could not be reached.
    TransportFailure,
}

impl RejectReason {
    /// Whether retrying could plausibly succeed.
    pub open spec fn transient(self) -> bool {
        self is NoRoute || self is QueueFull || self is BelowThreshold || self is TransportFailure
    }

    /// The stable text of the reason.
    pub open spec fn text(self) -> Seq<char> {
        match self {
            RejectReason::BelowThreshold => "below_threshold"@,
            RejectReason::TtlExhausted => "ttl_exhausted"@,
            RejectReason::NoRoute => "no_route"@,
            RejectReason::QueueFull => "queue_full"@,
            RejectReason::UnsupportedType => "unsupported_type"@,
            RejectReason::Refused => "refused"@,
            RejectReason::TransportFailure => "transport_failure"@,
        }
    }

    /// Whether retrying could plausibly succeed.
    ///
    /// Retrying a terminal rejection is pure waste: the sender must stop.
    pub fn is_transient(self) -> (r: bool)
        ensures
            r == self.transient(),
    {
        match self {
            RejectReason::NoRoute
            | RejectReason::QueueFull
            | RejectReason::BelowThreshold
            | RejectReason::TransportFailure => true,
            RejectReason::TtlExhausted | RejectReason::UnsupportedType | RejectReason::Refused => false,
        }
    }

    /// Stable text for the receipt's reason field.
    pub fn as_str(self) -> (r: &'static str)
        ensures
            r@ == self.text(),
    {
        match self {
            RejectReason::BelowThreshold => "below_threshold",
            RejectReason::TtlExhausted => "ttl_exhausted",
            RejectReason::NoRoute => "no_route",
            RejectReason::QueueFull => "queue_full",
            RejectReason::UnsupportedType => "unsupported_type",
            RejectReason::Refused => "refused",
            RejectReason::TransportFailure => "transport_failure",
        }
    }
}

/// The outcome a receipt reports.
#[derive(Clone, Copy, Debug, PartialEq, Eq, Structural)]
pub enum ReceiptStatus {
    /// A node handled the signal.
    Delivered,
    /// A node determined that it could not be delivered.
    Rejected(RejectReason),
}

/// The payload of a receipt signal.
#[derive(Clone, Copy, Debug, PartialEq, Eq, Structural)]
pub struct Receipt {
    /// The signal being acknowledged.
    pub correlation_id: SignalId,
    /// What happened.
    pub status: ReceiptStatus,
    /// Hops taken to reach the handler.
    pub hops: u16,
}

impl Receipt {
    /// The outcome that the receipt resolves a decision to.
    pub open spec fn resolves_to(self) -> Outcome {
        match self.status {
            ReceiptStatus::Delivered => Outcome::Delivered,
            ReceiptStatus::Rejected(_) => Outcome::Rejected,
        }
    }

    /// A positive receipt.
    pub fn delivered(correlation_id: SignalId, hops: u16) -> (r: Receipt)
        ensures
            r == (Receipt { correlation_id, status: ReceiptStatus::Delivered, hops }),
    {
        Receipt { correlation_id, status: ReceiptStatus::Delivered, hops }
    }

    /// A negative receipt.
    pub fn rejected(correlation_id: SignalId, reason: RejectReason, hops: u16) -> (r: Receipt)
        ensures
            r == (Receipt { correlation_id, status: ReceiptStatus::Rejected(reason), hops }),
    {
        Receipt { correlation_id, status: ReceiptStatus::Rejected(reason), hops }
    }

    /// Whether this receipt reports success.
    pub fn is_delivered(&self) -> (r: bool)
        ensures
            r == (self.status is Delivered),
    {
        match self.status {
            ReceiptStatus::Delivered => true,
            ReceiptStatus::Rejected(_) => false,
        }
    }

    /// The outcome this receipt resolves a journalled decision to.
    pub fn outcome(&self) -> (r: Outcome)
        ensures
            r == self.resolves_to(),
    {
        match self.status {
            ReceiptStatus::Delivered => Outcome::Delivered,
            ReceiptStatus::Rejected(_) => Outcome::Rejected,
        }
    }
}

/// Sender-side retry policy.
///
/// The sender retries; intermediate nodes do not.
#[derive(Clone, Copy, Debug, PartialEq, Eq, Structural)]
pub struct RetryPolicy {
    /// First backoff interval, in milliseconds.
    pub base_ms: u64,
    /// Ceiling on any single backoff, in milliseconds.
    pub cap_ms: u64,
    /// Maximum attempts, including the first.
    pub max_attempts: u32,
    /// Overall deadline, in seconds.
    pub total_deadline_secs: u64,
}

impl Default for RetryPolicy {
    fn default() -> (r: Self)
        ensures
            r == (RetryPolicy {
                base_ms: 1_000,
                cap_ms: 30_000,
                max_attempts: 5,
                total_deadline_secs: 300,
            }),
    {
        RetryPolicy { base_ms: 1_000, cap_ms: 30_000, max_attempts: 5, total_deadline_secs: 300 }
    }
}

impl RetryPolicy {
    /// The length of the interval that the backoff before `attempt` is drawn
    /// from: the base doubled for each attempt after the second, at most 31
    /// times, under the cap, and at least one.
    pub open spec fn ceiling(self, attempt: u32) -> u64 {
        let doublings = if attempt - 2 < 31 {
            attempt - 2
        } else {
            31
        };
        let grown = saturated(
            self.base_ms * vstd::arithmetic::power2::pow2(doublings as nat),
        );
        let capped = if grown < self.cap_ms {
            grown
        } else {
            self.cap_ms
        };
        if capped < 1 {
            1
        } else {
            capped
        }
    }

    /// Backoff before `attempt`, with full jitter.
    ///
    /// A uniform draw from the interval, rather than its length, is what stops
    /// many senders that failed together from retrying together.
    ///
    /// Attempt numbering starts at one; the first attempt has no preceding
    /// delay.
    pub fn backoff_ms<R: Rng>(&self, attempt: u32, rng: &mut R) -> (r: u64)
        ensures
            attempt <= 1 ==> r == 0 && *final(rng) == *old(rng),
            attempt > 1 ==> r < self.ceiling(attempt),
            attempt > 1 ==> drawn_or_zero(*old(rng), self.ceiling(attempt), r, *final(rng)),
    {
        if attempt <= 1 {
            return 0;
        }
        let exp: u32 = if attempt - 2 < 31 {
            attempt - 2
        } else {
            31
        };
        let mut factor: u64 = 1;
        let mut i: u32 = 0;
        proof {
            vstd::arithmetic::power2::lemma2_to64();
        }
        while i < exp
            invariant
                i <= exp <= 31,
                factor == vstd::arithmetic::power2::pow2(i as nat),
            decreases exp - i,
        {
            proof {
                vstd::arithmetic::power2::lemma_pow2_unfold((i + 1) as nat);
                vstd::arithmetic::power2::lemma2_to64();
                if i < 31 {
                    vstd::arithmetic::power2::lemma_pow2_strictly_increases(i as nat, 31);
                }
            }
            factor = factor * 2;
            i = i + 1;
        }
        let grown: u64 = saturating_product(self.base_ms, factor);
        let capped: u64 = if grown < self.cap_ms {
            grown
        } else {
            self.cap_ms
        };
        let ceiling: u64 = if capped < 1 {
            1
        } else {
            capped
        };
        match rng.next_below(ceiling) {
            Some(delay) => delay,
            None => 0,
        }
    }

    /// Whether another attempt is permitted.
    ///
    /// A terminal rejection stops retrying regardless of budget.
    pub fn should_retry(
        &self,
        attempts_made: u32,
        elapsed_secs: u64,
        last_reason: Option<RejectReason>,
    ) -> (r: bool)
        ensures
            r == {
                &&& last_reason matches Some(reason) ==> reason.transient()
                &&& attempts_made < self.max_attempts
                &&& elapsed_secs < self.total_deadline_secs
            },
    {
        if let Some(reason) = last_reason {
            if !reason.is_transient() {
                return false;
            }
        }
        attempts_made < self.max_attempts && elapsed_secs < self.total_deadline_secs
    }

    /// Minimum deduplication retention this policy implies.
    ///
    /// A window shorter than the retry budget means that a late retry is
    /// processed as a new signal.
    pub fn required_dedup_secs(&self) -> (r: u64)
        ensures
            r == self.total_deadline_secs,
    {
        self.total_deadline_secs
    }
}

/// No backoff exceeds the cap, whatever the attempt.
pub proof fn lemma_backoff_respects_the_cap(policy: RetryPolicy, attempt: u32, delay: u64)
    requires
        attempt > 1,
        delay < policy.ceiling(attempt),
    ensures
        delay <= policy.cap_ms,
{
}

} // verus!
