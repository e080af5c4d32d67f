use ntl::delivery::{DeliveryClass, Receipt, ReceiptStatus, RejectReason, RetryPolicy};
use ntl::rng::{FixedRng, SplitMix64};
use ntl::signal::SignalId;
use ntl::store::Outcome;

#[test]
fn best_effort_is_the_default() {
    assert_eq!(DeliveryClass::default(), DeliveryClass::BestEffort);
    assert!(!DeliveryClass::default().requires_receipt());
}

#[test]
fn acknowledged_requires_a_receipt() {
    assert!(DeliveryClass::Acknowledged.requires_receipt());
}

#[test]
fn delivery_class_wire_roundtrip() {
    for c in [DeliveryClass::BestEffort, DeliveryClass::Acknowledged] {
        assert_eq!(DeliveryClass::from_wire(c.to_wire()), Some(c));
    }
    assert_eq!(DeliveryClass::from_wire(2), None, "reserved values must not parse");
}

#[test]
fn wire_bytes_are_stable() {
    assert_eq!(DeliveryClass::BestEffort.to_wire(), 0);
    assert_eq!(DeliveryClass::Acknowledged.to_wire(), 1);
    assert_eq!(DeliveryClass::from_wire(255), None);
}

#[test]
fn transient_and_terminal_reasons_are_separated() {
    assert!(RejectReason::NoRoute.is_transient());
    assert!(RejectReason::QueueFull.is_transient());
    assert!(!RejectReason::UnsupportedType.is_transient());
    assert!(!RejectReason::Refused.is_transient());
}

#[test]
fn reasons_have_stable_texts() {
    let texts = [
        (RejectReason::BelowThreshold, "below_threshold", true),
        (RejectReason::TtlExhausted, "ttl_exhausted", false),
        (RejectReason::NoRoute, "no_route", true),
        (RejectReason::QueueFull, "queue_full", true),
        (RejectReason::UnsupportedType, "unsupported_type", false),
        (RejectReason::Refused, "refused", false),
        (RejectReason::TransportFailure, "transport_failure", true),
    ];
    for (reason, text, transient) in texts {
        assert_eq!(reason.as_str(), text);
        assert_eq!(reason.is_transient(), transient, "{text}");
    }
}

#[test]
fn receipt_maps_to_outcome() {
    let id = SignalId::from_parts(1, 2);
    assert_eq!(Receipt::delivered(id, 3).outcome(), Outcome::Delivered);
    assert_eq!(
        Receipt::rejected(id, RejectReason::NoRoute, 3).outcome(),
        Outcome::Rejected
    );
}

#[test]
fn receipts_carry_what_they_were_made_of() {
    let id = SignalId::from_parts(7, 9);
    let yes = Receipt::delivered(id, 4);
    assert!(yes.is_delivered());
    assert_eq!((yes.correlation_id, yes.hops), (id, 4));
    let no = Receipt::rejected(id, RejectReason::Refused, 2);
    assert!(!no.is_delivered());
    assert_eq!(no.status, ReceiptStatus::Rejected(RejectReason::Refused));
}

#[test]
fn first_attempt_has_no_delay() {
    let mut rng = SplitMix64::seeded(1);
    assert_eq!(RetryPolicy::default().backoff_ms(1, &mut rng), 0);
}

#[test]
fn backoff_grows_and_respects_the_cap() {
    let p = RetryPolicy::default();
    let mut rng = SplitMix64::seeded(2);
    for attempt in 2..12 {
        let mut max_seen = 0;
        for _ in 0..200 {
            max_seen = max_seen.max(p.backoff_ms(attempt, &mut rng));
        }
        assert!(max_seen <= p.cap_ms, "attempt {attempt} exceeded the cap");
    }
}

#[test]
fn backoff_is_jittered_not_fixed() {
    let p = RetryPolicy::default();
    let mut rng = SplitMix64::seeded(3);
    let draws: Vec<u64> = (0..50).map(|_| p.backoff_ms(4, &mut rng)).collect();
    assert!(
        draws.windows(2).any(|w| w[0] != w[1]),
        "full jitter must vary, or senders that failed together retry together"
    );
}

#[test]
fn backoff_does_not_overflow_on_large_attempts() {
    let p = RetryPolicy::default();
    let mut rng = SplitMix64::seeded(4);
    assert!(p.backoff_ms(u32::MAX, &mut rng) <= p.cap_ms);
}

#[test]
fn backoff_scales_the_draw_to_the_interval() {
    // A draw from the middle of the range falls in the middle of the interval,
    // which doubles with each attempt up to the cap.
    let p = RetryPolicy::default();
    let half = (1u64 << 63) + 1;
    let at = |attempt: u32| p.backoff_ms(attempt, &mut FixedRng::new(vec![half]));
    assert_eq!(at(2), 500);
    assert_eq!(at(3), 1_000);
    assert_eq!(at(4), 2_000);
    assert_eq!(at(7), 15_000);
    assert_eq!(at(40), 15_000);
}

#[test]
fn a_policy_without_an_interval_waits_not_at_all() {
    let p = RetryPolicy { base_ms: 0, cap_ms: 0, ..RetryPolicy::default() };
    assert_eq!(p.backoff_ms(9, &mut SplitMix64::seeded(5)), 0);
}

#[test]
fn retry_stops_at_attempt_budget() {
    let p = RetryPolicy::default();
    assert!(p.should_retry(1, 0, None));
    assert!(!p.should_retry(p.max_attempts, 0, None));
}

#[test]
fn retry_stops_at_deadline() {
    let p = RetryPolicy::default();
    assert!(!p.should_retry(1, p.total_deadline_secs, None));
}

#[test]
fn retry_stops_immediately_on_terminal_rejection() {
    let p = RetryPolicy::default();
    assert!(
        !p.should_retry(1, 0, Some(RejectReason::UnsupportedType)),
        "retrying a terminal rejection is pure waste"
    );
    assert!(p.should_retry(1, 0, Some(RejectReason::NoRoute)));
}

#[test]
fn dedup_window_must_cover_the_retry_budget() {
    let p = RetryPolicy::default();
    assert_eq!(p.required_dedup_secs(), p.total_deadline_secs);
}
