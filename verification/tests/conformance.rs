use ntl::memory::MemoryStore;
use ntl::scalar::Scalar;
use ntl::signal::{NodeId, SignalId, SignalType};
use ntl::store::{
    ActivationSnapshot, Affinity, Durability, JournalEntry, JournalId, NodeStore, Outcome,
    PeerRecord, PeerSource, StoreError, SynapseFilter, SynapseRecord,
};
use ntl::synapse::{SynapseId, SynapseState};

const SEC: u64 = 1_000_000_000;

fn f(x: f32) -> Scalar {
    Scalar::from_bits(x.to_bits())
}

fn g(x: Scalar) -> f32 {
    f32::from_bits(x.to_bits())
}

fn node(n: u8) -> NodeId {
    NodeId(vec![n; 32])
}

/// Identifiers without ambient randomness, so that a failure reproduces.
fn signal_id(n: u64) -> SignalId {
    SignalId::from_parts(1_700_000_000_000 + n, u128::from(n) << 64)
}

fn synapse_record(id: &str, peer: u8, weight: f32) -> SynapseRecord {
    SynapseRecord {
        id: SynapseId(id.to_string()),
        peer: node(peer),
        weight: f(weight),
        attenuation_factor: f(0.9),
        state: SynapseState::Active,
        type_affinity: Affinity::new(),
        established_at_ns: 1_000,
        last_active_ns: 2_000,
        signals_transmitted: 7,
        signals_received: 3,
        avg_latency_ns: 1_500_000,
        error_rate: f(0.0),
        signature_failures: 0,
        failure_window_start_ns: 0,
    }
}

fn decision(signal: SignalId, peer: u8, at_ns: u64) -> JournalEntry {
    JournalEntry {
        id: None,
        signal,
        signal_type: SignalType::Data,
        synapse: SynapseId("syn-a".into()),
        peer: node(peer),
        score: f(0.75),
        signal_weight: f(0.8),
        explored: false,
        decided_at_ns: at_ns,
        outcome: Outcome::Pending,
        resolved_at_ns: None,
    }
}

fn same_record(a: &SynapseRecord, b: &SynapseRecord) -> bool {
    format!("{a:?}") == format!("{b:?}")
}

/// Run every check against a store that is expected to be empty.
fn run_all<S: NodeStore>(store: &mut S) {
    migrate_is_idempotent(store);
    synapse_roundtrip(store);
    synapse_listing_is_ordered_and_filtered(store);
    peer_roundtrip(store);
    dedup_is_check_and_set(store);
    dedup_entries_expire(store);
    activation_roundtrip(store);
    journal_roundtrip(store);
    journal_resolution_is_idempotent(store);
    journal_timeout_sweep(store);
    influence_accumulates_within_window(store);
    meta_roundtrip(store);
    signal_history_is_consistent(store);
}

/// Migrating must be safe to repeat.
fn migrate_is_idempotent<S: NodeStore>(store: &mut S) {
    store.migrate().expect("first migrate");
    store.migrate().expect("second migrate must do nothing");
}

/// A stored synapse must come back as it was, and be reachable by peer.
fn synapse_roundtrip<S: NodeStore>(store: &mut S) {
    let mut record = synapse_record("syn-roundtrip", 1, 0.42);
    record.type_affinity.insert("Query", 11);

    store.put_synapse(&record).expect("put");

    let fetched = store
        .get_synapse(&record.id)
        .expect("get")
        .expect("synapse must exist after put");
    assert!(same_record(&fetched, &record), "synapse must round-trip unchanged");

    let by_peer = store
        .synapse_for_peer(&record.peer)
        .expect("by peer")
        .expect("synapse must be reachable by peer");
    assert_eq!(by_peer.id, record.id);

    // A second put replaces rather than duplicates.
    let mut updated = record.clone();
    updated.weight = f(0.99);
    store.put_synapse(&updated).expect("re-put");
    let refetched = store.get_synapse(&record.id).expect("get").expect("present");
    assert!(
        (g(refetched.weight) - 0.99).abs() < f32::EPSILON,
        "put must replace an existing record"
    );

    store.delete_synapse(&record.id).expect("delete");
    assert!(
        store.get_synapse(&record.id).expect("get").is_none(),
        "synapse must be gone after delete"
    );
    store
        .delete_synapse(&record.id)
        .expect("deleting an absent synapse must not error");
}

/// Listing must sort by weight descending and honour every field of the filter.
fn synapse_listing_is_ordered_and_filtered<S: NodeStore>(store: &mut S) {
    let ids = ["ord-low", "ord-mid", "ord-high"];
    for (i, id) in ids.iter().enumerate() {
        let mut r = synapse_record(id, 20 + i as u8, 0.2 + 0.3 * i as f32);
        r.last_active_ns = 1_000 + i as u64 * 1_000;
        if i == 0 {
            r.state = SynapseState::Dormant;
        }
        store.put_synapse(&r).expect("put");
    }

    let all = store.list_synapses(&SynapseFilter::any()).expect("list all");
    let ours: Vec<_> = all.iter().filter(|s| s.id.0.starts_with("ord-")).collect();
    assert_eq!(ours.len(), 3, "all three records must be listed");
    for pair in ours.windows(2) {
        assert!(
            g(pair[0].weight) >= g(pair[1].weight),
            "listing must be ordered by weight descending"
        );
    }

    let active = store.list_synapses(&SynapseFilter::active()).expect("list active");
    assert!(
        active.iter().all(|s| s.state == SynapseState::Active),
        "state filter must exclude non-active synapses"
    );
    assert!(
        !active.iter().any(|s| s.id.0 == "ord-low"),
        "the dormant record must be filtered out"
    );

    let heavy = store
        .list_synapses(&SynapseFilter {
            min_weight: Some(f(0.7)),
            ..SynapseFilter::any()
        })
        .expect("list by weight");
    assert!(
        heavy.iter().all(|s| g(s.weight) >= 0.7),
        "min_weight filter must be respected"
    );

    let idle = store
        .list_synapses(&SynapseFilter {
            last_active_before_ns: Some(2_000),
            ..SynapseFilter::any()
        })
        .expect("list idle");
    assert!(
        idle.iter().all(|s| s.last_active_ns < 2_000),
        "last_active_before_ns filter must be respected"
    );

    let capped = store
        .list_synapses(&SynapseFilter {
            limit: Some(1),
            ..SynapseFilter::any()
        })
        .expect("list capped");
    assert_eq!(capped.len(), 1, "limit must be respected");

    for id in ids {
        store.delete_synapse(&SynapseId(id.to_string())).expect("cleanup");
    }
}

/// Peers must round-trip, filter by region, and count by provenance.
fn peer_roundtrip<S: NodeStore>(store: &mut S) {
    let peer = PeerRecord {
        id: node(30),
        addresses: vec!["ntl://10.0.0.1:4433".into(), "ntl://[::1]:4433".into()],
        region: Some("af-south-1".into()),
        advertised_types: vec!["Data".into(), "Query".into()],
        last_seen_ns: 5_000,
        source: PeerSource::Configured,
    };
    store.put_peer(&peer).expect("put peer");

    let fetched = store.get_peer(&peer.id).expect("get").expect("present");
    assert_eq!(fetched, peer, "peer must round-trip unchanged");

    let in_region = store.list_peers(Some("af-south-1"), 10).expect("list by region");
    assert!(
        in_region.iter().any(|p| p.id == peer.id),
        "region filter must match the advertised region"
    );
    assert!(
        store
            .list_peers(Some("eu-west-1"), 10)
            .expect("list other region")
            .iter()
            .all(|p| p.id != peer.id),
        "region filter must exclude other regions"
    );

    assert!(
        store.count_peers(PeerSource::Configured).expect("count") >= 1,
        "configured peers must be counted"
    );
}

/// The first call reports unseen, every later one within the window seen.
fn dedup_is_check_and_set<S: NodeStore>(store: &mut S) {
    let id = signal_id(101);
    let now = 100 * SEC;

    assert!(
        !store.check_and_set_seen(&id, now, 300).expect("first check"),
        "a signal must be reported unseen the first time"
    );
    assert!(
        store.check_and_set_seen(&id, now + 1, 300).expect("second check"),
        "a signal must be reported seen the second time: this is what prevents propagation loops"
    );
    assert!(
        store.has_seen(&id, now + 1).expect("has_seen"),
        "has_seen must agree with check_and_set_seen"
    );

    let other = signal_id(102);
    assert!(
        !store.has_seen(&other, now).expect("has_seen"),
        "has_seen must not report an unrecorded signal as seen"
    );
    assert!(
        !store.check_and_set_seen(&other, now, 300).expect("check"),
        "has_seen must not insert"
    );
}

/// Entries must stop counting as seen, and a purge must reclaim them.
fn dedup_entries_expire<S: NodeStore>(store: &mut S) {
    let id = signal_id(103);
    let now = 1_000 * SEC;
    let ttl_secs = 60;

    assert!(!store.check_and_set_seen(&id, now, ttl_secs).expect("set"));
    assert!(
        store.has_seen(&id, now + 30 * SEC).expect("within ttl"),
        "entry must still be seen inside its window"
    );
    let after = now + (ttl_secs + 1) * SEC;
    assert!(
        !store.has_seen(&id, after).expect("past ttl"),
        "entry must expire once its window has passed"
    );
    assert!(
        !store.check_and_set_seen(&id, after, ttl_secs).expect("reset"),
        "an expired entry must behave as absent"
    );

    let purged = store.purge_expired_seen(after + 1_000 * SEC).expect("purge");
    assert!(purged >= 1, "purge must reclaim expired entries");
}

/// The activation snapshot must round-trip and be replaced.
fn activation_roundtrip<S: NodeStore>(store: &mut S) {
    store.load_activation().expect("load must not error on an empty store");

    let first = ActivationSnapshot {
        potential: f(0.4),
        threshold: f(0.5),
        refractory_until_ns: 9_000,
        signals_fired: 3,
        taken_at_ns: 8_000,
    };
    store.save_activation(&first).expect("save");
    assert_eq!(
        store.load_activation().expect("load"),
        Some(first),
        "snapshot must round-trip unchanged"
    );

    let second = ActivationSnapshot {
        potential: f(0.9),
        taken_at_ns: 9_000,
        ..first
    };
    store.save_activation(&second).expect("save again");
    assert_eq!(
        store.load_activation().expect("load"),
        Some(second),
        "saving must replace the previous snapshot"
    );
}

/// A decision must get an identifier, be findable while pending, and resolve.
fn journal_roundtrip<S: NodeStore>(store: &mut S) {
    let signal = signal_id(104);
    let entry = decision(signal, 40, 10 * SEC);

    let id = store.append_decision(&entry).expect("append");

    let pending = store
        .pending_decision_for(&signal, &node(40))
        .expect("pending lookup")
        .expect("a pending decision must be findable by signal and peer");
    assert_eq!(pending.id, Some(id), "the assigned id must be returned");
    assert_eq!(pending.outcome, Outcome::Pending);
    assert_eq!(pending.score, entry.score, "score must round-trip");

    let resolved = store
        .resolve_decision(id, Outcome::Delivered, 11 * SEC)
        .expect("resolve")
        .expect("resolving a known id must return the entry");
    assert_eq!(resolved.outcome, Outcome::Delivered);
    assert_eq!(resolved.resolved_at_ns, Some(11 * SEC));

    assert!(
        store
            .pending_decision_for(&signal, &node(40))
            .expect("pending lookup")
            .is_none(),
        "a resolved decision must no longer be pending"
    );

    let recent = store.recent_decisions(Some(&SignalType::Data), 10).expect("recent");
    assert!(
        recent.iter().any(|e| e.id == Some(id)),
        "a resolved Data decision must appear in recent decisions for Data"
    );
    assert!(
        store
            .recent_decisions(Some(&SignalType::Heartbeat), 10)
            .expect("recent")
            .iter()
            .all(|e| e.id != Some(id)),
        "the signal-type filter must exclude other types"
    );

    assert!(
        store
            .resolve_decision(JournalId(u64::MAX), Outcome::Delivered, 12 * SEC)
            .expect("resolving an unknown id must not error")
            .is_none(),
        "an unknown journal id must yield nothing, not an error"
    );
}

/// The first receipt wins, which makes delivery safe to retry.
fn journal_resolution_is_idempotent<S: NodeStore>(store: &mut S) {
    let signal = signal_id(105);
    let id = store.append_decision(&decision(signal, 41, 20 * SEC)).expect("append");

    let pending = store.get_decision(id).expect("get").expect("entry present");
    assert_eq!(pending.outcome, Outcome::Pending);
    assert!(store.get_decision(JournalId(u64::MAX)).expect("get").is_none());

    store
        .resolve_decision(id, Outcome::Delivered, 21 * SEC)
        .expect("first resolve");
    let resolved = store.get_decision(id).expect("get").expect("entry present");
    assert_eq!(resolved.outcome, Outcome::Delivered);
    let second = store
        .resolve_decision(id, Outcome::Rejected, 22 * SEC)
        .expect("second resolve")
        .expect("entry still present");

    assert_eq!(
        second.outcome,
        Outcome::Delivered,
        "a second receipt must not overwrite the first outcome"
    );
    assert_eq!(
        second.resolved_at_ns,
        Some(21 * SEC),
        "the original resolution timestamp must be preserved"
    );
}

/// Decisions past their deadline must be found, so that silence can cost.
fn journal_timeout_sweep<S: NodeStore>(store: &mut S) {
    let stale = signal_id(106);
    let fresh = signal_id(107);
    let stale_id = store
        .append_decision(&decision(stale, 42, 30 * SEC))
        .expect("append stale");
    store
        .append_decision(&decision(fresh, 43, 90 * SEC))
        .expect("append fresh");

    let expired = store.expired_decisions(60 * SEC, 100).expect("sweep");
    assert!(
        expired.iter().any(|e| e.id == Some(stale_id)),
        "a decision older than the deadline must be reported expired"
    );
    assert!(
        expired.iter().all(|e| e.decided_at_ns < 60 * SEC),
        "a decision newer than the deadline must not be reported expired"
    );
    assert!(
        expired.iter().all(|e| !e.outcome.is_resolved()),
        "resolved decisions must never be reported expired"
    );

    let trimmed = store.trim_journal(60 * SEC).expect("trim");
    assert!(trimmed >= 1, "trim must remove entries older than the cutoff");
}

/// Influence must accumulate for each peer inside the window only.
fn influence_accumulates_within_window<S: NodeStore>(store: &mut S) {
    let attacker = node(50);
    let bystander = node(51);
    let window_start = 100 * SEC;

    let first = g(store
        .record_influence(&attacker, f(0.10), 110 * SEC, window_start)
        .expect("record"));
    assert!(
        (first - 0.10).abs() < 1e-5,
        "the first record must report its own magnitude, got {first}"
    );

    let second = g(store
        .record_influence(&attacker, f(0.15), 120 * SEC, window_start)
        .expect("record"));
    assert!(
        (second - 0.25).abs() < 1e-5,
        "influence must accumulate within the window, got {second}"
    );

    // A different peer must not share the attacker's budget.
    let other = g(store
        .record_influence(&bystander, f(0.05), 120 * SEC, window_start)
        .expect("record"));
    assert!(
        (other - 0.05).abs() < 1e-5,
        "influence must be accounted per identity, got {other}"
    );

    // Moving the window must exclude the earlier entries.
    let narrowed = g(store
        .influence_since(&attacker, 115 * SEC)
        .expect("influence since"));
    assert!(
        (narrowed - 0.15).abs() < 1e-5,
        "records before the window start must be excluded, got {narrowed}"
    );

    let purged = store.purge_influence(200 * SEC).expect("purge");
    assert!(purged >= 3, "purge must reclaim old influence records");
}

/// Metadata must round-trip and overwrite.
fn meta_roundtrip<S: NodeStore>(store: &mut S) {
    assert!(
        store.get_meta("absent-key").expect("get").is_none(),
        "an unset key must read back as nothing"
    );

    store.put_meta("node-id", &b"first".to_vec()).expect("put");
    assert_eq!(
        store.get_meta("node-id").expect("get").as_deref(),
        Some(&b"first"[..])
    );

    store.put_meta("node-id", &b"second".to_vec()).expect("put");
    assert_eq!(
        store.get_meta("node-id").expect("get").as_deref(),
        Some(&b"second"[..]),
        "put_meta must overwrite"
    );
}

/// History must either work or refuse, and never discard in silence.
fn signal_history_is_consistent<S: NodeStore>(store: &mut S) {
    let id = signal_id(108);
    let body = b"signal body".to_vec();
    let result = store.put_signal_history(&id, &body, 1_000);

    if store.signal_history_enabled() {
        result.expect("a backend with history must accept writes");
        assert_eq!(
            store.get_signal_history(&id).expect("get"),
            Some(body),
            "a retained body must read back unchanged"
        );
    } else {
        assert!(
            matches!(result, Err(StoreError::Unsupported(_))),
            "a backend without history must refuse rather than discard the body"
        );
        assert!(
            matches!(store.get_signal_history(&id), Err(StoreError::Unsupported(_))),
            "reads must refuse consistently with writes"
        );
    }
}

#[test]
fn memory_store_conforms() {
    run_all(&mut MemoryStore::new());
}

#[test]
fn memory_store_with_history_conforms() {
    run_all(&mut MemoryStore::with_history());
}

#[test]
fn durability_is_memory() {
    assert_eq!(MemoryStore::new().durability(), Durability::Memory);
}

#[test]
fn history_is_off_by_default() {
    assert!(!MemoryStore::new().signal_history_enabled());
    assert!(MemoryStore::with_history().signal_history_enabled());
}

#[test]
fn listing_orders_by_weight_and_breaks_ties_stably() {
    let mut s = MemoryStore::new();
    for (i, (id, weight)) in [("b", 0.5), ("a", 0.5), ("c", 0.9)].iter().enumerate() {
        s.put_synapse(&synapse_record(id, i as u8 + 1, *weight)).expect("put");
    }
    let listed = s.list_synapses(&SynapseFilter::any()).expect("list");
    let ids: Vec<String> = listed.iter().map(|r| r.id.0.clone()).collect();
    assert_eq!(
        ids,
        vec!["c", "a", "b"],
        "weight descending, then id ascending, so routing is reproducible"
    );
}

#[test]
fn eligible_filter_includes_weakening_synapses() {
    // A weakening synapse is still connected and must remain a candidate, or
    // it can never earn its weight back.
    let mut s = MemoryStore::new();
    for (i, state) in [
        SynapseState::Active,
        SynapseState::Weakening,
        SynapseState::Dormant,
    ]
    .iter()
    .enumerate()
    {
        let mut r = synapse_record(&format!("s{i}"), i as u8 + 1, 0.5);
        r.state = *state;
        s.put_synapse(&r).expect("put");
    }

    let eligible = s.list_synapses(&SynapseFilter::eligible()).expect("list");
    assert_eq!(eligible.len(), 2, "active and weakening, not dormant");
    assert!(eligible.iter().any(|r| r.state == SynapseState::Weakening));
    assert!(!eligible.iter().any(|r| r.state == SynapseState::Dormant));
}

#[test]
fn peers_are_counted_by_provenance() {
    let mut s = MemoryStore::new();
    for (i, source) in [
        PeerSource::Configured,
        PeerSource::Configured,
        PeerSource::Discovered,
    ]
    .iter()
    .enumerate()
    {
        s.put_peer(&PeerRecord {
            id: node(i as u8 + 1),
            addresses: vec!["ntl://host:4433".into()],
            region: None,
            advertised_types: Vec::new(),
            last_seen_ns: 1_000,
            source: *source,
        })
        .expect("put");
    }
    assert_eq!(s.count_peers(PeerSource::Configured).expect("count"), 2);
    assert_eq!(s.count_peers(PeerSource::Discovered).expect("count"), 1);
    assert_eq!(s.count_peers(PeerSource::Bootstrap).expect("count"), 0);
}

#[test]
fn peers_are_listed_by_when_they_were_seen() {
    let mut s = MemoryStore::new();
    for (id, seen) in [(1u8, 5u64), (2, 9), (3, 5)] {
        s.put_peer(&PeerRecord {
            id: node(id),
            addresses: Vec::new(),
            region: None,
            advertised_types: Vec::new(),
            last_seen_ns: seen,
            source: PeerSource::Observed,
        })
        .expect("put");
    }
    let ids: Vec<u8> = s.list_peers(None, 10).expect("list").iter().map(|p| p.id.0[0]).collect();
    assert_eq!(ids, vec![2, 1, 3]);
    assert_eq!(s.list_peers(None, 1).expect("list").len(), 1);
}

#[test]
fn dedup_check_and_set_is_a_single_statement() {
    let mut s = MemoryStore::new();
    let id = SignalId::from_parts(1_700_000_000_000, 99);
    let now = 1_000 * SEC;
    assert!(!s.check_and_set_seen(&id, now, 300).expect("first"));
    for i in 1..50 {
        assert!(
            s.check_and_set_seen(&id, now + i, 300).expect("repeat"),
            "repeat {i} must report seen"
        );
    }
    assert_eq!(s.seen_len(), 1);
}

#[test]
fn a_window_without_end_never_expires() {
    let mut s = MemoryStore::new();
    let id = signal_id(1);
    assert!(!s.check_and_set_seen(&id, u64::MAX - 5, u64::MAX).expect("set"));
    assert!(s.has_seen(&id, u64::MAX - 1).expect("read"));
}

#[test]
fn decisions_are_listed_newest_first() {
    let mut s = MemoryStore::new();
    for (n, at) in [(1u64, 10u64), (2, 30), (3, 20)] {
        s.append_decision(&decision(signal_id(n), 1, at)).expect("append");
    }
    let at: Vec<u64> =
        s.recent_decisions(None, 2).expect("recent").iter().map(|e| e.decided_at_ns).collect();
    assert_eq!(at, vec![30, 20]);
    assert_eq!(s.journal_len(), 3);
    assert_eq!(s.trim_journal(20).expect("trim"), 1);
    assert_eq!(s.journal_len(), 2);
}

#[test]
fn expired_dedup_entries_are_treated_as_absent() {
    let mut s = MemoryStore::new();
    let id = SignalId::from_parts(1_700_000_000_000, 100);
    let now = 1_000 * SEC;
    let ttl = 60;

    assert!(!s.check_and_set_seen(&id, now, ttl).expect("set"));
    let after = now + (ttl + 1) * SEC;
    assert!(!s.has_seen(&id, after).expect("read"), "should have expired");
    assert!(
        !s.check_and_set_seen(&id, after, ttl).expect("reset"),
        "an expired entry must behave as a first sighting"
    );
}

#[test]
fn resolving_twice_keeps_the_first_outcome() {
    let mut s = MemoryStore::new();
    let id = s
        .append_decision(&decision(SignalId::from_parts(1_700_000_000_000, 5), 1, 1_000))
        .expect("append");

    s.resolve_decision(id, Outcome::Delivered, 2_000).expect("first");
    let second = s
        .resolve_decision(id, Outcome::Rejected, 3_000)
        .expect("second")
        .expect("row present");

    assert_eq!(
        second.outcome,
        Outcome::Delivered,
        "the first receipt must win, which is what makes retries safe"
    );
    assert_eq!(second.resolved_at_ns, Some(2_000));
}

#[test]
fn influence_is_summed_per_peer_within_the_window() {
    let mut s = MemoryStore::new();
    let attacker = node(1);
    let bystander = node(2);

    s.record_influence(&attacker, f(0.1), 100 * SEC, 0).expect("a");
    s.record_influence(&attacker, f(0.1), 110 * SEC, 0).expect("b");
    s.record_influence(&bystander, f(0.9), 110 * SEC, 0).expect("c");

    let total = g(s.influence_since(&attacker, 0).expect("sum"));
    assert!((total - 0.2).abs() < 1e-5, "got {total}");
    assert!(
        (g(s.influence_since(&attacker, 105 * SEC).expect("windowed")) - 0.1).abs() < 1e-5,
        "records before the window start must be excluded"
    );
}

#[test]
fn history_disabled_refuses_rather_than_discarding() {
    let mut s = MemoryStore::new();
    let id = SignalId::from_parts(1_700_000_000_000, 1);
    assert!(!s.signal_history_enabled());
    assert!(
        matches!(
            s.put_signal_history(&id, &b"body".to_vec(), 1),
            Err(StoreError::Unsupported(_))
        ),
        "accepting and discarding would mislead an operator relying on replay"
    );
}

#[test]
fn history_enabled_round_trips() {
    let mut s = MemoryStore::with_history();
    let id = SignalId::from_parts(1_700_000_000_000, 1);
    s.put_signal_history(&id, &b"payload".to_vec(), 1).expect("put");
    assert_eq!(
        s.get_signal_history(&id).expect("get").as_deref(),
        Some(&b"payload"[..])
    );
}

#[test]
fn a_custom_type_is_found_by_its_name() {
    let mut s = MemoryStore::new();
    let custom = SignalType::Custom("mukoko.order".into());
    let mut entry = decision(SignalId::from_parts(1_700_000_000_000, 1), 1, 1_000);
    entry.signal_type = custom.clone();
    entry.explored = true;
    s.append_decision(&entry).expect("append");

    let recent = s.recent_decisions(Some(&custom), 10).expect("recent");
    assert_eq!(recent.len(), 1);
    assert_eq!(recent[0].signal_type, custom);
    assert!(recent[0].explored);
    assert!(s
        .recent_decisions(Some(&SignalType::Data), 10)
        .expect("recent")
        .is_empty());
}
