use ntl::scalar::Scalar;
use ntl::signal::{NodeId, SignalId, SignalType};
use ntl::sqlite::{
    from_i64, journal_from_columns, journal_to_columns, outcome_from_str, outcome_to_str,
    peer_from_columns, peer_to_columns, pending_migrations, signal_id_from_blob,
    signal_type_from_str, signal_type_to_str, source_from_str, source_to_str, state_from_str,
    state_to_str, synapse_from_columns, synapse_query, synapse_to_columns, to_i64, Argument,
    SqliteConfig, Synchronous, CURRENT_VERSION, FAILURE_COLUMNS, INITIAL_SCHEMA, SYNAPSE_QUERY,
};
use ntl::store::{
    Affinity, Durability, JournalEntry, JournalId, Outcome, PeerRecord, PeerSource, StoreError,
    SynapseFilter, SynapseRecord,
};
use ntl::synapse::{SynapseId, SynapseState};

fn f(x: f32) -> Scalar {
    Scalar::from_bits(x.to_bits())
}

fn record() -> SynapseRecord {
    let mut type_affinity = Affinity::new();
    type_affinity.insert("Query", 5);
    type_affinity.insert("Data", 2);
    SynapseRecord {
        id: SynapseId("persisted".into()),
        peer: NodeId(vec![7u8; 32]),
        weight: f(0.77),
        attenuation_factor: f(0.9),
        state: SynapseState::Active,
        type_affinity,
        established_at_ns: 1_000,
        last_active_ns: 2_000,
        signals_transmitted: 11,
        signals_received: 4,
        avg_latency_ns: 1_234,
        error_rate: f(0.02),
        signature_failures: 3,
        failure_window_start_ns: 900,
    }
}

fn entry(signal_type: SignalType) -> JournalEntry {
    JournalEntry {
        id: None,
        signal: SignalId::from_parts(1_700_000_000_000, 1),
        signal_type,
        synapse: SynapseId("syn".into()),
        peer: NodeId(vec![1u8; 32]),
        score: f(0.5),
        signal_weight: f(0.8),
        explored: true,
        decided_at_ns: 1_000,
        outcome: Outcome::Pending,
        resolved_at_ns: None,
    }
}

#[test]
fn migrate_is_idempotent_and_sets_the_version() {
    let first = pending_migrations(0).expect("first");
    let versions: Vec<u32> = first.iter().map(|m| m.version).collect();
    assert_eq!(versions, vec![1, 2]);
    assert_eq!(versions.last(), Some(&CURRENT_VERSION));
    assert_eq!(first[0].sql, INITIAL_SCHEMA);
    assert_eq!(first[1].sql, FAILURE_COLUMNS);
    let second = pending_migrations(CURRENT_VERSION).expect("second must be a no-op");
    assert!(second.is_empty());
}

#[test]
fn a_run_that_was_cut_short_goes_on_where_it_stopped() {
    let all: Vec<u32> = pending_migrations(0).expect("all").iter().map(|m| m.version).collect();
    for done in 0..=CURRENT_VERSION {
        let rest: Vec<u32> =
            pending_migrations(done).expect("rest").iter().map(|m| m.version).collect();
        assert_eq!(rest, all[done as usize..].to_vec());
    }
}

#[test]
fn the_schema_runs_in_a_database() {
    let db = rusqlite::Connection::open_in_memory().expect("open");
    for step in pending_migrations(0).expect("steps") {
        db.execute_batch(step.sql).expect("the step must apply");
    }
    let columns = synapse_to_columns(&record());
    db.execute(
        "INSERT INTO synapses VALUES (?1,?2,?3,?4,?5,?6,?7,?8,?9,?10,?11,?12,?13,?14)",
        rusqlite::params_from_iter([
            rusqlite::types::Value::Text(columns.id.clone()),
            rusqlite::types::Value::Blob(columns.peer.clone()),
            rusqlite::types::Value::Real(f64::from(f32::from_bits(columns.weight.to_bits()))),
            rusqlite::types::Value::Real(0.9),
            rusqlite::types::Value::Text(columns.state.clone()),
            rusqlite::types::Value::Text(columns.type_affinity.clone()),
            rusqlite::types::Value::Integer(columns.established_at_ns),
            rusqlite::types::Value::Integer(columns.last_active_ns),
            rusqlite::types::Value::Integer(columns.signals_transmitted),
            rusqlite::types::Value::Integer(columns.signals_received),
            rusqlite::types::Value::Integer(columns.avg_latency_ns),
            rusqlite::types::Value::Real(0.02),
            rusqlite::types::Value::Integer(columns.signature_failures),
            rusqlite::types::Value::Integer(columns.failure_window_start_ns),
        ]),
    )
    .expect("the columns must fit the table");
    let kept: (String, i64) = db
        .query_row(
            "SELECT type_affinity, signature_failures FROM synapses",
            [],
            |row| Ok((row.get(0)?, row.get(1)?)),
        )
        .expect("read");
    assert_eq!(kept, (columns.type_affinity, 3));
}

#[test]
fn a_newer_schema_is_refused_rather_than_guessed() {
    let err = pending_migrations(9_999).expect_err("must refuse a future schema");
    match err {
        StoreError::Migration { version, reason } => {
            assert_eq!(version, 9_999);
            assert!(
                reason.contains("Upgrade NTL"),
                "the error should tell the operator what to do: {reason}"
            );
            assert_eq!(
                reason,
                "database is at schema version 9999, but this build understands only 2. Upgrade \
                 NTL rather than downgrading the database."
            );
        }
        other => panic!("expected a migration error, got {other:?}"),
    }
}

#[test]
fn durability_is_reported_honestly() {
    let full = SqliteConfig {
        synchronous: Synchronous::Full,
        ..SqliteConfig::at("full.db")
    };
    assert_eq!(full.durability(false), Durability::Durable);
    let normal = SqliteConfig {
        synchronous: Synchronous::Normal,
        ..SqliteConfig::at("normal.db")
    };
    assert_eq!(
        normal.durability(false),
        Durability::BestEffort,
        "synchronous=NORMAL leaves a power-loss window, and claiming \
         otherwise would mislead an operator sizing their deployment"
    );
    assert_eq!(SqliteConfig::at("any.db").durability(true), Durability::Memory);
}

#[test]
fn a_configuration_starts_with_the_defaults() {
    let config = SqliteConfig::at("node.db");
    assert_eq!(config.path, "node.db");
    assert_eq!(config.busy_timeout_ms, 5_000);
    assert!(!config.retain_signal_history);
    assert_eq!(config.synchronous.as_pragma(), "NORMAL");
    assert_eq!(Synchronous::Full.as_pragma(), "FULL");
    assert_eq!(Synchronous::Off.as_pragma(), "OFF");
    assert_eq!(Synchronous::default(), Synchronous::Normal);
}

#[test]
fn custom_signal_types_round_trip_through_the_journal() {
    let custom = SignalType::Custom("mukoko.order".into());
    let mut columns = journal_to_columns(&entry(custom.clone()));
    assert_eq!(columns.signal_type, "custom:mukoko.order");
    columns.id = 9;
    let read = journal_from_columns(&columns).expect("read");
    assert_eq!(read.signal_type, custom);
    assert!(read.explored, "the exploration flag must round-trip");
    assert_eq!(read.id, Some(JournalId(9)));

    // And must not be confused with a built-in type.
    assert_ne!(columns.signal_type, signal_type_to_str(&SignalType::Data));
}

#[test]
fn far_future_timestamps_do_not_wrap() {
    let mut future = record();
    future.established_at_ns = u64::MAX;
    future.last_active_ns = u64::MAX;
    future.signals_transmitted = u64::MAX;
    let read = synapse_from_columns(&synapse_to_columns(&future)).expect("read");
    assert!(
        read.last_active_ns > 0,
        "a far-future timestamp must not wrap to a negative value"
    );
    assert_eq!(read.last_active_ns, i64::MAX as u64);
    assert_eq!(to_i64(u64::MAX), i64::MAX);
    assert_eq!(to_i64(7), 7);
    assert_eq!(from_i64(7), 7);
    assert_eq!(from_i64(-1), 0);
}

#[test]
fn a_synapse_is_read_back_as_it_was_written() {
    let written = record();
    let columns = synapse_to_columns(&written);
    let counts: serde_json::Value =
        serde_json::from_str(&columns.type_affinity).expect("a JSON object");
    assert_eq!(counts["Query"], 5);
    assert_eq!(counts["Data"], 2);
    let read = synapse_from_columns(&columns).expect("read");
    assert_eq!(read.id, written.id);
    assert_eq!(read.peer, written.peer);
    assert_eq!(read.weight, written.weight);
    assert_eq!(read.error_rate, written.error_rate);
    assert_eq!(read.state, written.state);
    assert_eq!(read.type_affinity.get("Query"), 5);
    assert_eq!(read.type_affinity.get("Data"), 2);
    assert_eq!(read.type_affinity.len(), 2);
    assert_eq!(read.signals_received, 4);
    assert_eq!(read.signature_failures, 3);
    assert_eq!(read.failure_window_start_ns, 900);
}

#[test]
fn a_peer_is_read_back_as_it_was_written() {
    let written = PeerRecord {
        id: NodeId(vec![4; 32]),
        addresses: vec!["ntl://host:4433".into(), "ntl://\"quoted\":1".into()],
        region: Some("eu".into()),
        advertised_types: vec!["Data".into()],
        last_seen_ns: 1_000,
        source: PeerSource::Configured,
    };
    let columns = peer_to_columns(&written);
    let addresses: Vec<String> = serde_json::from_str(&columns.addresses).expect("a JSON array");
    assert_eq!(addresses, written.addresses);
    assert_eq!(peer_from_columns(&columns).expect("read"), written);
}

#[test]
fn texts_are_read_back_as_they_were_written() {
    for state in [
        SynapseState::Forming,
        SynapseState::Active,
        SynapseState::Weakening,
        SynapseState::Dormant,
        SynapseState::Pruned,
    ] {
        assert_eq!(state_from_str(state_to_str(state)).expect("state"), state);
    }
    for source in [
        PeerSource::Configured,
        PeerSource::Bootstrap,
        PeerSource::Discovered,
        PeerSource::Observed,
    ] {
        assert_eq!(source_from_str(source_to_str(source)).expect("source"), source);
    }
    for outcome in [
        Outcome::Pending,
        Outcome::Delivered,
        Outcome::Rejected,
        Outcome::TimedOut,
        Outcome::TransportFailure,
        Outcome::SignatureFailure,
    ] {
        assert_eq!(outcome_from_str(outcome_to_str(outcome)).expect("outcome"), outcome);
    }
    for t in [
        SignalType::Data,
        SignalType::Query,
        SignalType::Event,
        SignalType::Command,
        SignalType::Heartbeat,
        SignalType::Discovery,
        SignalType::Receipt,
        SignalType::Custom("Data".into()),
        SignalType::Custom(String::new()),
    ] {
        assert_eq!(signal_type_from_str(&signal_type_to_str(&t)).expect("type"), t);
    }
}

#[test]
fn what_cannot_be_decoded_is_corrupt() {
    let table_of = |e: StoreError| match e {
        StoreError::Corrupt { table, .. } => table,
        other => panic!("expected a corrupt record, got {other:?}"),
    };
    assert_eq!(table_of(state_from_str("gone").unwrap_err()), "synapses");
    assert_eq!(table_of(source_from_str("gone").unwrap_err()), "peers");
    assert_eq!(table_of(outcome_from_str("gone").unwrap_err()), "journal");
    assert_eq!(table_of(signal_type_from_str("gone").unwrap_err()), "journal");
    assert_eq!(table_of(signal_id_from_blob(&vec![0; 15]).unwrap_err()), "signal id");

    let mut synapse = synapse_to_columns(&record());
    synapse.type_affinity = "not JSON".into();
    assert_eq!(table_of(synapse_from_columns(&synapse).unwrap_err()), "synapses");

    let mut decision = journal_to_columns(&entry(SignalType::Data));
    decision.outcome = "gone".into();
    assert_eq!(table_of(journal_from_columns(&decision).unwrap_err()), "journal");
}

#[test]
fn a_query_has_an_argument_for_every_placeholder() {
    let (sql, args) = synapse_query(&SynapseFilter::any());
    assert_eq!(sql, format!("{SYNAPSE_QUERY} ORDER BY weight DESC, id ASC"));
    assert!(args.is_empty());

    let narrow = SynapseFilter {
        states: vec![SynapseState::Active, SynapseState::Weakening],
        min_weight: Some(f(0.25)),
        last_active_before_ns: Some(u64::MAX),
        limit: Some(7),
    };
    let (sql, args) = synapse_query(&narrow);
    assert_eq!(
        sql,
        format!(
            "{SYNAPSE_QUERY} AND state IN (?,?) AND weight >= ? AND last_active_ns < ? \
             ORDER BY weight DESC, id ASC LIMIT ?"
        )
    );
    assert_eq!(
        args,
        vec![
            Argument::Text("active"),
            Argument::Text("weakening"),
            Argument::Real(f(0.25)),
            Argument::Whole(i64::MAX),
            Argument::Whole(7),
        ]
    );

    let db = rusqlite::Connection::open_in_memory().expect("open");
    for step in pending_migrations(0).expect("steps") {
        db.execute_batch(step.sql).expect("the step must apply");
    }
    let prepared = db.prepare(&sql).expect("the query must fit the schema");
    assert_eq!(prepared.parameter_count(), args.len());
    assert_eq!(prepared.column_count(), 14);
}
