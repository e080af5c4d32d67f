//! What a SQLite database holds, and how records become rows.
//!
//! The host runs the statements; the schema and the codec are here.

use vstd::prelude::*;

use crate::node::{name_of_type, signal_type_name_of};
use crate::order::same_text;
use crate::scalar::Scalar;
use crate::signal::{be_bytes, texts, NodeId, SignalId, SignalType, TypeModel};
use crate::store::{
    count_of, counted, text_of, Affinity, AffinityModel, Durability, FilterModel, JournalEntry,
    JournalId, JournalRow, Outcome, PeerRecord, PeerRow, PeerSource, StoreError, StoreResult,
    SynapseFilter, SynapseRecord, SynapseRow,
};
use crate::synapse::{SynapseId, SynapseState};
use crate::text::{copy_bytes, decimal, decimal_text};

verus! {

/// How aggressively SQLite flushes to disk.
#[derive(Clone, Copy, Debug, PartialEq, Eq, Structural)]
pub enum Synchronous {
    /// Survives power loss, with the heaviest write load.
    Full,
    /// A narrow window of power loss for materially fewer writes, which matters
    /// on flash storage.
    Normal,
    /// Fast and unsafe; for tests.
    Off,
}

impl Default for Synchronous {
    fn default() -> (r: Self)
        ensures
            r == Synchronous::Normal,
    {
        Synchronous::Normal
    }
}

impl Synchronous {
    /// The value of the pragma.
    pub fn as_pragma(self) -> (r: &'static str)
        ensures
            r@ == (match self {
                Synchronous::Full => "FULL"@,
                Synchronous::Normal => "NORMAL"@,
                Synchronous::Off => "OFF"@,
            }),
    {
        match self {
            Synchronous::Full => "FULL",
            Synchronous::Normal => "NORMAL",
            Synchronous::Off => "OFF",
        }
    }
}

/// Configuration of a SQLite store.
#[derive(Debug)]
pub struct SqliteConfig {
    /// Where the database lives.
    pub path: String,
    /// Flush behaviour.
    pub synchronous: Synchronous,
    /// How long to wait on a locked database, in milliseconds.
    pub busy_timeout_ms: u32,
    /// Whether to retain signal bodies for replay.
    pub retain_signal_history: bool,
}

impl SqliteConfig {
    /// Configuration for a database at a path, with defaults elsewhere.
    pub fn at(path: &str) -> (r: SqliteConfig)
        ensures
            r.path@ == path@,
            r.synchronous == Synchronous::Normal,
            r.busy_timeout_ms == 5_000,
            !r.retain_signal_history,
    {
        SqliteConfig {
            path: path.to_string(),
            synchronous: Synchronous::Normal,
            busy_timeout_ms: 5_000,
            retain_signal_history: false,
        }
    }

    /// The durability that a database so configured provides. Only full
    /// synchronisation survives power loss.
    pub fn durability(&self, in_memory: bool) -> (r: Durability)
        ensures
            r == (if in_memory {
                Durability::Memory
            } else if self.synchronous is Full {
                Durability::Durable
            } else {
                Durability::BestEffort
            }),
    {
        if in_memory {
            return Durability::Memory;
        }
        match self.synchronous {
            Synchronous::Full => Durability::Durable,
            Synchronous::Normal | Synchronous::Off => Durability::BestEffort,
        }
    }
}

/// The schema version that this build understands.
pub const CURRENT_VERSION: u32 = 2;

/// One migration step.
#[derive(Clone, Copy, Debug)]
pub struct Migration {
    /// Target schema version.
    pub version: u32,
    /// What it does.
    pub description: &'static str,
    /// The statements to run, as one script.
    pub sql: &'static str,
}

/// The first schema.
pub const INITIAL_SCHEMA: &'static str = r"
-- Synapses: the learned model.
CREATE TABLE IF NOT EXISTS synapses (
    id                  TEXT PRIMARY KEY,
    peer                BLOB NOT NULL,
    weight              REAL NOT NULL,
    attenuation_factor  REAL NOT NULL,
    state               TEXT NOT NULL,
    type_affinity       TEXT NOT NULL,   -- JSON object: type -> count
    established_at_ns   INTEGER NOT NULL,
    last_active_ns      INTEGER NOT NULL,
    signals_transmitted INTEGER NOT NULL,
    signals_received    INTEGER NOT NULL,
    avg_latency_ns      INTEGER NOT NULL,
    error_rate          REAL NOT NULL
);
-- Listing is ordered by weight descending on every routing decision.
CREATE INDEX IF NOT EXISTS idx_synapses_weight ON synapses(weight DESC);
-- One synapse per peer, which also makes synapse_for_peer an index lookup.
CREATE UNIQUE INDEX IF NOT EXISTS idx_synapses_peer ON synapses(peer);
CREATE INDEX IF NOT EXISTS idx_synapses_state ON synapses(state);
CREATE INDEX IF NOT EXISTS idx_synapses_last_active ON synapses(last_active_ns);

-- Topology knowledge. Discovered peers must not evict configured ones.
CREATE TABLE IF NOT EXISTS peers (
    id               BLOB PRIMARY KEY,
    addresses        TEXT NOT NULL,      -- JSON array
    region           TEXT,
    advertised_types TEXT NOT NULL,      -- JSON array
    last_seen_ns     INTEGER NOT NULL,
    source           TEXT NOT NULL
);
CREATE INDEX IF NOT EXISTS idx_peers_region ON peers(region);
CREATE INDEX IF NOT EXISTS idx_peers_last_seen ON peers(last_seen_ns DESC);
CREATE INDEX IF NOT EXISTS idx_peers_source ON peers(source);

-- Deduplication cache. The primary key is what makes check-and-set atomic:
-- INSERT ... ON CONFLICT decides presence and inserts in one statement.
CREATE TABLE IF NOT EXISTS seen_signals (
    id         BLOB PRIMARY KEY,
    expires_ns INTEGER NOT NULL
);
CREATE INDEX IF NOT EXISTS idx_seen_expires ON seen_signals(expires_ns);

-- Activation snapshot. A single row: snapshots replace, never accumulate.
CREATE TABLE IF NOT EXISTS activation (
    singleton           INTEGER PRIMARY KEY CHECK (singleton = 0),
    potential           REAL NOT NULL,
    threshold           REAL NOT NULL,
    refractory_until_ns INTEGER NOT NULL,
    signals_fired       INTEGER NOT NULL,
    taken_at_ns         INTEGER NOT NULL
);

-- The learning journal: one routing decision and its observed outcome.
CREATE TABLE IF NOT EXISTS journal (
    id             INTEGER PRIMARY KEY AUTOINCREMENT,
    signal         BLOB NOT NULL,
    signal_type    TEXT NOT NULL,
    synapse        TEXT NOT NULL,
    peer           BLOB NOT NULL,
    score          REAL NOT NULL,
    signal_weight  REAL NOT NULL,
    explored       INTEGER NOT NULL,
    decided_at_ns  INTEGER NOT NULL,
    outcome        TEXT NOT NULL,
    resolved_at_ns INTEGER
);
-- Routing a receipt back to its decision.
CREATE INDEX IF NOT EXISTS idx_journal_signal_peer ON journal(signal, peer);
-- The timeout sweep scans unresolved decisions by age.
CREATE INDEX IF NOT EXISTS idx_journal_pending ON journal(outcome, decided_at_ns);
CREATE INDEX IF NOT EXISTS idx_journal_decided ON journal(decided_at_ns DESC);

-- Influence accounting, persisted so that a restart cannot reset a budget.
CREATE TABLE IF NOT EXISTS influence (
    id        INTEGER PRIMARY KEY AUTOINCREMENT,
    peer      BLOB NOT NULL,
    magnitude REAL NOT NULL,
    at_ns     INTEGER NOT NULL
);
CREATE INDEX IF NOT EXISTS idx_influence_peer_at ON influence(peer, at_ns);

-- Node identity and other single-valued state.
CREATE TABLE IF NOT EXISTS meta (
    key   TEXT PRIMARY KEY,
    value BLOB NOT NULL
);

-- Optional signal bodies for replay. Off unless explicitly enabled.
CREATE TABLE IF NOT EXISTS signal_history (
    id       BLOB PRIMARY KEY,
    body     BLOB NOT NULL,
    added_ns INTEGER NOT NULL
);
";

/// The columns that count signature failures.
pub const FAILURE_COLUMNS: &'static str = r"
-- Failures within one window are counted across restarts.
ALTER TABLE synapses ADD COLUMN signature_failures INTEGER NOT NULL DEFAULT 0;
ALTER TABLE synapses ADD COLUMN failure_window_start_ns INTEGER NOT NULL DEFAULT 0;
";

/// A migration step as a value.
pub struct MigrationRow {
    /// Target schema version.
    pub version: int,
    /// What it does.
    pub description: Seq<char>,
    /// The statements to run.
    pub sql: Seq<char>,
}

/// The migrations that there are, the first at version one.
pub open spec fn migrations() -> Seq<MigrationRow> {
    seq![
        MigrationRow { version: 1, description: "initial schema"@, sql: INITIAL_SCHEMA@ },
        MigrationRow {
            version: 2,
            description: "signature-failure window on synapses"@,
            sql: FAILURE_COLUMNS@,
        },
    ]
}

/// Migration steps as values.
pub open spec fn migration_rows(steps: Seq<Migration>) -> Seq<MigrationRow> {
    steps.map_values(
        |m: Migration|
            MigrationRow { version: m.version as int, description: m.description@, sql: m.sql@ },
    )
}

/// The migrations that a database of a version lacks, in order.
pub open spec fn lacking(current: int) -> Seq<MigrationRow> {
    if current <= migrations().len() {
        migrations().skip(current)
    } else {
        Seq::empty()
    }
}

/// The version of a database after steps have been applied to it, each of which
/// records its own.
pub open spec fn version_after(current: int, steps: Seq<MigrationRow>) -> int {
    if steps.len() == 0 {
        current
    } else {
        steps.last().version
    }
}

/// Why a database of a newer build is refused.
pub open spec fn newer_schema(current: int) -> Seq<char> {
    "database is at schema version "@ + decimal(current) + ", but this build understands only "@
        + decimal(CURRENT_VERSION as int)
        + ". Upgrade NTL rather than downgrading the database."@
}

/// The migrations that bring a database of a version up to date, in order.
///
/// They are part of the program: a start without configuration cannot depend on
/// files beside it. A database of a newer build is refused.
pub fn pending_migrations(current: u32) -> (r: StoreResult<Vec<Migration>>)
    ensures
        r is Err <==> current > CURRENT_VERSION,
        r matches Err(e) ==> e matches StoreError::Migration { version, reason } && version
            == current && reason@ == newer_schema(current as int),
        r matches Ok(steps) ==> migration_rows(steps@) == lacking(current as int),
{
    if current > CURRENT_VERSION {
        let mut reason: String = "database is at schema version ".to_string();
        reason.append(decimal_text(current).as_str());
        reason.append(", but this build understands only ");
        reason.append(decimal_text(CURRENT_VERSION).as_str());
        reason.append(". Upgrade NTL rather than downgrading the database.");
        return Err(StoreError::Migration { version: current, reason });
    }
    let mut steps: Vec<Migration> = Vec::new();
    if current < 1 {
        steps.push(Migration { version: 1, description: "initial schema", sql: INITIAL_SCHEMA });
    }
    if current < 2 {
        steps.push(
            Migration {
                version: 2,
                description: "signature-failure window on synapses",
                sql: FAILURE_COLUMNS,
            },
        );
    }
    assert(migration_rows(steps@) =~= lacking(current as int));
    Ok(steps)
}

/// A database of an older version lacks exactly the migrations of later
/// versions, each once and in order; applied, they bring it to the current
/// version, and then it lacks none. After a run that was cut short it lacks
/// exactly the rest, so that no migration is applied twice and none is left out.
/// A newer one lacks none that could be applied.
pub proof fn lemma_migrations_apply_once(current: int)
    requires
        0 <= current,
    ensures
        forall|i: int|
            0 <= i < lacking(current).len() ==> (#[trigger] lacking(current)[i]).version == current
                + 1 + i,
        current <= CURRENT_VERSION ==> {
            &&& lacking(current).len() == CURRENT_VERSION - current
            &&& version_after(current, lacking(current)) == CURRENT_VERSION
            &&& lacking(version_after(current, lacking(current))).len() == 0
            &&& migrations().take(current) + lacking(current) == migrations()
        },
        forall|k: int|
            0 <= k <= lacking(current).len() ==> #[trigger] lacking(
                version_after(current, lacking(current).take(k)),
            ) == lacking(current).skip(k),
        current > CURRENT_VERSION ==> lacking(current).len() == 0,
{
    if current <= CURRENT_VERSION {
        assert(migrations().take(current) + lacking(current) =~= migrations());
    }
    assert forall|k: int| 0 <= k <= lacking(current).len() implies #[trigger] lacking(
        version_after(current, lacking(current).take(k)),
    ) == lacking(current).skip(k) by {
        assert(version_after(current, lacking(current).take(k)) == current + k);
        assert(lacking(current + k) =~= lacking(current).skip(k));
    }
}

/// A number as a column holds it. Columns are signed: a far future stays the
/// far future rather than wrap.
pub open spec fn column_of(value: u64) -> i64 {
    if value > i64::MAX {
        i64::MAX
    } else {
        value as i64
    }
}

/// Computes [`column_of`].
pub fn to_i64(value: u64) -> (r: i64)
    ensures
        r == column_of(value),
{
    if value > i64::MAX as u64 {
        i64::MAX
    } else {
        value as i64
    }
}

/// A number from a column. A negative one is none.
pub open spec fn number_in(column: i64) -> u64 {
    if column < 0 {
        0
    } else {
        column as u64
    }
}

/// Computes [`number_in`].
pub fn from_i64(column: i64) -> (r: u64)
    ensures
        r == number_in(column),
{
    if column < 0 {
        0
    } else {
        column as u64
    }
}

/// A number read back is the number written, or the largest that a column
/// holds, and numbers keep their order.
pub proof fn lemma_numbers_do_not_wrap(a: u64, b: u64)
    ensures
        number_in(column_of(a)) == (if a > i64::MAX {
            i64::MAX as int
        } else {
            a as int
        }),
        a <= b ==> column_of(a) <= column_of(b),
{
}

/// A record that cannot be decoded.
fn corrupt(table: &str, what: &str, text: &str) -> (r: StoreError)
    ensures
        r matches StoreError::Corrupt { table: named, reason } && named@ == table@ && reason@
            == what@ + text@,
{
    let mut reason: String = what.to_string();
    reason.append(text);
    StoreError::Corrupt { table: table.to_string(), reason }
}

/// The text of a state.
pub open spec fn state_text(state: SynapseState) -> Seq<char> {
    match state {
        SynapseState::Forming => "forming"@,
        SynapseState::Active => "active"@,
        SynapseState::Weakening => "weakening"@,
        SynapseState::Dormant => "dormant"@,
        SynapseState::Pruned => "pruned"@,
    }
}

/// The text of a state.
pub fn state_to_str(state: SynapseState) -> (r: &'static str)
    ensures
        r@ == state_text(state),
{
    match state {
        SynapseState::Forming => "forming",
        SynapseState::Active => "active",
        SynapseState::Weakening => "weakening",
        SynapseState::Dormant => "dormant",
        SynapseState::Pruned => "pruned",
    }
}

/// The state that a text names.
pub fn state_from_str(text: &str) -> (r: StoreResult<SynapseState>)
    ensures
        match r {
            Ok(state) => text@ == state_text(state),
            Err(e) => (forall|state: SynapseState| text@ != #[trigger] state_text(state)) && (
            e matches StoreError::Corrupt { table, .. } && table@ == "synapses"@),
        },
{
    if same_text(text, "forming") {
        Ok(SynapseState::Forming)
    } else if same_text(text, "active") {
        Ok(SynapseState::Active)
    } else if same_text(text, "weakening") {
        Ok(SynapseState::Weakening)
    } else if same_text(text, "dormant") {
        Ok(SynapseState::Dormant)
    } else if same_text(text, "pruned") {
        Ok(SynapseState::Pruned)
    } else {
        Err(corrupt("synapses", "unknown state ", text))
    }
}

/// The text of a provenance.
pub open spec fn source_text(source: PeerSource) -> Seq<char> {
    match source {
        PeerSource::Configured => "configured"@,
        PeerSource::Bootstrap => "bootstrap"@,
        PeerSource::Discovered => "discovered"@,
        PeerSource::Observed => "observed"@,
    }
}

/// The text of a provenance.
pub fn source_to_str(source: PeerSource) -> (r: &'static str)
    ensures
        r@ == source_text(source),
{
    match source {
        PeerSource::Configured => "configured",
        PeerSource::Bootstrap => "bootstrap",
        PeerSource::Discovered => "discovered",
        PeerSource::Observed => "observed",
    }
}

/// The provenance that a text names.
pub fn source_from_str(text: &str) -> (r: StoreResult<PeerSource>)
    ensures
        match r {
            Ok(source) => text@ == source_text(source),
            Err(e) => (forall|source: PeerSource| text@ != #[trigger] source_text(source)) && (
            e matches StoreError::Corrupt { table, .. } && table@ == "peers"@),
        },
{
    if same_text(text, "configured") {
        Ok(PeerSource::Configured)
    } else if same_text(text, "bootstrap") {
        Ok(PeerSource::Bootstrap)
    } else if same_text(text, "discovered") {
        Ok(PeerSource::Discovered)
    } else if same_text(text, "observed") {
        Ok(PeerSource::Observed)
    } else {
        Err(corrupt("peers", "unknown source ", text))
    }
}

/// The text of an outcome.
pub open spec fn outcome_text(outcome: Outcome) -> Seq<char> {
    match outcome {
        Outcome::Pending => "pending"@,
        Outcome::Delivered => "delivered"@,
        Outcome::Rejected => "rejected"@,
        Outcome::TimedOut => "timed_out"@,
        Outcome::TransportFailure => "transport_failure"@,
        Outcome::SignatureFailure => "signature_failure"@,
    }
}

/// The text of an outcome.
pub fn outcome_to_str(outcome: Outcome) -> (r: &'static str)
    ensures
        r@ == outcome_text(outcome),
{
    match outcome {
        Outcome::Pending => "pending",
        Outcome::Delivered => "delivered",
        Outcome::Rejected => "rejected",
        Outcome::TimedOut => "timed_out",
        Outcome::TransportFailure => "transport_failure",
        Outcome::SignatureFailure => "signature_failure",
    }
}

/// The outcome that a text names.
pub fn outcome_from_str(text: &str) -> (r: StoreResult<Outcome>)
    ensures
        match r {
            Ok(outcome) => text@ == outcome_text(outcome),
            Err(e) => (forall|outcome: Outcome| text@ != #[trigger] outcome_text(outcome)) && (
            e matches StoreError::Corrupt { table, .. } && table@ == "journal"@),
        },
{
    if same_text(text, "pending") {
        Ok(Outcome::Pending)
    } else if same_text(text, "delivered") {
        Ok(Outcome::Delivered)
    } else if same_text(text, "rejected") {
        Ok(Outcome::Rejected)
    } else if same_text(text, "timed_out") {
        Ok(Outcome::TimedOut)
    } else if same_text(text, "transport_failure") {
        Ok(Outcome::TransportFailure)
    } else if same_text(text, "signature_failure") {
        Ok(Outcome::SignatureFailure)
    } else {
        Err(corrupt("journal", "unknown outcome ", text))
    }
}

/// Different states, provenances and outcomes have different texts, so each is
/// read back as it was written.
pub proof fn lemma_texts_differ(
    state: SynapseState,
    other_state: SynapseState,
    source: PeerSource,
    other_source: PeerSource,
    outcome: Outcome,
    other_outcome: Outcome,
)
    ensures
        state_text(state) == state_text(other_state) ==> state == other_state,
        source_text(source) == source_text(other_source) ==> source == other_source,
        outcome_text(outcome) == outcome_text(other_outcome) ==> outcome == other_outcome,
{
    reveal_strlit("forming");
    reveal_strlit("active");
    reveal_strlit("weakening");
    reveal_strlit("dormant");
    reveal_strlit("pruned");
    reveal_strlit("configured");
    reveal_strlit("bootstrap");
    reveal_strlit("discovered");
    reveal_strlit("observed");
    reveal_strlit("pending");
    reveal_strlit("delivered");
    reveal_strlit("rejected");
    reveal_strlit("timed_out");
    reveal_strlit("transport_failure");
    reveal_strlit("signature_failure");
    assert("forming"@[0] == 'f' && "active"@[0] == 'a' && "weakening"@[0] == 'w' && "dormant"@[0]
        == 'd' && "pruned"@[0] == 'p');
    assert("configured"@[0] == 'c' && "bootstrap"@[0] == 'b' && "discovered"@[0] == 'd'
        && "observed"@[0] == 'o');
    assert("pending"@[0] == 'p' && "delivered"@[0] == 'd' && "rejected"@[0] == 'r' && "timed_out"@[0]
        == 't' && "timed_out"@[1] == 'i' && "transport_failure"@[0] == 't'
        && "transport_failure"@[1] == 'r' && "signature_failure"@[0] == 's');
}

/// The text of a signal type. An application-defined one is marked, so that it
/// is not taken for another.
pub open spec fn type_text(t: TypeModel) -> Seq<char> {
    if t.byte == 15 {
        "custom:"@ + t.name
    } else {
        name_of_type(t)
    }
}

/// The text of a signal type.
pub fn signal_type_to_str(t: &SignalType) -> (r: String)
    ensures
        r@ == type_text(t@),
{
    match t {
        SignalType::Custom(name) => {
            let mut text: String = "custom:".to_string();
            text.append(name.as_str());
            text
        },
        _ => signal_type_name_of(t),
    }
}

/// The signal type that a text names.
pub fn signal_type_from_str(text: &str) -> (r: StoreResult<SignalType>)
    ensures
        match r {
            Ok(t) => text@ == type_text(t@),
            Err(e) => (forall|t: SignalType| text@ != #[trigger] type_text(t@)) && (
            e matches StoreError::Corrupt { table, .. } && table@ == "journal"@),
        },
{
    proof {
        reveal_strlit("custom:");
    }
    let len: usize = text.unicode_len();
    if len >= 7 && same_text(text.substring_char(0, 7), "custom:") {
        let name = text.substring_char(7, len).to_string();
        proof {
            assert(text@ =~= text@.subrange(0, 7) + text@.subrange(7, len as int));
            let t = SignalType::Custom(name);
            assert(text@ == type_text(t@));
        }
        return Ok(SignalType::Custom(name));
    }
    if same_text(text, "Data") {
        Ok(SignalType::Data)
    } else if same_text(text, "Query") {
        Ok(SignalType::Query)
    } else if same_text(text, "Event") {
        Ok(SignalType::Event)
    } else if same_text(text, "Command") {
        Ok(SignalType::Command)
    } else if same_text(text, "Heartbeat") {
        Ok(SignalType::Heartbeat)
    } else if same_text(text, "Discovery") {
        Ok(SignalType::Discovery)
    } else if same_text(text, "Receipt") {
        Ok(SignalType::Receipt)
    } else {
        proof {
            assert forall|t: SignalType| text@ != #[trigger] type_text(t@) by {
                match t {
                    SignalType::Custom(name) => {
                        let whole = "custom:"@ + name@;
                        if text@ == whole {
                            assert(whole.subrange(0, 7) =~= "custom:"@);
                        }
                    },
                    _ => {},
                }
            }
        }
        Err(corrupt("journal", "unknown signal type ", text))
    }
}

/// Different types have different texts, so each is read back as it was written,
/// an application-defined one with its name.
pub proof fn lemma_types_round_trip(a: SignalType, b: SignalType)
    requires
        type_text(a@) == type_text(b@),
    ensures
        a@ == b@,
        a is Custom <==> b is Custom,
{
    reveal_strlit("custom:");
    reveal_strlit("Data");
    reveal_strlit("Query");
    reveal_strlit("Event");
    reveal_strlit("Command");
    reveal_strlit("Heartbeat");
    reveal_strlit("Discovery");
    reveal_strlit("Receipt");
    let x = "custom:"@ + a@.name;
    let y = "custom:"@ + b@.name;
    assert(x[0] == 'c' && y[0] == 'c');
    assert("Data"@[0] == 'D' && "Data"@[1] == 'a' && "Query"@[0] == 'Q' && "Event"@[0] == 'E'
        && "Command"@[0] == 'C' && "Heartbeat"@[0] == 'H' && "Discovery"@[0] == 'D'
        && "Discovery"@[1] == 'i' && "Receipt"@[0] == 'R');
    assert(x.skip(7) =~= a@.name);
    assert(y.skip(7) =~= b@.name);
}

/// The counts in a JSON object of numbers, by name.
pub uninterp spec fn json_counts_of(text: Seq<char>) -> Option<Seq<(Seq<char>, u64)>>;

/// The texts in a JSON array of strings.
pub uninterp spec fn json_texts_of(text: Seq<char>) -> Option<Seq<Seq<char>>>;

/// Counts as values.
pub open spec fn count_pairs(list: Seq<(String, u64)>) -> AffinityModel {
    list.map_values(|e: (String, u64)| (e.0@, e.1))
}

/// Whether no name has two counts.
pub open spec fn names_differ(m: AffinityModel) -> bool {
    forall|i: int, j: int| 0 <= i < j < m.len() ==> (#[trigger] m[i]).0 != (#[trigger] m[j]).0
}

/// Whether two lists give every name the same count.
pub open spec fn same_counts(a: AffinityModel, b: AffinityModel) -> bool {
    forall|name: Seq<char>|
        #![trigger counted(a, name)]
        #![trigger counted(b, name)]
        counted(a, name) == counted(b, name) && count_of(a, name) == count_of(b, name)
}

/// Calls `serde_json::from_str`. The counts depend on the text alone, and each
/// name has one.
#[verifier::external_body]
fn parse_counts(text: &str) -> (r: Option<Vec<(String, u64)>>)
    ensures
        match r {
            Some(list) => json_counts_of(text@) == Some(count_pairs(list@)) && names_differ(
                count_pairs(list@),
            ),
            None => json_counts_of(text@) is None,
        },
{
    let map: std::collections::BTreeMap<String, u64> = serde_json::from_str(text).ok()?;
    Some(map.into_iter().collect())
}

/// The text of a JSON object of counts.
pub uninterp spec fn json_counts_text(counts: Seq<(Seq<char>, u64)>) -> Seq<char>;

/// The text of a JSON array of strings.
pub uninterp spec fn json_texts_text(list: Seq<Seq<char>>) -> Seq<char>;

/// Calls `serde_json::to_string`. The text depends on the counts alone. Where no
/// name has two, it is read back as the same counts; nothing is claimed of their
/// order.
#[verifier::external_body]
fn render_counts(list: &Vec<(String, u64)>) -> (r: String)
    ensures
        r@ == json_counts_text(count_pairs(list@)),
        json_counts_of(r@) is Some,
        names_differ(count_pairs(list@)) ==> same_counts(
            json_counts_of(r@)->0,
            count_pairs(list@),
        ),
{
    let map: std::collections::BTreeMap<String, u64> = list.iter().cloned().collect();
    serde_json::to_string(&map).unwrap()
}

/// Calls `serde_json::from_str`. The texts depend on the text alone.
#[verifier::external_body]
fn parse_texts(text: &str) -> (r: Option<Vec<String>>)
    ensures
        match r {
            Some(list) => json_texts_of(text@) == Some(texts(list@)),
            None => json_texts_of(text@) is None,
        },
{
    serde_json::from_str(text).ok()
}

/// Calls `serde_json::to_string`. The text depends on the texts alone, and is
/// read back as them.
#[verifier::external_body]
fn render_texts(list: &Vec<String>) -> (r: String)
    ensures
        r@ == json_texts_text(texts(list@)),
        json_texts_of(r@) == Some(texts(list@)),
{
    serde_json::to_string(list).unwrap()
}

/// A synapse as the columns of a row.
#[derive(Debug)]
pub struct SynapseColumns {
    /// Identifier.
    pub id: String,
    /// Peer.
    pub peer: Vec<u8>,
    /// Weight.
    pub weight: Scalar,
    /// Attenuation factor.
    pub attenuation_factor: Scalar,
    /// State.
    pub state: String,
    /// Counts by signal type, as JSON.
    pub type_affinity: String,
    /// When it was established.
    pub established_at_ns: i64,
    /// When it was last active.
    pub last_active_ns: i64,
    /// Signals transmitted.
    pub signals_transmitted: i64,
    /// Signals received.
    pub signals_received: i64,
    /// Average latency.
    pub avg_latency_ns: i64,
    /// Error rate.
    pub error_rate: Scalar,
    /// Signature failures.
    pub signature_failures: i64,
    /// When the failure window began.
    pub failure_window_start_ns: i64,
}

/// A number of failures from a column.
pub open spec fn failures_in(column: i64) -> u32 {
    if column < 0 {
        0
    } else if column > u32::MAX {
        u32::MAX
    } else {
        column as u32
    }
}

impl SynapseColumns {
    /// Whether a record is what the columns hold.
    pub open spec fn holds(&self, row: SynapseRow) -> bool {
        &&& row.id == self.id@
        &&& row.peer == self.peer@
        &&& row.weight == self.weight
        &&& row.attenuation_factor == self.attenuation_factor
        &&& state_text(row.state) == self.state@
        &&& json_counts_of(self.type_affinity@) == Some(row.type_affinity)
        &&& row.established_at_ns == number_in(self.established_at_ns)
        &&& row.last_active_ns == number_in(self.last_active_ns)
        &&& row.signals_transmitted == number_in(self.signals_transmitted)
        &&& row.signals_received == number_in(self.signals_received)
        &&& row.avg_latency_ns == number_in(self.avg_latency_ns)
        &&& row.error_rate == self.error_rate
        &&& row.signature_failures == failures_in(self.signature_failures)
        &&& row.failure_window_start_ns == number_in(self.failure_window_start_ns)
    }

    /// Whether the columns are those of a record: each number saturated, the
    /// counts as JSON.
    pub open spec fn holds_saturated(&self, row: SynapseRow) -> bool {
        &&& self.id@ == row.id
        &&& self.peer@ == row.peer
        &&& self.weight == row.weight
        &&& self.attenuation_factor == row.attenuation_factor
        &&& self.state@ == state_text(row.state)
        &&& self.type_affinity@ == json_counts_text(row.type_affinity)
        &&& json_counts_of(self.type_affinity@) is Some
        &&& names_differ(row.type_affinity) ==> same_counts(
            json_counts_of(self.type_affinity@)->0,
            row.type_affinity,
        )
        &&& self.established_at_ns == column_of(row.established_at_ns)
        &&& self.last_active_ns == column_of(row.last_active_ns)
        &&& self.signals_transmitted == column_of(row.signals_transmitted)
        &&& self.signals_received == column_of(row.signals_received)
        &&& self.avg_latency_ns == column_of(row.avg_latency_ns)
        &&& self.error_rate == row.error_rate
        &&& self.signature_failures == row.signature_failures
        &&& self.failure_window_start_ns == column_of(row.failure_window_start_ns)
    }
}

/// The columns of a synapse record.
pub fn synapse_to_columns(record: &SynapseRecord) -> (r: SynapseColumns)
    ensures
        r.holds_saturated(record@),
{
    let mut list: Vec<(String, u64)> = Vec::new();
    let mut i: usize = 0;
    while i < record.type_affinity.len()
        invariant
            i <= record.type_affinity@.len(),
            list@.len() == i,
            forall|k: int| 0 <= k < i ==> count_pairs(list@)[k] == #[trigger] record.type_affinity@[k],
        decreases record.type_affinity@.len() - i,
    {
        let ghost before = list@;
        let entry: (String, u64) = record.type_affinity.entry(i);
        list.push(entry);
        assert forall|k: int| 0 <= k < i + 1 implies count_pairs(list@)[k]
            == #[trigger] record.type_affinity@[k] by {
            if k < i {
                assert(count_pairs(before)[k] == record.type_affinity@[k]);
            }
        }
        i = i + 1;
    }
    assert(count_pairs(list@) =~= record.type_affinity@);
    SynapseColumns {
        id: record.id.0.clone(),
        peer: copy_bytes(&record.peer.0),
        weight: record.weight,
        attenuation_factor: record.attenuation_factor,
        state: state_to_str(record.state).to_string(),
        type_affinity: render_counts(&list),
        established_at_ns: to_i64(record.established_at_ns),
        last_active_ns: to_i64(record.last_active_ns),
        signals_transmitted: to_i64(record.signals_transmitted),
        signals_received: to_i64(record.signals_received),
        avg_latency_ns: to_i64(record.avg_latency_ns),
        error_rate: record.error_rate,
        signature_failures: record.signature_failures as i64,
        failure_window_start_ns: to_i64(record.failure_window_start_ns),
    }
}

/// The synapse record that columns hold.
pub fn synapse_from_columns(columns: &SynapseColumns) -> (r: StoreResult<SynapseRecord>)
    ensures
        match r {
            Ok(record) => columns.holds(record@),
            Err(e) => (e matches StoreError::Corrupt { table, .. } && table@ == "synapses"@) && ((
            forall|state: SynapseState| columns.state@ != #[trigger] state_text(state))
                || json_counts_of(columns.type_affinity@) is None),
        },
{
    let state = match state_from_str(columns.state.as_str()) {
        Ok(state) => state,
        Err(e) => return Err(e),
    };
    let list = match parse_counts(columns.type_affinity.as_str()) {
        Some(list) => list,
        None => return Err(
            corrupt("synapses", "type_affinity: ", columns.type_affinity.as_str()),
        ),
    };
    let ghost pairs = count_pairs(list@);
    let mut affinity = Affinity::new();
    let mut i: usize = 0;
    assert(pairs.take(0) =~= AffinityModel::empty());
    while i < list.len()
        invariant
            i <= list@.len(),
            pairs == count_pairs(list@),
            names_differ(pairs),
            affinity@ == pairs.take(i as int),
        decreases list@.len() - i,
    {
        proof {
            assert(list@[i as int].0@ == pairs[i as int].0);
            assert(!counted(pairs.take(i as int), pairs[i as int].0)) by {
                if counted(pairs.take(i as int), pairs[i as int].0) {
                    let k = choose|k: int|
                        0 <= k < pairs.take(i as int).len() && (#[trigger] pairs.take(i as int)[k]).0
                            == pairs[i as int].0;
                    assert(pairs[k].0 != pairs[i as int].0);
                }
            }
        }
        affinity.insert(list[i].0.as_str(), list[i].1);
        i = i + 1;
        assert(affinity@ =~= pairs.take(i as int));
    }
    assert(pairs.take(pairs.len() as int) =~= pairs);
    let failures: u32 = if columns.signature_failures < 0 {
        0
    } else if columns.signature_failures > u32::MAX as i64 {
        u32::MAX
    } else {
        columns.signature_failures as u32
    };
    Ok(
        SynapseRecord {
            id: SynapseId(columns.id.clone()),
            peer: NodeId(copy_bytes(&columns.peer)),
            weight: columns.weight,
            attenuation_factor: columns.attenuation_factor,
            state,
            type_affinity: affinity,
            established_at_ns: from_i64(columns.established_at_ns),
            last_active_ns: from_i64(columns.last_active_ns),
            signals_transmitted: from_i64(columns.signals_transmitted),
            signals_received: from_i64(columns.signals_received),
            avg_latency_ns: from_i64(columns.avg_latency_ns),
            error_rate: columns.error_rate,
            signature_failures: failures,
            failure_window_start_ns: from_i64(columns.failure_window_start_ns),
        },
    )
}

/// A record whose numbers fit a column is read back as it was written, with the
/// same counts.
pub proof fn lemma_synapse_round_trip(columns: SynapseColumns, row: SynapseRow, again: SynapseRow)
    requires
        columns.holds_saturated(row),
        columns.holds(again),
        names_differ(row.type_affinity),
        row.established_at_ns <= i64::MAX,
        row.last_active_ns <= i64::MAX,
        row.signals_transmitted <= i64::MAX,
        row.signals_received <= i64::MAX,
        row.avg_latency_ns <= i64::MAX,
        row.failure_window_start_ns <= i64::MAX,
    ensures
        again == (SynapseRow { type_affinity: again.type_affinity, ..row }),
        same_counts(again.type_affinity, row.type_affinity),
{
    lemma_texts_differ(
        again.state,
        row.state,
        PeerSource::Observed,
        PeerSource::Observed,
        Outcome::Pending,
        Outcome::Pending,
    );
}

/// The beginning of every query of synapses.
pub const SYNAPSE_QUERY: &'static str =
    "SELECT id, peer, weight, attenuation_factor, state, type_affinity, established_at_ns, last_active_ns, signals_transmitted, signals_received, avg_latency_ns, error_rate, signature_failures, failure_window_start_ns FROM synapses WHERE 1=1";

/// An argument of a query.
#[derive(Debug, PartialEq)]
pub enum Argument {
    /// A text.
    Text(&'static str),
    /// A real number.
    Real(Scalar),
    /// A whole number.
    Whole(i64),
}

/// An argument as a value.
pub enum ArgumentRow {
    /// A text.
    Text(Seq<char>),
    /// A real number.
    Real(Scalar),
    /// A whole number.
    Whole(i64),
}

impl View for Argument {
    type V = ArgumentRow;

    open spec fn view(&self) -> ArgumentRow {
        match self {
            Argument::Text(text) => ArgumentRow::Text(text@),
            Argument::Real(number) => ArgumentRow::Real(*number),
            Argument::Whole(number) => ArgumentRow::Whole(*number),
        }
    }
}

/// Arguments as values.
pub open spec fn argument_rows(list: Seq<Argument>) -> Seq<ArgumentRow> {
    list.map_values(|a: Argument| a@)
}

/// As many placeholders, with commas between them.
pub open spec fn placeholders(n: nat) -> Seq<char>
    decreases n,
{
    if n == 0 {
        Seq::empty()
    } else if n == 1 {
        "?"@
    } else {
        placeholders((n - 1) as nat) + ",?"@
    }
}

/// The text of the query for the synapses that pass a filter, heaviest first,
/// and of two equally heavy ones the one with the lesser identifier first.
pub open spec fn query_text(filter: FilterModel) -> Seq<char> {
    let by_state = if filter.states.len() == 0 {
        SYNAPSE_QUERY@
    } else {
        SYNAPSE_QUERY@ + " AND state IN ("@ + placeholders(filter.states.len()) + ")"@
    };
    let by_weight = if filter.min_weight is Some {
        by_state + " AND weight >= ?"@
    } else {
        by_state
    };
    let by_activity = if filter.last_active_before_ns is Some {
        by_weight + " AND last_active_ns < ?"@
    } else {
        by_weight
    };
    let ordered = by_activity + " ORDER BY weight DESC, id ASC"@;
    if filter.limit is Some {
        ordered + " LIMIT ?"@
    } else {
        ordered
    }
}

/// The arguments of the query for the synapses that pass a filter, one for each
/// placeholder.
pub open spec fn query_arguments(filter: FilterModel) -> Seq<ArgumentRow> {
    let by_state = filter.states.map_values(
        |state: SynapseState| ArgumentRow::Text(state_text(state)),
    );
    let by_weight = match filter.min_weight {
        Some(least) => by_state.push(ArgumentRow::Real(least)),
        None => by_state,
    };
    let by_activity = match filter.last_active_before_ns {
        Some(end) => by_weight.push(ArgumentRow::Whole(column_of(end))),
        None => by_weight,
    };
    match filter.limit {
        Some(limit) => by_activity.push(ArgumentRow::Whole(column_of(limit as u64))),
        None => by_activity,
    }
}

/// The query for the synapses that pass a filter, and its arguments.
pub fn synapse_query(filter: &SynapseFilter) -> (r: (String, Vec<Argument>))
    ensures
        r.0@ == query_text(filter@),
        argument_rows(r.1@) == query_arguments(filter@),
{
    let mut sql: String = SYNAPSE_QUERY.to_string();
    let mut args: Vec<Argument> = Vec::new();
    let count: usize = filter.states.len();
    let mut marks: String = "".to_string();
    let mut i: usize = 0;
    proof {
        reveal_strlit("");
        assert(marks@ =~= placeholders(0));
    }
    while i < count
        invariant
            count == filter.states@.len(),
            i <= count,
            marks@ == placeholders(i as nat),
            args@.len() == i,
            forall|k: int|
                0 <= k < i ==> (#[trigger] args@[k])@ == ArgumentRow::Text(
                    state_text(filter.states@[k]),
                ),
        decreases count - i,
    {
        let ghost before = marks@;
        if i == 0 {
            marks = "?".to_string();
        } else {
            marks.append(",?");
        }
        args.push(Argument::Text(state_to_str(filter.states[i])));
        i = i + 1;
        assert(marks@ =~= placeholders(i as nat));
    }
    assert(argument_rows(args@) =~= filter@.states.map_values(
        |state: SynapseState| ArgumentRow::Text(state_text(state)),
    ));
    if count > 0 {
        sql.append(" AND state IN (");
        sql.append(marks.as_str());
        sql.append(")");
    }
    let ghost by_state = argument_rows(args@);
    if let Some(least) = filter.min_weight {
        sql.append(" AND weight >= ?");
        args.push(Argument::Real(least));
        assert(argument_rows(args@) =~= by_state.push(ArgumentRow::Real(least)));
    }
    let ghost by_weight = argument_rows(args@);
    if let Some(end) = filter.last_active_before_ns {
        sql.append(" AND last_active_ns < ?");
        args.push(Argument::Whole(to_i64(end)));
        assert(argument_rows(args@) =~= by_weight.push(ArgumentRow::Whole(column_of(end))));
    }
    sql.append(" ORDER BY weight DESC, id ASC");
    let ghost by_activity = argument_rows(args@);
    if let Some(limit) = filter.limit {
        sql.append(" LIMIT ?");
        args.push(Argument::Whole(to_i64(limit as u64)));
        assert(argument_rows(args@) =~= by_activity.push(
            ArgumentRow::Whole(column_of(limit as u64)),
        ));
    }
    (sql, args)
}

/// A decision as the columns of a row.
#[derive(Debug)]
pub struct JournalColumns {
    /// Identifier.
    pub id: i64,
    /// Signal.
    pub signal: Vec<u8>,
    /// Signal type.
    pub signal_type: String,
    /// Synapse.
    pub synapse: String,
    /// Peer.
    pub peer: Vec<u8>,
    /// Score.
    pub score: Scalar,
    /// Weight of the signal.
    pub signal_weight: Scalar,
    /// Whether the choice was exploratory.
    pub explored: i64,
    /// When it was decided.
    pub decided_at_ns: i64,
    /// Outcome.
    pub outcome: String,
    /// When it was resolved.
    pub resolved_at_ns: Option<i64>,
}

/// The identifier of a signal from a column. It must have 16 bytes.
pub fn signal_id_from_blob(blob: &Vec<u8>) -> (r: StoreResult<SignalId>)
    ensures
        match r {
            Ok(id) => be_bytes(id@) == blob@,
            Err(e) => blob@.len() != 16 && (e matches StoreError::Corrupt { table, .. } && table@
                == "signal id"@),
        },
{
    if blob.len() != 16 {
        return Err(corrupt("signal id", "expected 16 bytes", ""));
    }
    let bytes: [u8; 16] = [
        blob[0],
        blob[1],
        blob[2],
        blob[3],
        blob[4],
        blob[5],
        blob[6],
        blob[7],
        blob[8],
        blob[9],
        blob[10],
        blob[11],
        blob[12],
        blob[13],
        blob[14],
        blob[15],
    ];
    assert(bytes@ =~= blob@);
    Ok(SignalId::from_bytes(bytes))
}

impl JournalColumns {
    /// Whether an entry is what the columns hold.
    pub open spec fn holds(&self, row: JournalRow) -> bool {
        &&& row.id == Some(JournalId(number_in(self.id)))
        &&& be_bytes(row.signal@) == self.signal@
        &&& type_text(row.signal_type) == self.signal_type@
        &&& row.synapse == self.synapse@
        &&& row.peer == self.peer@
        &&& row.score == self.score
        &&& row.signal_weight == self.signal_weight
        &&& row.explored == (self.explored != 0)
        &&& row.decided_at_ns == number_in(self.decided_at_ns)
        &&& outcome_text(row.outcome) == self.outcome@
        &&& match self.resolved_at_ns {
            Some(at) => row.resolved_at_ns == Some(number_in(at)),
            None => row.resolved_at_ns is None,
        }
    }
}

impl JournalColumns {
    /// Whether the columns but the identifier are those of an entry: each
    /// instant saturated.
    pub open spec fn holds_decision(&self, row: JournalRow) -> bool {
        &&& self.signal@ == be_bytes(row.signal@)
        &&& self.signal_type@ == type_text(row.signal_type)
        &&& self.synapse@ == row.synapse
        &&& self.peer@ == row.peer
        &&& self.score == row.score
        &&& self.signal_weight == row.signal_weight
        &&& self.explored == (if row.explored {
            1int
        } else {
            0
        })
        &&& self.decided_at_ns == column_of(row.decided_at_ns)
        &&& self.outcome@ == outcome_text(row.outcome)
        &&& match row.resolved_at_ns {
            Some(at) => self.resolved_at_ns == Some(column_of(at)),
            None => self.resolved_at_ns is None,
        }
    }
}

/// The journal entry that columns hold.
pub fn journal_from_columns(columns: &JournalColumns) -> (r: StoreResult<JournalEntry>)
    ensures
        match r {
            Ok(entry) => columns.holds(entry@),
            Err(e) => e is Corrupt && (columns.signal@.len() != 16 || (forall|t: SignalType|
                columns.signal_type@ != #[trigger] type_text(t@)) || (forall|outcome: Outcome|
                columns.outcome@ != #[trigger] outcome_text(outcome))),
        },
{
    let signal = match signal_id_from_blob(&columns.signal) {
        Ok(id) => id,
        Err(e) => return Err(e),
    };
    let signal_type = match signal_type_from_str(columns.signal_type.as_str()) {
        Ok(t) => t,
        Err(e) => return Err(e),
    };
    let outcome = match outcome_from_str(columns.outcome.as_str()) {
        Ok(outcome) => outcome,
        Err(e) => return Err(e),
    };
    Ok(
        JournalEntry {
            id: Some(JournalId(from_i64(columns.id))),
            signal,
            signal_type,
            synapse: SynapseId(columns.synapse.clone()),
            peer: NodeId(copy_bytes(&columns.peer)),
            score: columns.score,
            signal_weight: columns.signal_weight,
            explored: columns.explored != 0,
            decided_at_ns: from_i64(columns.decided_at_ns),
            outcome,
            resolved_at_ns: match columns.resolved_at_ns {
                Some(at) => Some(from_i64(at)),
                None => None,
            },
        },
    )
}

/// The columns of a journal entry that is to be appended. The database assigns
/// the identifier.
pub fn journal_to_columns(entry: &JournalEntry) -> (r: JournalColumns)
    ensures
        r.holds_decision(entry@),
{
    let bytes: [u8; 16] = entry.signal.to_bytes();
    let mut signal: Vec<u8> = Vec::new();
    let mut i: usize = 0;
    while i < 16
        invariant
            i <= 16,
            bytes@.len() == 16,
            signal@ == bytes@.take(i as int),
        decreases 16 - i,
    {
        assert(bytes@.take(i + 1) =~= bytes@.take(i as int).push(bytes@[i as int]));
        signal.push(bytes[i]);
        i = i + 1;
    }
    assert(bytes@.take(16) =~= bytes@);
    JournalColumns {
        id: 0,
        signal,
        signal_type: signal_type_to_str(&entry.signal_type),
        synapse: entry.synapse.0.clone(),
        peer: copy_bytes(&entry.peer.0),
        score: entry.score,
        signal_weight: entry.signal_weight,
        explored: if entry.explored {
            1
        } else {
            0
        },
        decided_at_ns: to_i64(entry.decided_at_ns),
        outcome: outcome_to_str(entry.outcome).to_string(),
        resolved_at_ns: match entry.resolved_at_ns {
            Some(at) => Some(to_i64(at)),
            None => None,
        },
    }
}

/// A peer as the columns of a row.
#[derive(Debug)]
pub struct PeerColumns {
    /// Identity.
    pub id: Vec<u8>,
    /// Addresses, as JSON.
    pub addresses: String,
    /// Region.
    pub region: Option<String>,
    /// Advertised types, as JSON.
    pub advertised_types: String,
    /// When it was last seen.
    pub last_seen_ns: i64,
    /// Provenance.
    pub source: String,
}

impl PeerColumns {
    /// Whether a record is what the columns hold.
    pub open spec fn holds(&self, row: PeerRow) -> bool {
        &&& row.id == self.id@
        &&& json_texts_of(self.addresses@) == Some(row.addresses)
        &&& row.region == text_of(self.region)
        &&& json_texts_of(self.advertised_types@) == Some(row.advertised_types)
        &&& row.last_seen_ns == number_in(self.last_seen_ns)
        &&& source_text(row.source) == self.source@
    }
}

/// The columns of a peer record. They hold it, with the instant saturated.
pub fn peer_to_columns(record: &PeerRecord) -> (r: PeerColumns)
    ensures
        r.holds(
            PeerRow {
                last_seen_ns: number_in(column_of(record@.last_seen_ns)),
                ..record@
            },
        ),
        r.addresses@ == json_texts_text(record@.addresses),
        r.advertised_types@ == json_texts_text(record@.advertised_types),
{
    PeerColumns {
        id: copy_bytes(&record.id.0),
        addresses: render_texts(&record.addresses),
        region: match &record.region {
            Some(region) => Some(region.clone()),
            None => None,
        },
        advertised_types: render_texts(&record.advertised_types),
        last_seen_ns: to_i64(record.last_seen_ns),
        source: source_to_str(record.source).to_string(),
    }
}

/// The peer record that columns hold.
pub fn peer_from_columns(columns: &PeerColumns) -> (r: StoreResult<PeerRecord>)
    ensures
        match r {
            Ok(record) => columns.holds(record@),
            Err(e) => (e matches StoreError::Corrupt { table, .. } && table@ == "peers"@) && (
            json_texts_of(columns.addresses@) is None || json_texts_of(columns.advertised_types@)
                is None || (forall|source: PeerSource|
                columns.source@ != #[trigger] source_text(source))),
        },
{
    let addresses = match parse_texts(columns.addresses.as_str()) {
        Some(list) => list,
        None => return Err(corrupt("peers", "addresses: ", columns.addresses.as_str())),
    };
    let advertised_types = match parse_texts(columns.advertised_types.as_str()) {
        Some(list) => list,
        None => return Err(
            corrupt("peers", "advertised_types: ", columns.advertised_types.as_str()),
        ),
    };
    let source = match source_from_str(columns.source.as_str()) {
        Ok(source) => source,
        Err(e) => return Err(e),
    };
    Ok(
        PeerRecord {
            id: NodeId(copy_bytes(&columns.id)),
            addresses,
            region: match &columns.region {
                Some(region) => Some(region.clone()),
                None => None,
            },
            advertised_types,
            last_seen_ns: from_i64(columns.last_seen_ns),
            source,
        },
    )
}

/// A peer record whose instant fits a column is read back as it was written.
pub proof fn lemma_peer_round_trip(columns: PeerColumns, row: PeerRow, again: PeerRow)
    requires
        columns.holds(
            PeerRow { last_seen_ns: number_in(column_of(row.last_seen_ns)), ..row },
        ),
        columns.holds(again),
        row.last_seen_ns <= i64::MAX,
    ensures
        again == row,
{
    lemma_texts_differ(
        SynapseState::Active,
        SynapseState::Active,
        row.source,
        again.source,
        Outcome::Pending,
        Outcome::Pending,
    );
}

/// A journal entry whose instants fit a column is read back as it was written,
/// under the identifier that the database assigned.
pub proof fn lemma_journal_round_trip(
    columns: JournalColumns,
    entry: JournalEntry,
    again: JournalEntry,
)
    requires
        columns.holds(again@),
        columns.holds_decision(entry@),
        entry@.decided_at_ns <= i64::MAX,
        entry@.resolved_at_ns matches Some(at) ==> at <= i64::MAX,
    ensures
        again@ == (JournalRow { id: Some(JournalId(number_in(columns.id))), ..entry@ }),
{
    lemma_texts_differ(
        SynapseState::Active,
        SynapseState::Active,
        PeerSource::Observed,
        PeerSource::Observed,
        entry.outcome,
        again.outcome,
    );
    crate::signal::lemma_id_bytes_round_trip(entry.signal, again.signal);
    lemma_types_round_trip(entry.signal_type, again.signal_type);
}

} // verus!
