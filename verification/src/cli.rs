//! What the command line program reads and reports. The program itself does the
//! printing.

use vstd::prelude::*;

use crate::delivery::DeliveryClass;
use crate::learning::{running_sum, DeploymentClass};
use crate::order::{same_text, sort_stably, sorts, Placed};
use crate::scalar::{Scalar, ONE, ZERO};
use crate::signal::{texts, Signal, SignalBuilder, SignalDraft, SignalType, TypeModel};
use crate::store::{chars_of, journal_rows, rows, JournalEntry, JournalRow, Outcome, SynapseRecord, SynapseRow};

verus! {

/// The pattern of a hundred.
pub const HUNDRED: u32 = 0x42C8_0000;

/// The pattern of eighty.
pub const EIGHTY: u32 = 0x42A0_0000;

/// A text in lower case.
pub uninterp spec fn lowercase_of(text: Seq<char>) -> Seq<char>;

/// A text without the white space around it.
pub uninterp spec fn trimmed_of(text: Seq<char>) -> Seq<char>;

/// Calls `str::to_lowercase`, whose result depends on the text alone.
#[verifier::external_body]
fn lowercase(text: &str) -> (r: String)
    ensures
        r@ == lowercase_of(text@),
{
    text.to_lowercase()
}

/// Calls `str::trim`, whose result depends on the text alone.
#[verifier::external_body]
fn trimmed(text: &str) -> (r: String)
    ensures
        r@ == trimmed_of(text@),
{
    text.trim().to_string()
}

/// The value that a JSON text holds, written out again.
pub uninterp spec fn json_value_text(text: Seq<char>) -> Option<Seq<char>>;

/// Calls `serde_json::from_str` for a `serde_json::Value`, and its `to_string`.
/// Whether a text is JSON, and what its value is written as, depends on the text
/// alone.
#[verifier::external_body]
fn json_value(text: &str) -> (r: Option<String>)
    ensures
        match r {
            Some(value) => json_value_text(text@) == Some(value@),
            None => json_value_text(text@) is None,
        },
{
    let value: serde_json::Value = serde_json::from_str(text).ok()?;
    Some(value.to_string())
}

/// The deployment class that a text names.
pub fn class_named(name: &str) -> (r: Option<DeploymentClass>)
    ensures
        r == (if name@ == "edge"@ {
            Some(DeploymentClass::Edge)
        } else if name@ == "full-node"@ {
            Some(DeploymentClass::FullNode)
        } else if name@ == "high-traffic"@ {
            Some(DeploymentClass::HighTraffic)
        } else {
            None
        }),
{
    if same_text(name, "edge") {
        Some(DeploymentClass::Edge)
    } else if same_text(name, "full-node") {
        Some(DeploymentClass::FullNode)
    } else if same_text(name, "high-traffic") {
        Some(DeploymentClass::HighTraffic)
    } else {
        None
    }
}

/// The wire byte of the type that a text in lower case names: an
/// application-defined type where it names none of the others.
pub open spec fn byte_named(name: Seq<char>) -> u8 {
    if name == "data"@ {
        0
    } else if name == "query"@ {
        1
    } else if name == "event"@ {
        2
    } else if name == "command"@ {
        3
    } else if name == "heartbeat"@ {
        4
    } else if name == "discovery"@ {
        5
    } else if name == "receipt"@ {
        6
    } else {
        15
    }
}

/// The type that a text in lower case names.
pub open spec fn type_named(name: Seq<char>) -> TypeModel {
    TypeModel {
        byte: byte_named(name),
        name: if byte_named(name) == 15 {
            name
        } else {
            Seq::empty()
        },
    }
}

/// The type that a text in lower case names.
pub fn type_of_name(name: &str) -> (r: SignalType)
    ensures
        r@ == type_named(name@),
{
    let r = if same_text(name, "data") {
        SignalType::Data
    } else if same_text(name, "query") {
        SignalType::Query
    } else if same_text(name, "event") {
        SignalType::Event
    } else if same_text(name, "command") {
        SignalType::Command
    } else if same_text(name, "heartbeat") {
        SignalType::Heartbeat
    } else if same_text(name, "discovery") {
        SignalType::Discovery
    } else if same_text(name, "receipt") {
        SignalType::Receipt
    } else {
        SignalType::Custom(name.to_string())
    };
    assert(r@.name =~= type_named(name@).name);
    r
}

/// The type that a text names, in whatever case.
pub fn parse_type_name(name: &str) -> (r: SignalType)
    ensures
        r@ == type_named(lowercase_of(name@)),
{
    let lowered = lowercase(name);
    type_of_name(lowered.as_str())
}

/// Why a signal type cannot be emitted by hand.
#[derive(Debug)]
pub enum TypeError {
    /// Receipts are emitted by the protocol: they must refer to a real
    /// decision.
    Receipt,
    /// The name is none of a type.
    Unknown(String),
}

/// The draft of a signal emitted by hand.
pub open spec fn draft_named(name: Seq<char>) -> SignalDraft {
    SignalDraft::fresh(
        type_named(name),
        if byte_named(name) == 5 {
            "discovery"@
        } else if byte_named(name) == 4 {
            "heartbeat"@
        } else {
            "cli"@
        },
    )
}

/// The builder of a signal of the type that a text in lower case names.
pub fn builder_of_name(name: &str) -> (r: Result<SignalBuilder, TypeError>)
    ensures
        match r {
            Ok(builder) => byte_named(name@) <= 5 && builder@ == draft_named(name@),
            Err(TypeError::Receipt) => byte_named(name@) == 6,
            Err(TypeError::Unknown(text)) => byte_named(name@) == 15 && text@ == name@,
        },
{
    match type_of_name(name) {
        SignalType::Data => {
            assert(draft_named(name@).signal_type.name =~= Seq::<char>::empty());
            Ok(Signal::data("cli"))
        },
        SignalType::Query => {
            assert(draft_named(name@).signal_type.name =~= Seq::<char>::empty());
            Ok(Signal::query("cli"))
        },
        SignalType::Event => {
            assert(draft_named(name@).signal_type.name =~= Seq::<char>::empty());
            Ok(Signal::event("cli"))
        },
        SignalType::Command => {
            assert(draft_named(name@).signal_type.name =~= Seq::<char>::empty());
            Ok(Signal::command("cli"))
        },
        SignalType::Discovery => {
            assert(draft_named(name@).signal_type.name =~= Seq::<char>::empty());
            Ok(Signal::discovery())
        },
        SignalType::Heartbeat => {
            assert(draft_named(name@).signal_type.name =~= Seq::<char>::empty());
            Ok(Signal::heartbeat())
        },
        SignalType::Receipt => Err(TypeError::Receipt),
        SignalType::Custom(_) => Err(TypeError::Unknown(name.to_string())),
    }
}

/// The builder of a signal of the type that a text names, in whatever case.
pub fn parse_type(name: &str) -> (r: Result<SignalBuilder, TypeError>)
    ensures
        match r {
            Ok(builder) => byte_named(lowercase_of(name@)) <= 5 && builder@ == draft_named(
                lowercase_of(name@),
            ),
            Err(TypeError::Receipt) => byte_named(lowercase_of(name@)) == 6,
            Err(TypeError::Unknown(text)) => byte_named(lowercase_of(name@)) == 15 && text@
                == lowercase_of(name@),
        },
{
    let lowered = lowercase(name);
    builder_of_name(lowered.as_str())
}

/// The parts of a text between its commas.
pub open spec fn parts_of(text: Seq<char>) -> Seq<Seq<char>>
    decreases text.len(),
{
    if text.len() == 0 {
        seq![Seq::empty()]
    } else {
        let before = parts_of(text.drop_last());
        if text.last() == ',' {
            before.push(Seq::empty())
        } else {
            before.update(before.len() - 1, before.last().push(text.last()))
        }
    }
}

/// The tags of a text: what stands between its commas, without the white space
/// around it.
pub fn parse_tags(raw: &str) -> (r: Vec<String>)
    ensures
        texts(r@) == parts_of(raw@).map_values(|part: Seq<char>| trimmed_of(part)),
{
    let ghost trim = |part: Seq<char>| trimmed_of(part);
    let ghost mut done: Seq<Seq<char>> = Seq::empty();
    let mut out: Vec<String> = Vec::new();
    let mut start: usize = 0;
    let mut i: usize = 0;
    let len: usize = raw.unicode_len();
    proof {
        assert(raw@.take(0) =~= Seq::<char>::empty());
        assert(raw@.subrange(0, 0) =~= Seq::<char>::empty());
        assert(parts_of(raw@.take(0)) =~= done.push(raw@.subrange(0, 0)));
        assert(texts(out@) =~= done.map_values(trim));
    }
    while i < len
        invariant
            len == raw@.len(),
            start <= i <= len,
            trim == (|part: Seq<char>| trimmed_of(part)),
            parts_of(raw@.take(i as int)) == done.push(raw@.subrange(start as int, i as int)),
            texts(out@) == done.map_values(trim),
        decreases len - i,
    {
        let c: char = raw.get_char(i);
        let ghost before = done.push(raw@.subrange(start as int, i as int));
        proof {
            assert(raw@.take(i + 1).drop_last() =~= raw@.take(i as int));
            assert(raw@.take(i + 1).last() == c);
        }
        if c == ',' {
            let ghost part = raw@.subrange(start as int, i as int);
            let ghost was = out@;
            let text = trimmed(raw.substring_char(start, i));
            out.push(text);
            proof {
                done = done.push(part);
                assert(texts(out@) =~= texts(was).push(text@));
                assert(texts(out@) =~= done.map_values(trim));
                assert(raw@.subrange(i + 1, i + 1) =~= Seq::<char>::empty());
                assert(parts_of(raw@.take(i + 1)) =~= done.push(raw@.subrange(i + 1, i + 1)));
            }
            start = i + 1;
        } else {
            proof {
                assert(raw@.subrange(start as int, i + 1) =~= raw@.subrange(
                    start as int,
                    i as int,
                ).push(c));
                assert(parts_of(raw@.take(i + 1)) =~= done.push(
                    raw@.subrange(start as int, i + 1),
                ));
            }
        }
        i = i + 1;
    }
    let ghost was = out@;
    let text = trimmed(raw.substring_char(start, len));
    out.push(text);
    proof {
        assert(raw@.take(len as int) =~= raw@);
        assert(texts(out@) =~= texts(was).push(text@));
        assert(texts(out@) =~= parts_of(raw@).map_values(trim));
    }
    out
}

/// The draft of a signal emitted by hand, of the type that a text in lower case
/// names.
pub open spec fn emission_named(
    name: Seq<char>,
    payload: Seq<char>,
    weight: Scalar,
    tags: Seq<Seq<char>>,
    acknowledged: bool,
) -> SignalDraft {
    let draft = draft_named(name);
    SignalDraft {
        payload,
        weight: weight.clamped(Scalar::from_bits(ZERO), Scalar::from_bits(ONE)),
        tags,
        delivery: if acknowledged {
            DeliveryClass::Acknowledged
        } else {
            draft.delivery
        },
        ..draft
    }
}

/// Why a signal cannot be emitted by hand.
#[derive(Debug)]
pub enum EmissionError {
    /// The payload is not JSON.
    Payload,
    /// The type is refused.
    Type(TypeError),
}

/// The payload of a signal emitted by hand: the value of a JSON text, or null
/// where none was given.
pub open spec fn emitted_payload(payload: Option<Seq<char>>) -> Option<Seq<char>> {
    match payload {
        Some(raw) => json_value_text(raw),
        None => Some("null"@),
    }
}

/// The tags of a signal emitted by hand.
pub open spec fn emitted_tags(tags: Option<Seq<char>>) -> Seq<Seq<char>> {
    match tags {
        Some(raw) => parts_of(raw).map_values(|part: Seq<char>| trimmed_of(part)),
        None => Seq::empty(),
    }
}

/// The builder of a signal emitted by hand, from the texts that were given: its
/// type by name in whatever case, its payload as JSON, its weight, its tags
/// between commas, and whether it is to be acknowledged.
pub fn emission(
    name: &str,
    payload: Option<&str>,
    weight: Scalar,
    tags: Option<&str>,
    acknowledged: bool,
) -> (r: Result<SignalBuilder, EmissionError>)
    ensures
        r matches Err(EmissionError::Payload) <==> emitted_payload(chars_of(payload)) is None,
        match r {
            Ok(builder) => byte_named(lowercase_of(name@)) <= 5 && builder@ == emission_named(
                lowercase_of(name@),
                emitted_payload(chars_of(payload))->0,
                weight,
                emitted_tags(chars_of(tags)),
                acknowledged,
            ),
            Err(EmissionError::Payload) => true,
            Err(EmissionError::Type(TypeError::Receipt)) => byte_named(lowercase_of(name@)) == 6,
            Err(EmissionError::Type(TypeError::Unknown(text))) => byte_named(lowercase_of(name@))
                == 15 && text@ == lowercase_of(name@),
        },
{
    let value = match payload {
        Some(raw) => match json_value(raw) {
            Some(value) => value,
            None => return Err(EmissionError::Payload),
        },
        None => "null".to_string(),
    };
    match emission_of(name, value.as_str(), weight, tags, acknowledged) {
        Ok(builder) => Ok(builder),
        Err(e) => Err(EmissionError::Type(e)),
    }
}

/// The builder of a signal emitted by hand: its type by name in whatever case,
/// its payload, its weight, the tags of a text, and whether it is to be
/// acknowledged.
pub fn emission_of(
    name: &str,
    payload: &str,
    weight: Scalar,
    tags: Option<&str>,
    acknowledged: bool,
) -> (r: Result<SignalBuilder, TypeError>)
    ensures
        match r {
            Ok(builder) => byte_named(lowercase_of(name@)) <= 5 && builder@ == emission_named(
                lowercase_of(name@),
                payload@,
                weight,
                emitted_tags(chars_of(tags)),
                acknowledged,
            ),
            Err(TypeError::Receipt) => byte_named(lowercase_of(name@)) == 6,
            Err(TypeError::Unknown(text)) => byte_named(lowercase_of(name@)) == 15 && text@
                == lowercase_of(name@),
        },
{
    let mut builder = match parse_type(name) {
        Ok(builder) => builder.with_payload(payload).with_weight(weight),
        Err(e) => return Err(e),
    };
    let ghost plain = builder@;
    if let Some(raw) = tags {
        let list = parse_tags(raw);
        let mut given: Vec<&str> = Vec::new();
        let mut i: usize = 0;
        while i < list.len()
            invariant
                i <= list@.len(),
                given@.len() == i,
                forall|k: int| 0 <= k < i ==> (#[trigger] given@[k])@ == list@[k]@,
            decreases list@.len() - i,
        {
            given.push(list[i].as_str());
            i = i + 1;
        }
        assert(given@.map_values(|t: &str| t@) =~= texts(list@));
        builder = builder.with_tags(given);
    }
    if acknowledged {
        builder = builder.acknowledged();
    }
    Ok(builder)
}

/// A path below another. A path from the root stands alone.
pub open spec fn path_below(base: Seq<char>, rest: Seq<char>) -> Seq<char> {
    if base.len() == 0 || (rest.len() > 0 && rest[0] == '/') {
        rest
    } else if base.last() == '/' {
        base + rest
    } else {
        base + seq!['/'] + rest
    }
}

/// A path below another.
pub fn join_path(base: &str, rest: &str) -> (r: String)
    ensures
        r@ == path_below(base@, rest@),
{
    proof {
        reveal_strlit("/");
        assert("/"@ =~= seq!['/']);
    }
    let base_len: usize = base.unicode_len();
    if base_len == 0 || (rest.unicode_len() > 0 && rest.get_char(0) == '/') {
        return rest.to_string();
    }
    let mut out: String = base.to_string();
    if base.get_char(base_len - 1) != '/' {
        out.append("/");
    }
    out.append(rest);
    out
}

/// The node directory: the one given, else that of the environment, else one
/// below the home directory, else one below the current directory.
pub fn resolve_home(explicit: Option<&str>, from_environment: Option<&str>, home: Option<&str>) -> (r:
    String)
    ensures
        r@ == (match explicit {
            Some(path) => path@,
            None => match from_environment {
                Some(path) => path@,
                None => match home {
                    Some(base) => path_below(base@, ".ntl"@),
                    None => ".ntl"@,
                },
            },
        }),
{
    match explicit {
        Some(path) => path.to_string(),
        None => match from_environment {
            Some(path) => path.to_string(),
            None => match home {
                Some(base) => join_path(base, ".ntl"),
                None => ".ntl".to_string(),
            },
        },
    }
}

/// A path with a leading tilde put below the home directory, where there is
/// one.
pub fn expand_home(path: &str, home: Option<&str>) -> (r: String)
    ensures
        r@ == (if path@.len() >= 2 && path@[0] == '~' && path@[1] == '/' && home is Some {
            path_below(home->0@, path@.skip(2))
        } else {
            path@
        }),
{
    let len: usize = path.unicode_len();
    if len >= 2 && path.get_char(0) == '~' && path.get_char(1) == '/' {
        if let Some(base) = home {
            assert(path@.subrange(2, len as int) =~= path@.skip(2));
            return join_path(base, path.substring_char(2, len));
        }
    }
    path.to_string()
}

/// How often a path carried a type of signal.
#[derive(Debug)]
pub struct TypeCount {
    /// The type's name.
    pub name: String,
    /// How often.
    pub count: u64,
}

impl Placed for TypeCount {
    open spec fn before(self, other: Self) -> bool {
        self.count > other.count
    }

    proof fn lemma_places(a: Self, b: Self, c: Self) {
    }

    fn goes_before(&self, other: &Self) -> (r: bool) {
        self.count > other.count
    }
}

/// Counts as pairs.
pub open spec fn counts(list: Seq<TypeCount>) -> Seq<(Seq<char>, u64)> {
    list.map_values(|t: TypeCount| (t.name@, t.count))
}

/// The types that a synapse carried most often, `n` at most, most often first.
pub fn top_types(record: &SynapseRecord, n: usize) -> (r: Vec<TypeCount>)
    ensures
        exists|from: Seq<TypeCount>, all: Seq<TypeCount>| #[trigger]
            sorts(from, all) && counts(from) == record@.type_affinity && counts(r@) == counts(
                all,
            ).take(if n < all.len() {
                n as int
            } else {
                all.len() as int
            }),
{
    let mut list: Vec<TypeCount> = Vec::new();
    let mut i: usize = 0;
    assert(counts(list@) =~= record.type_affinity@.take(0));
    while i < record.type_affinity.len()
        invariant
            i <= record.type_affinity@.len(),
            counts(list@) == record.type_affinity@.take(i as int),
        decreases record.type_affinity@.len() - i,
    {
        let ghost before = list@;
        let (name, count) = record.type_affinity.entry(i);
        list.push(TypeCount { name, count });
        i = i + 1;
        assert(counts(list@) =~= counts(before).push(record.type_affinity@[i - 1]));
        assert(counts(list@) =~= record.type_affinity@.take(i as int));
    }
    assert(record.type_affinity@.take(record.type_affinity@.len() as int)
        =~= record.type_affinity@);
    let ghost from = list@;
    sort_stably(&mut list);
    let ghost all = list@;
    if n < list.len() {
        list.truncate(n);
        assert(counts(list@) =~= counts(all).take(n as int));
    } else {
        assert(counts(list@) =~= counts(all).take(all.len() as int));
    }
    assert(sorts(from, all));
    list
}

/// What a status report says of the routing model.
#[derive(Clone, Copy, Debug, PartialEq, Eq, Structural)]
pub struct ModelStatus {
    /// Synapses that can carry a signal.
    pub eligible: usize,
    /// Decisions examined.
    pub sampled: usize,
    /// Percentage delivered.
    pub delivered: Scalar,
    /// Percentage reached by exploration.
    pub explored: Scalar,
    /// Percentage still pending.
    pub pending: Scalar,
    /// Whether nothing was explored though there was a choice.
    pub stopped_learning: bool,
    /// Whether almost every decision is unresolved, so that the weights reflect
    /// nothing.
    pub without_receipts: bool,
}

/// A share in percent.
pub open spec fn percent(n: int, total: int) -> Scalar {
    Scalar::natural(n).quotient(Scalar::natural(total)).product(Scalar::from_bits(HUNDRED))
}

impl ModelStatus {
    /// The report on decisions and synapses.
    pub open spec fn of(recent: Seq<JournalRow>, synapses: Seq<SynapseRow>) -> ModelStatus {
        let total = recent.len() as int;
        let eligible = synapses.filter(|s: SynapseRow| s.state.carries()).len();
        let explored = recent.filter(|e: JournalRow| e.explored).len() as int;
        let pending = recent.filter(|e: JournalRow| e.outcome is Pending).len() as int;
        let delivered = recent.filter(|e: JournalRow| e.outcome is Delivered).len() as int;
        ModelStatus {
            eligible: eligible as usize,
            sampled: total as usize,
            delivered: percent(delivered, total),
            explored: percent(explored, total),
            pending: percent(pending, total),
            stopped_learning: total > 0 && explored == 0 && eligible > 1,
            without_receipts: total > 0 && Scalar::from_bits(EIGHTY).below(percent(pending, total)),
        }
    }
}

/// Report on the routing model. A warning that there is no exploration is given
/// only where there was a choice to make.
pub fn model_status(recent: &Vec<JournalEntry>, synapses: &Vec<SynapseRecord>) -> (r: ModelStatus)
    ensures
        r == ModelStatus::of(journal_rows(recent@), rows(synapses@)),
{
    let ghost entries = journal_rows(recent@);
    let ghost paths = rows(synapses@);
    let mut eligible: usize = 0;
    let mut i: usize = 0;
    proof {
        reveal(Seq::filter);
    }
    while i < synapses.len()
        invariant
            i <= synapses@.len(),
            paths == rows(synapses@),
            eligible <= i,
            eligible == paths.take(i as int).filter(|s: SynapseRow| s.state.carries()).len(),
        decreases synapses@.len() - i,
    {
        proof {
            reveal(Seq::filter);
            assert(paths.take(i + 1).drop_last() =~= paths.take(i as int));
            assert(paths.take(i + 1).last() == paths[i as int]);
        }
        if synapses[i].state.can_carry() {
            eligible = eligible + 1;
        }
        i = i + 1;
    }
    assert(paths.take(paths.len() as int) =~= paths);
    let mut explored: usize = 0;
    let mut pending: usize = 0;
    let mut delivered: usize = 0;
    let mut j: usize = 0;
    while j < recent.len()
        invariant
            j <= recent@.len(),
            entries == journal_rows(recent@),
            explored <= j,
            pending <= j,
            delivered <= j,
            explored == entries.take(j as int).filter(|e: JournalRow| e.explored).len(),
            pending == entries.take(j as int).filter(|e: JournalRow| e.outcome is Pending).len(),
            delivered == entries.take(j as int).filter(
                |e: JournalRow| e.outcome is Delivered,
            ).len(),
        decreases recent@.len() - j,
    {
        proof {
            reveal(Seq::filter);
            assert(entries.take(j + 1).drop_last() =~= entries.take(j as int));
            assert(entries.take(j + 1).last() == entries[j as int]);
        }
        let e = &recent[j];
        if e.explored {
            explored = explored + 1;
        }
        if !e.outcome.is_resolved() {
            pending = pending + 1;
        }
        if e.outcome == Outcome::Delivered {
            delivered = delivered + 1;
        }
        j = j + 1;
    }
    assert(entries.take(entries.len() as int) =~= entries);
    let total = Scalar::from_u64(recent.len() as u64);
    let hundred = Scalar::from_bits(HUNDRED);
    let pending_share = Scalar::from_u64(pending as u64).over(total).times(hundred);
    ModelStatus {
        eligible,
        sampled: recent.len(),
        delivered: Scalar::from_u64(delivered as u64).over(total).times(hundred),
        explored: Scalar::from_u64(explored as u64).over(total).times(hundred),
        pending: pending_share,
        stopped_learning: recent.len() > 0 && explored == 0 && eligible > 1,
        without_receipts: recent.len() > 0 && Scalar::from_bits(EIGHTY).lt(pending_share),
    }
}

/// The total weight of synapses, from the front.
pub fn total_weight(synapses: &Vec<SynapseRecord>) -> (r: Scalar)
    ensures
        r == running_sum(rows(synapses@).map_values(|s: SynapseRow| s.weight)),
{
    let mut weights: Vec<Scalar> = Vec::new();
    let mut i: usize = 0;
    while i < synapses.len()
        invariant
            i <= synapses@.len(),
            weights@.len() == i,
            forall|k: int| 0 <= k < i ==> #[trigger] weights@[k] == synapses@[k].weight,
        decreases synapses@.len() - i,
    {
        weights.push(synapses[i].weight);
        i = i + 1;
    }
    assert(weights@ =~= rows(synapses@).map_values(|s: SynapseRow| s.weight));
    crate::learning::sum_of(&weights)
}

} // verus!
