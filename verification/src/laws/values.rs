//! Laws of plain values: orders, names, paths, frames, drafts, defaults.

use vstd::prelude::*;

use crate::activation::{ActivationConfig, NodeClass};
use crate::cli::{
    byte_named, class_named, counts, draft_named, emission_named, expand_home, parts_of, path_below,
    resolve_home, top_types, type_named, TypeCount,
};
use crate::config::{NetworkSetup, NodeSetup};
use crate::delivery::{DeliveryClass, Receipt};
use crate::frame::{claimed_len, framed, len_allowed, write_frame, FrameError};
use crate::identity::{adopts, Identity};
use crate::laws::orders::near;
use crate::learning::{DeploymentClass, LearningConfig};
use crate::order::{bytes_below, lex_below, text_below};
use crate::propagation::ScopeModel;
use crate::scalar::{Scalar, ONE, ZERO};
use crate::signal::{SignalDraft, SignalId, SignalModel, SignalType, TypeModel};
use crate::store::{StoreModel, SynapseRecord};
use crate::time::instant;

verus! {

/// The first difference decides which of two sequences comes first, and a
/// sequence comes before what extends it.
pub proof fn lemma_the_first_difference_decides(a: Seq<int>, b: Seq<int>, i: int)
    requires
        0 <= i <= a.len(),
        i <= b.len(),
        forall|k: int| 0 <= k < i ==> #[trigger] a[k] == b[k],
    ensures
        i < a.len() && i < b.len() && a[i] < b[i] ==> lex_below(a, b) && !lex_below(b, a),
        i == a.len() && i < b.len() ==> lex_below(a, b) && !lex_below(b, a),
        i == a.len() && i == b.len() ==> !lex_below(a, b),
    decreases i,
{
    if i > 0 {
        assert(a[0] == b[0]);
        let x = a.skip(1);
        let y = b.skip(1);
        assert forall|k: int| 0 <= k < i - 1 implies #[trigger] x[k] == y[k] by {
            assert(a[k + 1] == b[k + 1]);
        }
        lemma_the_first_difference_decides(x, y, i - 1);
    }
}

/// Byte strings go by their first difference.
pub proof fn lemma_bytes_go_by_the_first_difference(a: Seq<u8>, b: Seq<u8>, i: int)
    requires
        0 <= i <= a.len(),
        i <= b.len(),
        forall|k: int| 0 <= k < i ==> #[trigger] a[k] == b[k],
    ensures
        i < a.len() && i < b.len() && a[i] < b[i] ==> bytes_below(a, b) && !bytes_below(b, a),
        i == a.len() && i < b.len() ==> bytes_below(a, b) && !bytes_below(b, a),
        i == a.len() && i == b.len() ==> !bytes_below(a, b),
{
    lemma_the_first_difference_decides(
        a.map_values(|x: u8| x as int),
        b.map_values(|x: u8| x as int),
        i,
    );
}

/// Texts go by their first difference.
pub proof fn lemma_texts_go_by_the_first_difference(a: Seq<char>, b: Seq<char>, i: int)
    requires
        0 <= i <= a.len(),
        i <= b.len(),
        forall|k: int| 0 <= k < i ==> #[trigger] a[k] == b[k],
    ensures
        i < a.len() && i < b.len() && a[i] < b[i] ==> text_below(a, b) && !text_below(b, a),
        i == a.len() && i < b.len() ==> text_below(a, b) && !text_below(b, a),
        i == a.len() && i == b.len() ==> !text_below(a, b),
{
    lemma_the_first_difference_decides(
        a.map_values(|x: char| x as int),
        b.map_values(|x: char| x as int),
        i,
    );
}

/// An instant is what the host clock reads, as far as instants go.
pub proof fn lemma_an_instant_is_the_reading(reading: Option<u128>)
    ensures
        reading is None ==> instant(reading) == 0,
        reading matches Some(n) ==> instant(reading) <= n && (n <= u64::MAX ==> instant(reading) == n)
            && (n > u64::MAX ==> instant(reading) == u64::MAX),
{
}

/// A frame is four bytes and its body, and the four bytes tell the body's
/// length, the most telling first.
pub proof fn lemma_a_frame_tells_its_length(body: Seq<u8>, header: Seq<u8>)
    requires
        body.len() <= 0x10_0000,
        header.len() == 4,
    ensures
        framed(body).len() == 4 + body.len(),
        framed(body).skip(4) == body,
        claimed_len(framed(body)) == body.len(),
        framed(body)[0] == 0,
        claimed_len(header) % 256 == header[3],
        header[0] > 0 ==> claimed_len(header) >= 0x100_0000,
        header[0] == 0 && header[1] == 0 ==> claimed_len(header) < 0x1_0000,
{
    let n = body.len() as int;
    assert(n / 0x100_0000 * 0x100_0000 + n / 0x1_0000 % 0x100 * 0x1_0000 + n / 0x100 % 0x100 * 0x100
        + n % 0x100 == n);
    assert(framed(body).skip(4) =~= body);
}

/// A body has at least a byte and at most a mebibyte.
pub proof fn lemma_how_long_a_body_is(len: int)
    ensures
        len_allowed(len) <==> 1 <= len <= 1_048_576,
{
}

/// Which bodies are framed.
pub proof fn lemma_which_bodies_are_framed(body: Vec<u8>, frame: Result<Vec<u8>, FrameError>)
    requires
        call_ensures(write_frame, (&body,), frame),
    ensures
        frame is Ok <==> body@.len() <= 1_048_576,
        frame matches Ok(bytes) ==> bytes@.len() == body@.len() + 4 && bytes@.skip(4) == body@,
{
    if body@.len() <= 1_048_576 {
        assert(framed(body@).skip(4) =~= body@);
    }
}

/// A fresh draft asks for nothing special: half the weight, ten hops, no
/// acknowledgement, every synapse.
pub proof fn lemma_a_fresh_draft_is_plain(signal_type: TypeModel, topic: Seq<char>)
    ensures
        ({
            let draft = SignalDraft::fresh(signal_type, topic);
            &&& near(draft.weight, 1, 2)
            &&& draft.ttl == 10
            &&& draft.delivery is BestEffort
            &&& draft.scope == ScopeModel::Weighted(Scalar::from_bits(ZERO))
            &&& draft.correlation_id is None
            &&& draft.tags.len() == 0
            &&& draft.payload == "null"@
            &&& draft.signal_type == signal_type
            &&& draft.topic == topic
        }),
{
    vstd::arithmetic::power2::lemma2_to64();
    crate::laws::orders::lemma_pattern(Scalar::from_bits(0x3F00_0000), 126, 0x80_0000, 1, 2);
}

/// A signal that is built is its draft with its origin, its instant and its
/// identifier: of the first version, unsigned, nowhere yet, and tagged with the
/// topic first where there is one.
pub proof fn lemma_a_built_signal_is_its_draft(
    draft: SignalDraft,
    origin: Seq<u8>,
    now_ns: u64,
    id: SignalId,
)
    ensures
        ({
            let signal = draft.built(origin, now_ns, id);
            &&& signal.id == id
            &&& signal.origin == origin
            &&& signal.timestamp == now_ns
            &&& signal.version == 1
            &&& signal.signature.len() == 0
            &&& signal.trace.len() == 0
            &&& signal.signal_type == draft.signal_type
            &&& signal.payload == draft.payload
            &&& signal.weight == draft.weight
            &&& signal.ttl == draft.ttl
            &&& signal.scope == draft.scope
            &&& signal.correlation_id == draft.correlation_id
            &&& signal.delivery == draft.delivery
            &&& draft.topic.len() > 0 ==> signal.tags.len() == draft.tags.len() + 1 && signal.tags[0]
                == draft.topic && signal.tags.skip(1) == draft.tags
            &&& draft.topic.len() == 0 ==> signal.tags == draft.tags
        }),
{
    assert((seq![draft.topic] + draft.tags).skip(1) =~= draft.tags);
}

/// A receipt travels to the origin that it is for, names the signal that it is
/// about, and is never itself acknowledged.
pub proof fn lemma_a_receipt_is_not_acknowledged(
    receipt: Receipt,
    origin: Seq<u8>,
    payload: Seq<char>,
    draft: SignalDraft,
)
    ensures
        ({
            let made = SignalDraft::of_receipt(receipt, origin, payload);
            &&& made.scope == ScopeModel::Targeted(origin)
            &&& made.correlation_id == Some(receipt.correlation_id)
            &&& made.payload == payload
            &&& made.signal_type.byte == 6
            &&& made.acknowledging() == made
            &&& made.delivery is BestEffort
        }),
        draft.signal_type != SignalType::Receipt@ ==> draft.acknowledging().delivery is Acknowledged,
        draft.acknowledging() == (SignalDraft { delivery: draft.acknowledging().delivery, ..draft }),
{
}

/// What a signal takes on the wire grows with each part: a byte for each byte,
/// thirty-two for each node of its trace, and a little for the rest.
pub proof fn lemma_what_a_signal_takes(signal: SignalModel, node: Seq<u8>, byte: u8, tag: Seq<char>)
    ensures
        (SignalModel { origin: signal.origin.push(byte), ..signal }).wire_size() == signal.wire_size()
            + 1,
        (SignalModel { signature: signal.signature.push(byte), ..signal }).wire_size()
            == signal.wire_size() + 1,
        (SignalModel { trace: signal.trace.push(node), ..signal }).wire_size() == signal.wire_size()
            + 32,
        (SignalModel { tags: signal.tags.push(tag), ..signal }).wire_size() == signal.wire_size()
            + vstd::utf8::encode_utf8(tag).len(),
        signal.wire_size() >= 38 + signal.origin.len() + signal.signature.len()
            + vstd::utf8::encode_utf8(signal.payload).len() + 32 * signal.trace.len(),
        signal.tags.len() == 0 ==> signal.wire_size() == 38 + signal.origin.len()
            + signal.signature.len() + vstd::utf8::encode_utf8(signal.payload).len() + 32
            * signal.trace.len(),
{
    lemma_texts_take_room(signal.tags);
    let more = signal.tags.push(tag);
    assert(more.drop_last() =~= signal.tags);
}

/// Texts take no less than no room.
proof fn lemma_texts_take_room(tags: Seq<Seq<char>>)
    ensures
        crate::signal::text_size(tags) >= 0,
    decreases tags.len(),
{
    if tags.len() > 0 {
        lemma_texts_take_room(tags.drop_last());
    }
}

/// The parts of a text, with a comma after each but the last.
pub open spec fn joined(parts: Seq<Seq<char>>) -> Seq<char>
    decreases parts.len(),
{
    if parts.len() == 0 {
        Seq::empty()
    } else if parts.len() == 1 {
        parts[0]
    } else {
        joined(parts.drop_last()) + seq![','] + parts.last()
    }
}

/// The parts of a text hold no comma, and with commas between them they are the
/// text again.
pub proof fn lemma_parts_make_the_text(text: Seq<char>)
    ensures
        parts_of(text).len() >= 1,
        joined(parts_of(text)) == text,
        forall|i: int|
            0 <= i < parts_of(text).len() ==> !(#[trigger] parts_of(text)[i]).contains(','),
    decreases text.len(),
{
    let parts = parts_of(text);
    if text.len() == 0 {
        assert(joined(parts) =~= text);
    } else {
        let front = text.drop_last();
        let c = text.last();
        lemma_parts_make_the_text(front);
        let before = parts_of(front);
        assert(text =~= front.push(c));
        if c == ',' {
            assert(parts.drop_last() =~= before);
            assert(joined(parts) =~= text);
        } else {
            let last = before.last();
            assert(!before[before.len() - 1].contains(','));
            assert forall|i: int| 0 <= i < parts.len() implies !(#[trigger] parts[i]).contains(',') by {
                if i == parts.len() - 1 {
                    assert(parts[i] == last.push(c));
                    assert forall|k: int| 0 <= k < parts[i].len() implies parts[i][k] != ',' by {
                        if k < last.len() {
                            assert(last[k] == parts[i][k]);
                        }
                    }
                } else {
                    assert(parts[i] == before[i]);
                }
            }
            if before.len() == 1 {
                assert(joined(parts) =~= text);
            } else {
                assert(parts.drop_last() =~= before.drop_last());
                assert(joined(parts) =~= text);
            }
        }
    }
}

/// A path below another begins with it and ends with what was put below, with
/// one slash between, except that a path from the root stands alone.
pub proof fn lemma_a_path_lies_below(base: Seq<char>, rest: Seq<char>)
    ensures
        ({
            let path = path_below(base, rest);
            &&& rest.len() > 0 && rest[0] == '/' ==> path == rest
            &&& base.len() == 0 ==> path == rest
            &&& base.len() > 0 && !(rest.len() > 0 && rest[0] == '/') ==> {
                &&& path.take(base.len() as int) == base
                &&& path.skip(path.len() - rest.len()) == rest
                &&& path[path.len() - rest.len() - 1] == '/'
                &&& path.len() <= base.len() + 1 + rest.len()
                &&& base.last() == '/' ==> path.len() == base.len() + rest.len()
                &&& base.last() != '/' ==> path.len() == base.len() + 1 + rest.len()
            }
        }),
{
    let path = path_below(base, rest);
    if base.len() > 0 && !(rest.len() > 0 && rest[0] == '/') {
        assert(path.take(base.len() as int) =~= base);
        assert(path.skip(path.len() - rest.len()) =~= rest);
    }
}

/// Which directory a node uses: the first that was named wins.
pub proof fn lemma_the_first_home_wins(
    explicit: Option<&str>,
    from_environment: Option<&str>,
    home: Option<&str>,
    path: String,
)
    requires
        call_ensures(resolve_home, (explicit, from_environment, home), path),
    ensures
        explicit matches Some(given) ==> path@ == given@,
        explicit is None ==> (from_environment matches Some(given) ==> path@ == given@),
        explicit is None && from_environment is None && home is None ==> path@ == ".ntl"@,
        explicit is None && from_environment is None ==> (home matches Some(base) ==> path@
            == path_below(base@, ".ntl"@)),
{
}

/// A leading tilde stands for the home directory, and nothing else is changed.
pub proof fn lemma_a_tilde_is_home(path: &str, home: Option<&str>, expanded: String)
    requires
        call_ensures(expand_home, (path, home), expanded),
    ensures
        home is None ==> expanded@ == path@,
        path@.len() < 2 || path@[0] != '~' || path@[1] != '/' ==> expanded@ == path@,
        path@.len() >= 2 && path@[0] == '~' && path@[1] == '/' ==> (home matches Some(base)
            ==> expanded@ == path_below(base@, path@.skip(2))),
{
}

/// The classes and the types by name.
pub proof fn lemma_names_and_bytes(name: Seq<char>)
    ensures
        byte_named("data"@) == 0,
        byte_named("query"@) == 1,
        byte_named("event"@) == 2,
        byte_named("command"@) == 3,
        byte_named("heartbeat"@) == 4,
        byte_named("discovery"@) == 5,
        byte_named("receipt"@) == 6,
        byte_named(name) <= 6 || byte_named(name) == 15,
        byte_named(name) == 15 ==> type_named(name).name == name,
        byte_named(name) <= 6 ==> type_named(name).name.len() == 0,
        type_named(name).byte == byte_named(name),
{
    reveal_strlit("data");
    reveal_strlit("query");
    reveal_strlit("event");
    reveal_strlit("command");
    reveal_strlit("heartbeat");
    reveal_strlit("discovery");
    reveal_strlit("receipt");
    assert("query"@[0] != "event"@[0]);
    assert("command"@[0] != "receipt"@[0]);
    assert("heartbeat"@[0] != "discovery"@[0]);
    assert("data"@.len() == 4 && "query"@.len() == 5 && "event"@.len() == 5 && "command"@.len() == 7);
    assert("heartbeat"@.len() == 9 && "discovery"@.len() == 9 && "receipt"@.len() == 7);
}

/// Two names give the same type only where they are the same name.
pub proof fn lemma_a_name_is_one_type(a: Seq<char>, b: Seq<char>)
    requires
        type_named(a) == type_named(b),
    ensures
        a == b,
{
    lemma_names_and_bytes(a);
    lemma_names_and_bytes(b);
}

/// The classes by name.
pub proof fn lemma_classes_by_name(name: &str, class: Option<DeploymentClass>)
    requires
        call_ensures(class_named, (name,), class),
    ensures
        class == Some(DeploymentClass::Edge) <==> name@ == "edge"@,
        class == Some(DeploymentClass::FullNode) <==> name@ == "full-node"@,
        class == Some(DeploymentClass::HighTraffic) <==> name@ == "high-traffic"@,
{
    reveal_strlit("edge");
    reveal_strlit("full-node");
    reveal_strlit("high-traffic");
    assert("edge"@.len() != "full-node"@.len());
    assert("high-traffic"@.len() != "full-node"@.len());
    assert("high-traffic"@.len() != "edge"@.len());
}

/// What is emitted by hand is what was asked for, with its weight within the
/// unit interval, acknowledged only where that was asked.
pub proof fn lemma_what_is_emitted(
    name: Seq<char>,
    payload: Seq<char>,
    weight: Scalar,
    tags: Seq<Seq<char>>,
    acknowledged: bool,
)
    ensures
        ({
            let draft = emission_named(name, payload, weight, tags, acknowledged);
            &&& draft.payload == payload
            &&& draft.tags == tags
            &&& draft.signal_type == type_named(name)
            &&& draft.delivery is Acknowledged <==> acknowledged
            &&& weight.between(Scalar::from_bits(ZERO), Scalar::from_bits(ONE)) ==> draft.weight == weight
            &&& !weight.nan() ==> draft.weight.between(
                Scalar::from_bits(ZERO),
                Scalar::from_bits(ONE),
            )
            &&& Scalar::from_bits(ONE).below(weight) ==> draft.weight == Scalar::from_bits(ONE)
            &&& draft.ttl == 10
            &&& draft.correlation_id is None
        }),
        draft_named("discovery"@).topic == "discovery"@,
        draft_named("heartbeat"@).topic == "heartbeat"@,
        draft_named("data"@).topic == "cli"@,
        byte_named(name) != 4 && byte_named(name) != 5 ==> draft_named(name).topic == "cli"@,
{
    lemma_names_and_bytes(name);
}

/// The types that a synapse carried most often come first, and none that is left
/// out was carried more often than one that is listed.
pub proof fn lemma_the_most_carried_types_come_first(
    record: SynapseRecord,
    n: usize,
    listed: Vec<TypeCount>,
)
    requires
        call_ensures(top_types, (&record, n), listed),
    ensures
        listed@.len() == (if n < record@.type_affinity.len() {
            n as int
        } else {
            record@.type_affinity.len() as int
        }),
        forall|i: int, j: int|
            0 <= i < j < listed@.len() ==> (#[trigger] listed@[i]).count >= (#[trigger] listed@[j]).count,
        forall|i: int|
            0 <= i < listed@.len() ==> record@.type_affinity.contains(
                ((#[trigger] listed@[i]).name@, listed@[i].count),
            ),
{
    let (from, all) = choose|from: Seq<TypeCount>, all: Seq<TypeCount>| #[trigger]
        crate::order::sorts(from, all) && counts(from) == record@.type_affinity && counts(listed@)
            == counts(all).take(if n < all.len() {
            n as int
        } else {
            all.len() as int
        });
    let at = choose|at: Seq<int>| #[trigger] crate::order::arranges(from, all, at);
    assert(counts(from).len() == from.len());
    assert(counts(listed@).len() == listed@.len());
    assert forall|i: int| 0 <= i < listed@.len() implies (#[trigger] listed@[i]).name@ == all[i].name@
        && listed@[i].count == all[i].count by {
        assert(counts(listed@)[i] == counts(all)[i]);
    }
    assert forall|i: int, j: int| 0 <= i < j < listed@.len() implies (#[trigger] listed@[i]).count >= (
    #[trigger] listed@[j]).count by {
        assert(!crate::order::Placed::before(all[j], all[i]));
    }
    assert forall|i: int| 0 <= i < listed@.len() implies record@.type_affinity.contains(
        ((#[trigger] listed@[i]).name@, listed@[i].count),
    ) by {
        assert(all[i] == from[at[i]]);
        assert(counts(from)[at[i]] == (listed@[i].name@, listed@[i].count));
    }
}

/// The defaults of a class go together: its gate, its fanout and what it learns,
/// and all else is common.
pub proof fn lemma_what_goes_with_a_class(class: DeploymentClass)
    ensures
        ({
            let c = NodeSetup::class_defaults(class);
            &&& c.learning == LearningConfig::class_defaults(class)
            &&& c.activation == ActivationConfig::class_defaults(
                match class {
                    DeploymentClass::Edge => NodeClass::Edge,
                    DeploymentClass::FullNode => NodeClass::Standard,
                    DeploymentClass::HighTraffic => NodeClass::Server,
                },
            )
            &&& c.propagation.max_fanout == (match class {
                DeploymentClass::Edge => 3int,
                DeploymentClass::FullNode => 5,
                DeploymentClass::HighTraffic => 8,
            })
            &&& c.propagation.default_ttl == 10
            &&& c.propagation.dedup_cache_seconds >= c.retry.total_deadline_secs
            &&& c.retry.base_ms == 1_000
            &&& c.retry.cap_ms == 30_000
            &&& c.retry.max_attempts == 5
            &&& c.retry.total_deadline_secs == 300
            &&& c.network.port == 4433
            &&& c.network.bootstrap_nodes.len() == 2
            &&& c.crypto_module == "classical-v1"@
        }),
        NodeSetup::defaults().learning == LearningConfig::class_defaults(DeploymentClass::Edge),
        NodeSetup::defaults().activation == ActivationConfig::class_defaults(NodeClass::Edge),
        NetworkSetup::defaults() == NodeSetup::defaults().network,
{
}

/// What makes a configuration consistent: each part is, its module is the one
/// there is, and no synapse may weigh more than learning would let it.
pub proof fn lemma_what_makes_a_node_consistent(setup: NodeSetup)
    ensures
        setup.valid() <==> {
            &&& setup.activation.fault() is None
            &&& setup.learning.fault() is None
            &&& setup.propagation.fault(setup.retry.total_deadline_secs) is None
            &&& setup.crypto_module == "classical-v1"@
            &&& !setup.learning.max_weight.below(setup.synapse.max_weight)
        },
        setup.valid() ==> setup.propagation.dedup_cache_seconds >= setup.retry.total_deadline_secs,
{
}

/// An identity that is adopted is kept: what a store has is not replaced, and a
/// fresh seed is stored with the identity that it gives.
pub proof fn lemma_an_identity_is_kept(
    kept: StoreModel,
    seed: Seq<u8>,
    identity: Identity,
    after: StoreModel,
)
    requires
        adopts(kept, seed, identity, after),
    ensures
        after.meta.dom().contains("identity-seed"@),
        identity.private@ == after.meta["identity-seed"@],
        kept.meta.dom().contains("identity-seed"@) ==> after == kept,
        !kept.meta.dom().contains("identity-seed"@) ==> identity.private@ == seed
            && after.meta.dom().contains("node-id"@) && after.meta["node-id"@] == identity.node_id@,
        after.synapses == kept.synapses,
        after.journal == kept.journal,
        identity.node_id@ == crate::crypto::blake3_of(identity.public@),
        identity.private@.len() == 32,
{
    reveal_strlit("identity-seed");
    reveal_strlit("node-id");
    assert("identity-seed"@.len() != "node-id"@.len());
}

/// The two classes of delivery have bytes of their own.
pub proof fn lemma_delivery_on_the_wire(class: DeliveryClass)
    ensures
        class is BestEffort <==> class.wire() == 0,
        class is Acknowledged <==> class.wire() == 1,
{
}

} // verus!
