//! Signals and their construction.
//!
//! A signal is the unit of data that moves through the network. Its payload is
//! carried as JSON text; the transport turns whole signals into bytes.

use vstd::arithmetic::power::pow;
use vstd::prelude::*;
use vstd::utf8::encode_utf8;

use crate::delivery::{DeliveryClass, Receipt};
use crate::error::Error;
use crate::order::{lex_below, same_bytes, same_text, text_below};
use crate::propagation::{PropagationScope, ScopeModel};
use crate::rng::{absorbed, Rng, SplitMix64};
use crate::scalar::{Scalar, ONE, ZERO};
use crate::text::{copy_bytes, copy_texts, hex_prefix, hex_text};
use crate::time::{host_tells, Clock, SystemClock};

verus! {

/// The number of timestamps that an identifier can hold.
pub const TIME_RANGE: u64 = 0x1_0000_0000_0000;

/// The number of random parts that an identifier can hold.
pub const RANDOM_RANGE: u128 = 0x1_0000_0000_0000_0000_0000;

/// The most nodes a signal's trace holds.
pub const MAX_TRACE: usize = 64;

/// The largest size of an encoded signal, in bytes.
pub const MAX_SIZE: usize = 1_048_576;

/// The pattern of one half.
pub const HALF: u32 = 0x3F00_0000;

/// The number that an identifier's timestamp and random part make.
pub open spec fn ulid_of(timestamp_ms: u64, randomness: u128) -> int {
    (timestamp_ms as int % TIME_RANGE as int) * RANDOM_RANGE + randomness as int
        % RANDOM_RANGE as int
}

/// The big-endian bytes of a number.
pub open spec fn be_bytes(value: u128) -> Seq<u8> {
    Seq::new(16, |i: int| ((value as int / pow(256, (15 - i) as nat)) % 256) as u8)
}

/// The 26 Crockford base32 digits of a number.
pub open spec fn base32_text(value: u128) -> Seq<char> {
    Seq::new(
        26,
        |i: int|
            "0123456789ABCDEFGHJKMNPQRSTVWXYZ"@[(value as int / pow(32, (25 - i) as nat)) % 32],
    )
}

/// The number of an identifier made of the two parts.
///
/// Calls `ulid::Ulid::from_parts`, which keeps the low 48 bits of the timestamp
/// above the low 80 bits of the random part.
#[verifier::external_body]
fn ulid_from_parts(timestamp_ms: u64, randomness: u128) -> (r: u128)
    ensures
        r == ulid_of(timestamp_ms, randomness),
{
    ulid::Ulid::from_parts(timestamp_ms, randomness).0
}

/// The timestamp of an identifier.
///
/// Calls `ulid::Ulid::timestamp_ms`, which returns what stands above the low 80
/// bits.
#[verifier::external_body]
fn ulid_timestamp_ms(value: u128) -> (r: u64)
    ensures
        r == value / RANDOM_RANGE,
{
    ulid::Ulid(value).timestamp_ms()
}

/// The wire form of an identifier.
///
/// Calls `ulid::Ulid::to_bytes`, which returns the big-endian bytes.
#[verifier::external_body]
fn ulid_to_bytes(value: u128) -> (r: [u8; 16])
    ensures
        r@ == be_bytes(value),
{
    ulid::Ulid(value).to_bytes()
}

/// The number of an identifier in its wire form.
///
/// Calls `ulid::Ulid::from_bytes`, which reads the bytes as a big-endian number.
#[verifier::external_body]
fn ulid_from_bytes(bytes: [u8; 16]) -> (r: u128)
    ensures
        be_bytes(r) == bytes@,
{
    ulid::Ulid::from_bytes(bytes).0
}

/// The text form of an identifier.
///
/// Calls `ulid::Ulid::to_string`, which writes the number in 26 Crockford
/// base32 digits.
#[verifier::external_body]
fn ulid_to_string(value: u128) -> (r: String)
    ensures
        r@ == base32_text(value),
{
    ulid::Ulid(value).to_string()
}

/// Unique identifier of a signal: a timestamp followed by randomness, so that
/// identifiers order by emission time.
#[derive(Clone, Copy, Debug, PartialEq, Eq, Structural, Hash, PartialOrd, Ord)]
pub struct SignalId {
    value: u128,
}

impl View for SignalId {
    type V = u128;

    closed spec fn view(&self) -> u128 {
        self.value
    }
}

/// Identifiers with the same number are the same.
pub broadcast proof fn lemma_ids_are_numbers(a: SignalId, b: SignalId)
    ensures
        (#[trigger] a@ == #[trigger] b@) <==> a == b,
{
}

/// The random part that two draws make.
pub open spec fn randomness_of(first: u64, second: u64) -> u128 {
    (first * 0x1_0000_0000_0000_0000 + second) as u128
}

/// Joins two draws into one random part.
pub(crate) fn join_draws(first: u64, second: u64) -> (r: u128)
    ensures
        r == randomness_of(first, second),
{
    first as u128 * 0x1_0000_0000_0000_0000 + second as u128
}

impl SignalId {
    /// Build an identifier from an explicit millisecond timestamp and
    /// randomness.
    pub fn from_parts(timestamp_ms: u64, randomness: u128) -> (r: SignalId)
        ensures
            r@ == ulid_of(timestamp_ms, randomness),
    {
        SignalId { value: ulid_from_parts(timestamp_ms, randomness) }
    }

    /// Generate an identifier for an instant from two draws.
    pub fn generate_at<R: Rng>(now_ns: u64, rng: &mut R) -> (r: SignalId)
        ensures
            r@ == ulid_of(
                now_ns / 1_000_000,
                randomness_of(old(rng).draw(0), old(rng).draw(1)),
            ),
            forall|k: nat| #[trigger] final(rng).draw(k) == old(rng).draw(k + 2),
    {
        let ghost start = *rng;
        let first: u64 = rng.next_u64();
        let ghost middle = *rng;
        assert(middle.draw(0) == start.draw(1));
        let second: u64 = rng.next_u64();
        assert forall|k: nat| #[trigger] rng.draw(k) == start.draw(k + 2) by {
            assert(rng.draw(k) == middle.draw(k + 1));
            assert(middle.draw(k + 1) == start.draw(k + 2));
        }
        SignalId::from_parts(now_ns / 1_000_000, join_draws(first, second))
    }

    /// Generate an identifier from a clock and a randomness source.
    pub fn generate<C: Clock, R: Rng>(clock: &C, rng: &mut R) -> (r: SignalId)
        ensures
            exists|now_ns: u64|
                call_ensures(C::now_ns, (clock,), now_ns) && r@ == #[trigger] ulid_of(
                    (now_ns / 1_000_000) as u64,
                    randomness_of(old(rng).draw(0), old(rng).draw(1)),
                ),
            forall|k: nat| #[trigger] final(rng).draw(k) == old(rng).draw(k + 2),
    {
        let now: u64 = clock.now_ns();
        let ghost first = rng.draw(0);
        let ghost second = rng.draw(1);
        let r = SignalId::generate_at(now, rng);
        assert(r@ == ulid_of((now / 1_000_000) as u64, randomness_of(first, second)));
        r
    }

    /// Generate an identifier using the host clock.
    pub fn generate_now<R: Rng>(rng: &mut R) -> (r: SignalId)
        ensures
            exists|now_ns: u64|
                host_tells(now_ns) && r@ == #[trigger] ulid_of(
                    (now_ns / 1_000_000) as u64,
                    randomness_of(old(rng).draw(0), old(rng).draw(1)),
                ),
            forall|k: nat| #[trigger] final(rng).draw(k) == old(rng).draw(k + 2),
    {
        SignalId::generate(&SystemClock, rng)
    }

    /// The timestamp component, in milliseconds since the Unix epoch.
    pub fn timestamp_ms(&self) -> (r: u64)
        ensures
            r == self@ / RANDOM_RANGE,
    {
        ulid_timestamp_ms(self.value)
    }

    /// The 16-byte wire representation.
    pub fn to_bytes(self) -> (r: [u8; 16])
        ensures
            r@ == be_bytes(self@),
    {
        ulid_to_bytes(self.value)
    }

    /// Parse from the 16-byte wire representation.
    pub fn from_bytes(bytes: [u8; 16]) -> (r: SignalId)
        ensures
            be_bytes(r@) == bytes@,
    {
        SignalId { value: ulid_from_bytes(bytes) }
    }

    /// The 26-character text form.
    pub fn to_string(&self) -> (r: String)
        ensures
            r@ == base32_text(self@),
    {
        ulid_to_string(self.value)
    }

    /// Whether this identifier comes before another.
    pub fn precedes(self, other: SignalId) -> (r: bool)
        ensures
            r == (self@ < other@),
    {
        self.value < other.value
    }
}

/// The type of a signal, determining how it is routed and processed.
#[derive(Debug, PartialEq, Eq, Hash)]
pub enum SignalType {
    /// Carries a data payload.
    Data,
    /// Requests data from the network.
    Query,
    /// Notifies of a state change.
    Event,
    /// Requests an action.
    Command,
    /// Maintains synapse liveness.
    Heartbeat,
    /// Announces node capability.
    Discovery,
    /// Reports the outcome of an acknowledged signal.
    Receipt,
    /// Application-defined signal type.
    Custom(String),
}

/// A signal type as a value: its wire byte and, for an application-defined
/// type, its name.
pub struct TypeModel {
    /// The wire byte.
    pub byte: u8,
    /// The name of an application-defined type, else empty.
    pub name: Seq<char>,
}

impl View for SignalType {
    type V = TypeModel;

    open spec fn view(&self) -> TypeModel {
        TypeModel {
            byte: match self {
                SignalType::Data => 0,
                SignalType::Query => 1,
                SignalType::Event => 2,
                SignalType::Command => 3,
                SignalType::Heartbeat => 4,
                SignalType::Discovery => 5,
                SignalType::Receipt => 6,
                SignalType::Custom(_) => 15,
            },
            name: match self {
                SignalType::Custom(name) => name@,
                _ => Seq::empty(),
            },
        }
    }
}

impl Clone for SignalType {
    fn clone(&self) -> (r: Self)
        ensures
            r@ == self@,
            !(self is Custom) ==> r == *self,
    {
        match self {
            SignalType::Data => SignalType::Data,
            SignalType::Query => SignalType::Query,
            SignalType::Event => SignalType::Event,
            SignalType::Command => SignalType::Command,
            SignalType::Heartbeat => SignalType::Heartbeat,
            SignalType::Discovery => SignalType::Discovery,
            SignalType::Receipt => SignalType::Receipt,
            SignalType::Custom(name) => SignalType::Custom(name.clone()),
        }
    }
}

impl SignalType {
    /// Convert to the wire format type byte.
    pub fn to_type_byte(&self) -> (r: u8)
        ensures
            r == self@.byte,
    {
        match self {
            SignalType::Data => 0,
            SignalType::Query => 1,
            SignalType::Event => 2,
            SignalType::Command => 3,
            SignalType::Heartbeat => 4,
            SignalType::Discovery => 5,
            SignalType::Receipt => 6,
            SignalType::Custom(_) => 15,
        }
    }

    /// Whether this type may itself request acknowledgement.
    ///
    /// A receipt is never acknowledged, so the protocol cannot recurse.
    pub fn can_be_acknowledged(&self) -> (r: bool)
        ensures
            r == !(self is Receipt),
    {
        match self {
            SignalType::Receipt => false,
            _ => true,
        }
    }

    /// Parse from the wire format type byte.
    ///
    /// An application-defined type has no byte of its own: the name is not in
    /// it, so the caller must supply it.
    pub fn from_type_byte(byte: u8) -> (r: Option<SignalType>)
        ensures
            byte <= 6 ==> r is Some && r->0@.byte == byte && !(r->0 is Custom),
            byte > 6 ==> r is None,
    {
        match byte {
            0 => Some(SignalType::Data),
            1 => Some(SignalType::Query),
            2 => Some(SignalType::Event),
            3 => Some(SignalType::Command),
            4 => Some(SignalType::Heartbeat),
            5 => Some(SignalType::Discovery),
            6 => Some(SignalType::Receipt),
            _ => None,
        }
    }

    /// Whether two types are the same.
    pub fn same(&self, other: &SignalType) -> (r: bool)
        ensures
            r == (self@ == other@),
    {
        match (self, other) {
            (SignalType::Custom(a), SignalType::Custom(b)) => same_text(a.as_str(), b.as_str()),
            _ => self.to_type_byte() == other.to_type_byte(),
        }
    }
}

/// The wire byte of every type but an application-defined one parses back to
/// the type.
pub proof fn lemma_type_byte_round_trip(t: SignalType, parsed: SignalType)
    requires
        !(t is Custom),
        !(parsed is Custom),
        parsed@.byte == t@.byte,
    ensures
        parsed == t,
{
}

/// Encoding format of signal payloads.
#[derive(Clone, Copy, Debug, PartialEq, Eq, Structural)]
pub enum Encoding {
    /// CBOR: compact binary, self-describing. The default.
    Cbor,
    /// Protocol Buffers, where a schema is shared.
    Protobuf,
    /// Raw unstructured bytes.
    Raw,
}

/// A node identifier, derived from the node's public key.
#[derive(Debug, PartialEq, Eq, Hash)]
pub struct NodeId(pub Vec<u8>);

impl View for NodeId {
    type V = Seq<u8>;

    open spec fn view(&self) -> Seq<u8> {
        self.0@
    }
}

impl Clone for NodeId {
    fn clone(&self) -> (r: Self)
        ensures
            r@ == self@,
    {
        NodeId(copy_bytes(&self.0))
    }
}

impl NodeId {
    /// Whether two identifiers are the same.
    pub fn same(&self, other: &NodeId) -> (r: bool)
        ensures
            r == (self@ == other@),
    {
        same_bytes(&self.0, &other.0)
    }

    /// The identifier for people: its first eight bytes.
    pub fn to_string(&self) -> (r: String)
        ensures
            r@ == "ntl:"@ + hex_text(self@.take(if 8 < self@.len() {
                8
            } else {
                self@.len() as int
            })) + "..."@,
    {
        let mut out: String = String::from_str("ntl:");
        out.append(hex_prefix(&self.0, 8).as_str());
        out.append("...");
        out
    }
}

/// The identities in a trace.
pub open spec fn ids(trace: Seq<NodeId>) -> Seq<Seq<u8>> {
    trace.map_values(|n: NodeId| n@)
}

/// The texts in a list.
pub open spec fn texts(list: Seq<String>) -> Seq<Seq<char>> {
    list.map_values(|s: String| s@)
}

/// A signal.
#[derive(Debug)]
pub struct Signal {
    /// Unique signal identifier.
    pub id: SignalId,
    /// Signal type classification.
    pub signal_type: SignalType,
    /// Protocol version.
    pub version: u8,
    /// Emitting node identity.
    pub origin: NodeId,
    /// Signature over the signal body.
    pub signature: Vec<u8>,
    /// Emission timestamp in nanoseconds since the Unix epoch.
    pub timestamp: u64,
    /// The data payload, as JSON text.
    pub payload: String,
    /// Payload encoding format.
    pub encoding: Encoding,
    /// Signal weight or priority, between zero and one.
    pub weight: Scalar,
    /// Time-to-live in hops.
    pub ttl: u16,
    /// Propagation scope.
    pub scope: PropagationScope,
    /// Links to a related signal for request-response patterns.
    pub correlation_id: Option<SignalId>,
    /// Ordered list of nodes this signal has traversed.
    pub trace: Vec<NodeId>,
    /// Searchable tags.
    pub tags: Vec<String>,
    /// Delivery class.
    pub delivery: DeliveryClass,
}

/// A signal as a value.
pub struct SignalModel {
    /// Unique signal identifier.
    pub id: SignalId,
    /// Signal type classification.
    pub signal_type: TypeModel,
    /// Protocol version.
    pub version: u8,
    /// Emitting node identity.
    pub origin: Seq<u8>,
    /// Signature over the signal body.
    pub signature: Seq<u8>,
    /// Emission timestamp.
    pub timestamp: u64,
    /// The data payload.
    pub payload: Seq<char>,
    /// Payload encoding format.
    pub encoding: Encoding,
    /// Signal weight.
    pub weight: Scalar,
    /// Time-to-live in hops.
    pub ttl: u16,
    /// Propagation scope.
    pub scope: ScopeModel,
    /// Link to a related signal.
    pub correlation_id: Option<SignalId>,
    /// Nodes traversed.
    pub trace: Seq<Seq<u8>>,
    /// Searchable tags.
    pub tags: Seq<Seq<char>>,
    /// Delivery class.
    pub delivery: DeliveryClass,
}

impl View for Signal {
    type V = SignalModel;

    open spec fn view(&self) -> SignalModel {
        SignalModel {
            id: self.id,
            signal_type: self.signal_type@,
            version: self.version,
            origin: self.origin@,
            signature: self.signature@,
            timestamp: self.timestamp,
            payload: self.payload@,
            encoding: self.encoding,
            weight: self.weight,
            ttl: self.ttl,
            scope: self.scope@,
            correlation_id: self.correlation_id,
            trace: ids(self.trace@),
            tags: texts(self.tags@),
            delivery: self.delivery,
        }
    }
}

/// The bytes that texts take in all.
pub open spec fn text_size(tags: Seq<Seq<char>>) -> int
    decreases tags.len(),
{
    if tags.len() == 0 {
        0
    } else {
        text_size(tags.drop_last()) + encode_utf8(tags.last()).len()
    }
}

/// The weight is a number between zero and one.
pub open spec fn weight_in_range(weight: Scalar) -> bool {
    weight.between(Scalar::from_bits(ZERO), Scalar::from_bits(ONE))
}

impl SignalModel {
    /// What is wrong with the signal, if anything: the first of a weight out of
    /// range, no hops left, and no signature.
    pub open spec fn validity(self) -> Result<(), Error> {
        if !weight_in_range(self.weight) {
            Err(Error::WeightOutOfRange(self.weight))
        } else if self.ttl == 0 {
            Err(Error::TtlExpired(self.id))
        } else if self.signature.len() == 0 {
            Err(Error::MissingSignature)
        } else {
            Ok(())
        }
    }

    /// The signal after a hop through a node.
    pub open spec fn hopped(self, node: Seq<u8>) -> SignalModel {
        SignalModel {
            ttl: if self.ttl == 0 {
                0
            } else {
                (self.ttl - 1) as u16
            },
            trace: if self.trace.len() < MAX_TRACE {
                self.trace.push(node)
            } else {
                self.trace
            },
            ..self
        }
    }

    /// The signal with another weight.
    pub open spec fn reweighted(self, weight: Scalar) -> SignalModel {
        SignalModel { weight, ..self }
    }

    /// The estimated size of the signal's wire form.
    pub open spec fn wire_size(self) -> int {
        38 + self.origin.len() + self.signature.len() + encode_utf8(self.payload).len()
            + self.trace.len() * 32 + text_size(self.tags)
    }

    /// What the origin's signature covers: everything but what changes on the
    /// way, which is the signature itself, the trace, the hops left and the
    /// weight.
    pub open spec fn signing_form(self) -> SignalModel {
        SignalModel {
            signature: Seq::empty(),
            trace: Seq::empty(),
            ttl: 0,
            weight: Scalar::from_bits(ZERO),
            ..self
        }
    }

    /// The weight for the next hop: the product, held at the floor while an
    /// acknowledged signal has hops left, within the unit interval.
    pub open spec fn hop_weight(self, factor: Scalar, floor: Scalar) -> Scalar {
        let attenuated = self.weight.product(factor);
        (if self.delivery is Acknowledged && self.ttl > 0 {
            attenuated.larger(floor)
        } else {
            attenuated
        }).clamped(Scalar::from_bits(ZERO), Scalar::from_bits(ONE))
    }
}

/// A copy of a trace.
pub fn copy_trace(trace: &Vec<NodeId>) -> (r: Vec<NodeId>)
    ensures
        ids(r@) == ids(trace@),
{
    let mut out: Vec<NodeId> = Vec::new();
    let mut i: usize = 0;
    while i < trace.len()
        invariant
            i <= trace@.len(),
            out@.len() == i,
            forall|k: int| 0 <= k < i ==> (#[trigger] out@[k])@ == trace@[k]@,
        decreases trace@.len() - i,
    {
        out.push(trace[i].clone());
        i = i + 1;
    }
    assert(ids(out@) =~= ids(trace@));
    out
}

impl Clone for Signal {
    fn clone(&self) -> (r: Self)
        ensures
            r@ == self@,
    {
        Signal {
            id: self.id,
            signal_type: self.signal_type.clone(),
            version: self.version,
            origin: self.origin.clone(),
            signature: copy_bytes(&self.signature),
            timestamp: self.timestamp,
            payload: self.payload.clone(),
            encoding: self.encoding,
            weight: self.weight,
            ttl: self.ttl,
            scope: self.scope.clone(),
            correlation_id: self.correlation_id,
            trace: copy_trace(&self.trace),
            tags: copy_texts(&self.tags),
            delivery: self.delivery,
        }
    }
}

impl Signal {
    /// Create a Data signal builder.
    pub fn data(topic: &str) -> (r: SignalBuilder)
        ensures
            r@ == SignalDraft::fresh(SignalType::Data@, topic@),
    {
        SignalBuilder::new(SignalType::Data, topic)
    }

    /// Create a Query signal builder.
    pub fn query(topic: &str) -> (r: SignalBuilder)
        ensures
            r@ == SignalDraft::fresh(SignalType::Query@, topic@),
    {
        SignalBuilder::new(SignalType::Query, topic)
    }

    /// Create an Event signal builder.
    pub fn event(topic: &str) -> (r: SignalBuilder)
        ensures
            r@ == SignalDraft::fresh(SignalType::Event@, topic@),
    {
        SignalBuilder::new(SignalType::Event, topic)
    }

    /// Create a Command signal builder.
    pub fn command(topic: &str) -> (r: SignalBuilder)
        ensures
            r@ == SignalDraft::fresh(SignalType::Command@, topic@),
    {
        SignalBuilder::new(SignalType::Command, topic)
    }

    /// Create a Discovery signal builder.
    pub fn discovery() -> (r: SignalBuilder)
        ensures
            r@ == SignalDraft::fresh(SignalType::Discovery@, "discovery"@),
    {
        SignalBuilder::new(SignalType::Discovery, "discovery")
    }

    /// Create a Heartbeat signal builder.
    pub fn heartbeat() -> (r: SignalBuilder)
        ensures
            r@ == SignalDraft::fresh(SignalType::Heartbeat@, "heartbeat"@),
    {
        SignalBuilder::new(SignalType::Heartbeat, "heartbeat")
    }

    /// Create a Receipt signal builder. The payload is the receipt as JSON
    /// text.
    ///
    /// Receipts route toward the acknowledged signal's origin, and are
    /// themselves never acknowledged.
    pub fn receipt(receipt: &Receipt, origin: NodeId, payload: &str) -> (r: SignalBuilder)
        ensures
            r@ == SignalDraft::of_receipt(*receipt, origin@, payload@),
    {
        SignalBuilder::new(SignalType::Receipt, "receipt").with_correlation(
            receipt.correlation_id,
        ).with_scope(PropagationScope::Targeted { destination: origin }).with_payload(payload)
    }

    /// Validate this signal.
    pub fn validate(&self) -> (r: Result<(), Error>)
        ensures
            r == self@.validity(),
    {
        if !self.weight.within(Scalar::from_bits(ZERO), Scalar::from_bits(ONE)) {
            return Err(Error::WeightOutOfRange(self.weight));
        }
        if self.ttl == 0 {
            return Err(Error::TtlExpired(self.id));
        }
        if self.signature.is_empty() {
            return Err(Error::MissingSignature);
        }
        Ok(())
    }

    /// Check if this signal has exceeded its TTL.
    pub fn is_expired(&self) -> (r: bool)
        ensures
            r == (self@.ttl == 0),
    {
        self.ttl == 0
    }

    /// Decrement the TTL and add a node to the trace, as far as the trace
    /// goes.
    pub fn hop(&mut self, node_id: NodeId)
        ensures
            final(self)@ == old(self)@.hopped(node_id@),
    {
        self.ttl = self.ttl.saturating_sub(1);
        if self.trace.len() < MAX_TRACE {
            self.trace.push(node_id);
            assert(ids(self.trace@) =~= ids(old(self).trace@).push(node_id@));
        }
    }

    /// Attenuate the signal weight by a factor.
    pub fn attenuate(&mut self, factor: Scalar)
        ensures
            final(self)@ == old(self)@.reweighted(
                old(self)@.weight.product(factor).clamped(
                    Scalar::from_bits(ZERO),
                    Scalar::from_bits(ONE),
                ),
            ),
    {
        self.weight = self.weight.times(factor).clamp(
            Scalar::from_bits(ZERO),
            Scalar::from_bits(ONE),
        );
    }

    /// Check if a node appears in the trace.
    pub fn has_visited(&self, node_id: &NodeId) -> (r: bool)
        ensures
            r == self@.trace.contains(node_id@),
    {
        let mut i: usize = 0;
        while i < self.trace.len()
            invariant
                i <= self.trace@.len(),
                forall|k: int| 0 <= k < i ==> (#[trigger] self.trace@[k])@ != node_id@,
            decreases self.trace@.len() - i,
        {
            if self.trace[i].same(node_id) {
                assert(self@.trace[i as int] == node_id@);
                return true;
            }
            i = i + 1;
        }
        assert forall|k: int| 0 <= k < self@.trace.len() implies self@.trace[k] != node_id@ by {
            assert(self.trace@[k]@ != node_id@);
        }
        false
    }

    /// Estimate the size of the wire form, in bytes.
    pub fn estimated_size(&self) -> (r: usize)
        requires
            self@.wire_size() <= usize::MAX,
        ensures
            r == self@.wire_size(),
    {
        let mut total: usize = 0;
        let mut i: usize = 0;
        assert(self@.tags.take(0) =~= Seq::<Seq<char>>::empty());
        while i < self.tags.len()
            invariant
                i <= self.tags@.len(),
                total == text_size(self@.tags.take(i as int)),
                text_size(self@.tags) <= usize::MAX,
            decreases self.tags@.len() - i,
        {
            proof {
                lemma_text_size_grows(self@.tags, i as int);
            }
            total = total + self.tags[i].as_str().len();
            i = i + 1;
        }
        proof {
            assert(self@.tags.take(self@.tags.len() as int) =~= self@.tags);
            assert(ids(self.trace@).len() == self.trace@.len());
        }
        38 + self.origin.0.len() + self.signature.len() + self.payload.as_str().len()
            + self.trace.len() * 32 + total
    }

    /// Whether this signal requires its failures to be reported.
    pub fn requires_receipt(&self) -> (r: bool)
        ensures
            r == (self@.delivery is Acknowledged),
    {
        self.delivery.requires_receipt()
    }

    /// Attenuate the weight for a hop, respecting the acknowledged floor.
    ///
    /// Without the floor, a path of more than a few hops would guarantee that
    /// an acknowledged signal falls below the propagation weight, however good
    /// the routing.
    pub fn attenuate_for_hop(&mut self, factor: Scalar, min_propagation_weight: Scalar)
        ensures
            final(self)@ == old(self)@.reweighted(
                old(self)@.hop_weight(factor, min_propagation_weight),
            ),
    {
        let attenuated = self.weight.times(factor);
        let held = if self.requires_receipt() && self.ttl > 0 {
            attenuated.max(min_propagation_weight)
        } else {
            attenuated
        };
        self.weight = held.clamp(Scalar::from_bits(ZERO), Scalar::from_bits(ONE));
    }

    /// Hand on the bytes of an encoded signal, unless there are too many.
    pub fn encode(bytes: Vec<u8>) -> (r: Result<Vec<u8>, Error>)
        ensures
            bytes@.len() <= MAX_SIZE ==> r == Ok::<Vec<u8>, Error>(bytes),
            bytes@.len() > MAX_SIZE ==> r == Err::<Vec<u8>, Error>(
                Error::TooLarge(bytes@.len() as usize),
            ),
    {
        if bytes.len() > MAX_SIZE {
            return Err(Error::TooLarge(bytes.len()));
        }
        Ok(bytes)
    }

    /// Check the size of an encoded signal before it is decoded.
    ///
    /// The cheapest test comes first, so oversize input costs no decoding.
    pub fn decode(bytes: &[u8]) -> (r: Result<(), Error>)
        ensures
            bytes@.len() <= MAX_SIZE ==> r == Ok::<(), Error>(()),
            bytes@.len() > MAX_SIZE ==> r == Err::<(), Error>(
                Error::TooLarge(bytes@.len() as usize),
            ),
    {
        if bytes.len() > MAX_SIZE {
            return Err(Error::TooLarge(bytes.len()));
        }
        Ok(())
    }

    /// The signal whose encoding a signature covers.
    pub fn signing_bytes(&self) -> (r: Signal)
        ensures
            r@ == self@.signing_form(),
    {
        let mut unsigned = self.clone();
        unsigned.signature = Vec::new();
        unsigned.trace = Vec::new();
        unsigned.ttl = 0;
        unsigned.weight = Scalar::from_bits(ZERO);
        assert(ids(unsigned.trace@) =~= Seq::<Seq<u8>>::empty());
        unsigned
    }
}

/// The texts up to and with one take no more bytes than all of them.
proof fn lemma_text_size_grows(tags: Seq<Seq<char>>, i: int)
    requires
        0 <= i < tags.len(),
    ensures
        text_size(tags.take(i + 1)) == text_size(tags.take(i)) + encode_utf8(tags[i]).len(),
        0 <= text_size(tags.take(i)),
        text_size(tags.take(i + 1)) <= text_size(tags),
    decreases tags.len(),
{
    assert(tags.take(i + 1).drop_last() =~= tags.take(i));
    if i + 1 < tags.len() {
        let front = tags.drop_last();
        lemma_text_size_grows(front, i);
        assert(front.take(i + 1) =~= tags.take(i + 1));
        assert(front.take(i) =~= tags.take(i));
    } else {
        assert(tags.take(i + 1) =~= tags);
        if i > 0 {
            lemma_text_size_grows(tags.drop_last(), i - 1);
            assert(tags.drop_last().take(i) =~= tags.take(i));
        }
    }
}

/// Builder for constructing signals with a fluent interface.
#[derive(Debug)]
pub struct SignalBuilder {
    signal_type: SignalType,
    topic: String,
    payload: String,
    weight: Scalar,
    ttl: u16,
    scope: PropagationScope,
    correlation_id: Option<SignalId>,
    tags: Vec<String>,
    delivery: DeliveryClass,
}

/// A signal under construction, as a value.
pub struct SignalDraft {
    /// Signal type classification.
    pub signal_type: TypeModel,
    /// The topic, which becomes the first tag.
    pub topic: Seq<char>,
    /// The data payload.
    pub payload: Seq<char>,
    /// Signal weight.
    pub weight: Scalar,
    /// Time-to-live in hops.
    pub ttl: u16,
    /// Propagation scope.
    pub scope: ScopeModel,
    /// Link to a related signal.
    pub correlation_id: Option<SignalId>,
    /// Searchable tags.
    pub tags: Seq<Seq<char>>,
    /// Delivery class.
    pub delivery: DeliveryClass,
}

impl SignalDraft {
    /// A draft with nothing but a type and a topic.
    pub open spec fn fresh(signal_type: TypeModel, topic: Seq<char>) -> SignalDraft {
        SignalDraft {
            signal_type,
            topic,
            payload: "null"@,
            weight: Scalar::from_bits(HALF),
            ttl: 10,
            scope: ScopeModel::Weighted(Scalar::from_bits(ZERO)),
            correlation_id: None,
            tags: Seq::empty(),
            delivery: DeliveryClass::BestEffort,
        }
    }

    /// The draft of a receipt signal toward an origin.
    pub open spec fn of_receipt(receipt: Receipt, origin: Seq<u8>, payload: Seq<char>) -> SignalDraft {
        SignalDraft {
            correlation_id: Some(receipt.correlation_id),
            scope: ScopeModel::Targeted(origin),
            payload,
            ..SignalDraft::fresh(SignalType::Receipt@, "receipt"@)
        }
    }

    /// The draft after an acknowledgement was asked for. A receipt stays as it
    /// is.
    pub open spec fn acknowledging(self) -> SignalDraft {
        if self.signal_type == SignalType::Receipt@ {
            self
        } else {
            SignalDraft { delivery: DeliveryClass::Acknowledged, ..self }
        }
    }

    /// The signal that an origin makes of the draft, unsigned.
    pub open spec fn built(self, origin: Seq<u8>, now_ns: u64, id: SignalId) -> SignalModel {
        SignalModel {
            id,
            signal_type: self.signal_type,
            version: 1,
            origin,
            signature: Seq::empty(),
            timestamp: now_ns,
            payload: self.payload,
            encoding: Encoding::Cbor,
            weight: self.weight,
            ttl: self.ttl,
            scope: self.scope,
            correlation_id: self.correlation_id,
            trace: Seq::empty(),
            tags: if self.topic.len() == 0 {
                self.tags
            } else {
                seq![self.topic] + self.tags
            },
            delivery: self.delivery,
        }
    }
}

impl View for SignalBuilder {
    type V = SignalDraft;

    closed spec fn view(&self) -> SignalDraft {
        SignalDraft {
            signal_type: self.signal_type@,
            topic: self.topic@,
            payload: self.payload@,
            weight: self.weight,
            ttl: self.ttl,
            scope: self.scope@,
            correlation_id: self.correlation_id,
            tags: texts(self.tags@),
            delivery: self.delivery,
        }
    }
}

impl SignalBuilder {
    fn new(signal_type: SignalType, topic: &str) -> (r: SignalBuilder)
        ensures
            r@ == SignalDraft::fresh(signal_type@, topic@),
    {
        let r = SignalBuilder {
            signal_type,
            topic: topic.to_owned(),
            payload: "null".to_owned(),
            weight: Scalar::from_bits(HALF),
            ttl: 10,
            scope: PropagationScope::Weighted { min_synapse_weight: Scalar::from_bits(ZERO) },
            correlation_id: None,
            tags: Vec::new(),
            delivery: DeliveryClass::BestEffort,
        };
        assert(texts(r.tags@) =~= Seq::<Seq<char>>::empty());
        r
    }

    /// Set the signal payload, as JSON text.
    pub fn with_payload(self, payload: &str) -> (r: SignalBuilder)
        ensures
            r@ == (SignalDraft { payload: payload@, ..self@ }),
    {
        let mut r = self;
        r.payload = payload.to_owned();
        r
    }

    /// Set the signal weight, limited to the unit interval.
    pub fn with_weight(self, weight: Scalar) -> (r: SignalBuilder)
        ensures
            r@ == (SignalDraft {
                weight: weight.clamped(Scalar::from_bits(ZERO), Scalar::from_bits(ONE)),
                ..self@
            }),
    {
        let mut r = self;
        r.weight = weight.clamp(Scalar::from_bits(ZERO), Scalar::from_bits(ONE));
        r
    }

    /// Set the time-to-live in hops.
    pub fn with_ttl(self, ttl: u16) -> (r: SignalBuilder)
        ensures
            r@ == (SignalDraft { ttl, ..self@ }),
    {
        let mut r = self;
        r.ttl = ttl;
        r
    }

    /// Set the propagation scope.
    pub fn with_scope(self, scope: PropagationScope) -> (r: SignalBuilder)
        ensures
            r@ == (SignalDraft { scope: scope@, ..self@ }),
    {
        let mut r = self;
        r.scope = scope;
        r
    }

    /// Set a correlation identifier for request-response patterns.
    pub fn with_correlation(self, id: SignalId) -> (r: SignalBuilder)
        ensures
            r@ == (SignalDraft { correlation_id: Some(id), ..self@ }),
    {
        let mut r = self;
        r.correlation_id = Some(id);
        r
    }

    /// Set searchable tags.
    ///
    /// Tags are visible to every node on the path. Do not put sensitive data
    /// in them.
    pub fn with_tags(self, tags: Vec<&str>) -> (r: SignalBuilder)
        ensures
            r@ == (SignalDraft { tags: tags@.map_values(|s: &str| s@), ..self@ }),
    {
        let mut owned: Vec<String> = Vec::new();
        let mut i: usize = 0;
        while i < tags.len()
            invariant
                i <= tags@.len(),
                owned@.len() == i,
                forall|k: int| 0 <= k < i ==> (#[trigger] owned@[k])@ == tags@[k]@,
            decreases tags@.len() - i,
        {
            owned.push(tags[i].to_owned());
            i = i + 1;
        }
        assert(texts(owned@) =~= tags@.map_values(|s: &str| s@));
        let mut r = self;
        r.tags = owned;
        r
    }

    /// Set the delivery class.
    pub fn with_delivery(self, delivery: DeliveryClass) -> (r: SignalBuilder)
        ensures
            r@ == (SignalDraft { delivery, ..self@ }),
    {
        let mut r = self;
        r.delivery = delivery;
        r
    }

    /// Request at-least-once delivery with failure reporting.
    ///
    /// Has no effect on a receipt, which is never itself acknowledged.
    pub fn acknowledged(self) -> (r: SignalBuilder)
        ensures
            r@ == self@.acknowledging(),
    {
        let mut r = self;
        if r.signal_type.can_be_acknowledged() {
            r.delivery = DeliveryClass::Acknowledged;
        }
        r
    }

    /// Build an unsigned signal with a given identifier and instant.
    pub fn build_at(self, origin: NodeId, now_ns: u64, id: SignalId) -> (r: Signal)
        ensures
            r@ == self@.built(origin@, now_ns, id),
    {
        let ghost draft = self@;
        let mut tags = self.tags;
        if !self.topic.as_str().is_empty() {
            tags.insert(0, self.topic);
            assert(texts(tags@) =~= seq![draft.topic] + draft.tags);
        }
        let r = Signal {
            id,
            signal_type: self.signal_type,
            version: 1,
            origin,
            signature: Vec::new(),
            timestamp: now_ns,
            payload: self.payload,
            encoding: Encoding::Cbor,
            weight: self.weight,
            ttl: self.ttl,
            scope: self.scope,
            correlation_id: self.correlation_id,
            trace: Vec::new(),
            tags,
            delivery: self.delivery,
        };
        assert(ids(r.trace@) =~= Seq::<Seq<u8>>::empty());
        r
    }

    /// Build an unsigned signal with an explicit clock and randomness source.
    ///
    /// The signal still needs signing before it is sent.
    pub fn build_unsigned_with<C: Clock, R: Rng>(self, origin: NodeId, clock: &C, rng: &mut R) -> (r:
        Signal)
        ensures
            r@ == self@.built(origin@, r@.timestamp, r@.id),
            call_ensures(C::now_ns, (clock,), r@.timestamp),
            exists|now_ns: u64|
                call_ensures(C::now_ns, (clock,), now_ns) && r@.id@ == #[trigger] ulid_of(
                    (now_ns / 1_000_000) as u64,
                    randomness_of(old(rng).draw(0), old(rng).draw(1)),
                ),
            forall|k: nat| #[trigger] final(rng).draw(k) == old(rng).draw(k + 2),
    {
        let now: u64 = clock.now_ns();
        let id = SignalId::generate(clock, rng);
        self.build_at(origin, now, id)
    }

    /// Build an unsigned signal using the host clock and a seeded generator.
    pub fn build_unsigned(self, origin: NodeId) -> (r: Signal)
        ensures
            r@ == self@.built(origin@, r@.timestamp, r@.id),
            host_tells(r@.timestamp),
            exists|seeded: SplitMix64, start_ns: u64, now_ns: u64|
                host_tells(start_ns) && host_tells(now_ns) && seeded@ == #[trigger] absorbed(
                    start_ns,
                    origin@,
                ) && r@.id@ == #[trigger] ulid_of(
                    (now_ns / 1_000_000) as u64,
                    randomness_of(seeded.draw(0), seeded.draw(1)),
                ),
    {
        let clock = SystemClock;
        let start: u64 = clock.now_ns();
        let mut rng = SplitMix64::from_identity(origin.0.as_slice(), start);
        let ghost seeded = rng;
        assert(seeded@ == absorbed(start, origin@));
        self.build_unsigned_with(origin, &clock, &mut rng)
    }
}

/// The leading bytes of a number, as a number.
proof fn lemma_leading_bytes(value: u128, n: nat)
    requires
        n <= 15,
    ensures
        value as int / pow(256, (15 - n) as nat) == (value as int / pow(256, (16 - n) as nat)) * 256
            + be_bytes(value)[n as int] as int,
{
    let d = pow(256, (15 - n) as nat);
    vstd::arithmetic::power::lemma_pow_positive(256, (15 - n) as nat);
    vstd::arithmetic::power::lemma_pow_adds(256, (15 - n) as nat, 1);
    vstd::arithmetic::power::lemma_pow1(256);
    let v = value as int;
    vstd::arithmetic::div_mod::lemma_div_denominator(v, d, 256);
    vstd::arithmetic::div_mod::lemma_fundamental_div_mod(v / d, 256);
    vstd::arithmetic::div_mod::lemma_mod_bound(v / d, 256);
}

/// Numbers with the same leading bytes agree on them.
proof fn lemma_same_leading_bytes(a: u128, b: u128, n: nat)
    requires
        be_bytes(a) == be_bytes(b),
        n <= 16,
    ensures
        a as int / pow(256, (16 - n) as nat) == b as int / pow(256, (16 - n) as nat),
    decreases n,
{
    if n == 0 {
        vstd::arithmetic::power::lemma_pow_adds(256, 8, 8);
        assert(pow(256, 8) == 0x1_0000_0000_0000_0000) by {
            reveal(pow);
            reveal_with_fuel(pow, 9);
        }
        vstd::arithmetic::div_mod::lemma_basic_div(a as int, pow(256, 16));
        vstd::arithmetic::div_mod::lemma_basic_div(b as int, pow(256, 16));
    } else {
        lemma_same_leading_bytes(a, b, (n - 1) as nat);
        lemma_leading_bytes(a, (n - 1) as nat);
        lemma_leading_bytes(b, (n - 1) as nat);
    }
}

/// An identifier read back from its wire form is the identifier.
pub proof fn lemma_id_bytes_round_trip(id: SignalId, again: SignalId)
    requires
        be_bytes(again@) == be_bytes(id@),
    ensures
        again == id,
{
    lemma_same_leading_bytes(id@, again@, 16);
    vstd::arithmetic::power::lemma_pow0(256);
    lemma_ids_are_numbers(id, again);
}

/// An identifier holds its timestamp, and one of a later instant comes after one
/// of an earlier.
pub proof fn lemma_ids_follow_time(
    earlier_ms: u64,
    later_ms: u64,
    randomness: u128,
    other: u128,
)
    requires
        earlier_ms < later_ms < TIME_RANGE,
    ensures
        ulid_of(earlier_ms, randomness) < ulid_of(later_ms, other),
        ulid_of(later_ms, other) / RANDOM_RANGE as int == later_ms,
{
    let range = RANDOM_RANGE as int;
    vstd::arithmetic::div_mod::lemma_small_mod(earlier_ms as nat, TIME_RANGE as nat);
    vstd::arithmetic::div_mod::lemma_small_mod(later_ms as nat, TIME_RANGE as nat);
    let low = other as int % range;
    vstd::arithmetic::div_mod::lemma_fundamental_div_mod_converse(
        later_ms * range + low,
        range,
        later_ms as int,
        low,
    );
}

/// A receipt is never itself acknowledged, so receipts do not call for receipts,
/// and it goes toward the origin of the signal that it reports on.
pub proof fn lemma_receipts_are_not_acknowledged(
    receipt: Receipt,
    origin: Seq<u8>,
    payload: Seq<char>,
    me: Seq<u8>,
    now_ns: u64,
    id: SignalId,
)
    ensures
        ({
            let built = SignalDraft::of_receipt(receipt, origin, payload).acknowledging().built(
                me,
                now_ns,
                id,
            );
            &&& built.delivery is BestEffort
            &&& built.scope == ScopeModel::Targeted(origin)
            &&& built.correlation_id == Some(receipt.correlation_id)
        }),
{
}

/// A hop leaves a weight in the unit interval. It raises none, but for holding
/// an acknowledged signal with hops left at the floor.
pub proof fn lemma_hops_attenuate(signal: SignalModel, factor: Scalar, floor: Scalar)
    requires
        weight_in_range(signal.weight),
        factor.between(Scalar::from_bits(ZERO), Scalar::from_bits(ONE)),
        floor.between(Scalar::from_bits(ZERO), Scalar::from_bits(ONE)),
    ensures
        weight_in_range(signal.hop_weight(factor, floor)),
        signal.hop_weight(factor, floor).at_most(signal.weight.larger(floor)),
        signal.delivery is BestEffort ==> signal.hop_weight(factor, floor).at_most(signal.weight),
        signal.delivery is Acknowledged && signal.ttl > 0 ==> floor.at_most(
            signal.hop_weight(factor, floor),
        ),
{
    crate::arith::lemma_shrinking(signal.weight, factor);
}

/// The number that the first `n` digits of an identifier make.
spec fn leading(value: u128, n: nat) -> int {
    value as int / pow(32, (26 - n) as nat)
}

/// One more digit of an identifier.
proof fn lemma_leading_digit(value: u128, n: nat)
    requires
        n < 26,
    ensures
        leading(value, n + 1) == leading(value, n) * 32 + leading(value, n + 1) % 32,
        0 <= leading(value, n + 1) % 32 < 32,
{
    let d = pow(32, (25 - n) as nat);
    let v = value as int;
    vstd::arithmetic::power::lemma_pow_positive(32, (25 - n) as nat);
    vstd::arithmetic::power::lemma_pow_adds(32, (25 - n) as nat, 1);
    vstd::arithmetic::power::lemma_pow1(32);
    vstd::arithmetic::div_mod::lemma_div_denominator(v, d, 32);
    vstd::arithmetic::div_mod::lemma_fundamental_div_mod(v / d, 32);
    vstd::arithmetic::div_mod::lemma_mod_bound(v / d, 32);
}

/// The digits of the alphabet stand in the order of their characters.
proof fn lemma_alphabet(i: int, j: int)
    requires
        0 <= i < j < 32,
    ensures
        ("0123456789ABCDEFGHJKMNPQRSTVWXYZ"@[i] as int)
            < ("0123456789ABCDEFGHJKMNPQRSTVWXYZ"@[j] as int),
{
    reveal_strlit("0123456789ABCDEFGHJKMNPQRSTVWXYZ");
}

/// Where two numbers agree in their first digits, the rest decides their order.
proof fn lemma_digits_order(a: u128, b: u128, n: nat)
    requires
        a < b,
        n <= 26,
        leading(a, n) == leading(b, n),
    ensures
        lex_below(
            base32_text(a).map_values(|x: char| x as int).skip(n as int),
            base32_text(b).map_values(|x: char| x as int).skip(n as int),
        ),
    decreases 26 - n,
{
    let f = |x: char| x as int;
    let ta = base32_text(a).map_values(f);
    let tb = base32_text(b).map_values(f);
    if n == 26 {
        vstd::arithmetic::power::lemma_pow0(32);
    } else {
        lemma_leading_digit(a, n);
        lemma_leading_digit(b, n);
        vstd::arithmetic::power::lemma_pow_positive(32, (25 - n) as nat);
        vstd::arithmetic::div_mod::lemma_div_is_ordered(
            a as int,
            b as int,
            pow(32, (25 - n) as nat),
        );
        let x = leading(a, n + 1) % 32;
        let y = leading(b, n + 1) % 32;
        assert(ta.skip(n as int)[0] == ta[n as int]);
        assert(tb.skip(n as int)[0] == tb[n as int]);
        assert(ta.skip(n as int).skip(1) =~= ta.skip(n as int + 1));
        assert(tb.skip(n as int).skip(1) =~= tb.skip(n as int + 1));
        if x == y {
            lemma_digits_order(a, b, n + 1);
        } else {
            assert(x < y);
            lemma_alphabet(x, y);
        }
    }
}

/// The text forms of identifiers stand in the order of the identifiers, and so
/// in the order of their emission.
pub proof fn lemma_texts_follow_time(a: SignalId, b: SignalId)
    requires
        a@ < b@,
    ensures
        text_below(base32_text(a@), base32_text(b@)),
{
    let f = |x: char| x as int;
    assert(leading(a@, 0) == 0 && leading(b@, 0) == 0) by {
        vstd::arithmetic::power::lemma_pow_adds(32, 13, 13);
        assert(pow(32, 13) == 0x2_0000_0000_0000_0000) by {
            reveal(pow);
            reveal_with_fuel(pow, 14);
        }
        assert(0x2_0000_0000_0000_0000int * 0x2_0000_0000_0000_0000int > u128::MAX);
        vstd::arithmetic::div_mod::lemma_basic_div(a@ as int, pow(32, 26));
        vstd::arithmetic::div_mod::lemma_basic_div(b@ as int, pow(32, 26));
    }
    lemma_digits_order(a@, b@, 0);
    assert(base32_text(a@).map_values(f).skip(0) =~= base32_text(a@).map_values(f));
    assert(base32_text(b@).map_values(f).skip(0) =~= base32_text(b@).map_values(f));
}

} // verus!
