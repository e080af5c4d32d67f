//! Peer sessions: the handshake, what to do with what arrives, and what to send
//! on. The host moves the bytes; every decision is made here.

use vstd::prelude::*;

use crate::crypto::{
    blake3_of, bytes_of, covered_bytes, encodes, node_id_from_public_key, verify_bytes,
    CryptoError, CryptoModule, Encoder, PublicKey,
};
use crate::curves::Curves;
use crate::delivery::{Receipt, ReceiptStatus, RejectReason};
use crate::error::Error;
use crate::frame::FrameError;
use crate::keyed::{
    has_key, keyed, keys_differ, lemma_entry, lemma_push, lemma_remove, lemma_size, lemma_update,
};
use crate::learning::WeightUpdate;
use crate::node::{
    hops_of, id_text, leads, penalises, receipt_applied, receives, unknown_peer, Disposition, Node,
};
use crate::order::same_bytes;
use crate::propagation::{bounded, clamp_inbound_headers, HeaderClamp, PropagationConfig};
use crate::rng::Rng;
use crate::scalar::{Scalar, ONE, ZERO};
use crate::signal::{weight_in_range, NodeId, Signal, SignalId, SignalModel, SignalType};
use crate::store::{NodeStore, StoreModel};
use crate::synapse::SynapseId;
use crate::text::copy_bytes;
use crate::time::Clock;

verus! {

/// Bytes of challenge that each side sends.
pub const CHALLENGE_LEN: usize = 32;

/// How often the activation queue is polled for starving signals, in
/// milliseconds. It must be well under the shortest latency guard.
pub const ACTIVATION_POLL_INTERVAL_MS: u64 = 50;

/// How often timed-out decisions are resolved and the state checkpointed, in
/// seconds.
pub const MAINTENANCE_INTERVAL_SECS: u64 = 5;

/// Errors of a running node.
#[derive(Debug)]
pub enum RuntimeError {
    /// Storage failed.
    Store(String),
    /// Identity could not be established.
    Identity(String),
    /// The node refused an operation.
    Node(String),
    /// A cryptographic operation failed.
    Crypto(String),
    /// The listen address could not be bound.
    Bind(String),
    /// A peer could not be dialled.
    Dial(String),
    /// The handshake failed.
    Handshake(String),
    /// Framing failed.
    Frame(FrameError),
}

/// The bytes in a field of a JSON object: an array of numbers from 0 to 255.
pub uninterp spec fn json_bytes_field(text: Seq<char>, field: Seq<char>) -> Option<Seq<u8>>;

/// Calls `serde_json::from_str`, `serde_json::Value::get` and
/// `serde_json::from_value`. What a field of a JSON text holds depends on the
/// text and the field's name alone.
#[verifier::external_body]
fn json_bytes(text: &str, field: &str) -> (r: Option<Vec<u8>>)
    ensures
        match r {
            Some(bytes) => json_bytes_field(text@, field@) == Some(bytes@),
            None => json_bytes_field(text@, field@) is None,
        },
{
    let value: serde_json::Value = serde_json::from_str(text).ok()?;
    serde_json::from_value(value.get(field)?.clone()).ok()
}

/// The text of a JSON object with fields of text and fields of bytes.
pub uninterp spec fn json_object_text(
    texts: Seq<(Seq<char>, Seq<char>)>,
    blobs: Seq<(Seq<char>, Seq<u8>)>,
) -> Seq<char>;

/// Fields of text as values.
pub open spec fn text_fields(list: Seq<(String, String)>) -> Seq<(Seq<char>, Seq<char>)> {
    list.map_values(|e: (String, String)| (e.0@, e.1@))
}

/// Fields of bytes as values.
pub open spec fn blob_fields(list: Seq<(String, Vec<u8>)>) -> Seq<(Seq<char>, Seq<u8>)> {
    list.map_values(|e: (String, Vec<u8>)| (e.0@, e.1@))
}

/// Calls `serde_json::Map::insert` and `serde_json::Value`'s `to_string`. The
/// text depends on the fields alone, and each field of bytes is read back as it
/// was given.
#[verifier::external_body]
fn json_object(texts: &Vec<(String, String)>, blobs: &Vec<(String, Vec<u8>)>) -> (r: String)
    requires
        forall|i: int, j: int|
            0 <= i < j < blobs@.len() ==> (#[trigger] blobs@[i]).0@ != (#[trigger] blobs@[j]).0@,
        forall|i: int, j: int|
            0 <= i < texts@.len() && 0 <= j < blobs@.len() ==> (#[trigger] texts@[i]).0@ != (
            #[trigger] blobs@[j]).0@,
    ensures
        r@ == json_object_text(text_fields(texts@), blob_fields(blobs@)),
        forall|i: int|
            0 <= i < blobs@.len() ==> json_bytes_field(r@, (#[trigger] blobs@[i]).0@) == Some(
                blobs@[i].1@,
            ),
{
    let mut map = serde_json::Map::new();
    for (name, text) in texts {
        map.insert(name.clone(), serde_json::Value::from(text.clone()));
    }
    for (name, bytes) in blobs {
        map.insert(name.clone(), serde_json::Value::from(bytes.clone()));
    }
    serde_json::Value::Object(map).to_string()
}

/// The frames of a handshake.
#[derive(Clone, Copy, Debug, PartialEq, Eq, Structural)]
pub enum HandshakeFrame {
    /// The first, with the public key and a challenge.
    Hello,
    /// The second, with the peer's challenge.
    Proof,
}

/// Why a handshake fails.
#[derive(Clone, Copy, Debug, PartialEq, Eq, Structural)]
pub enum HandshakeError {
    /// The hello has no public key.
    NoPublicKey,
    /// The hello has no challenge.
    NoChallenge,
    /// The proof has no echo of a challenge.
    NoEcho,
    /// The claimed identity is not that of the public key.
    IdentityMismatch,
    /// The frame is not a discovery signal.
    WrongType(HandshakeFrame),
    /// The frame comes from another identity than the hello.
    OtherIdentity(HandshakeFrame),
    /// The crypto module refused the key.
    Crypto(CryptoError),
    /// What the frame's signature covers has no encoding.
    Encoding(HandshakeFrame),
    /// The frame's signature does not verify.
    BadSignature(HandshakeFrame),
    /// The peer presented this node's own identity.
    OwnIdentity,
    /// The challenge has this many bytes.
    ChallengeLength(usize),
    /// The proof echoes another challenge than ours.
    WrongEcho,
}

/// What is wrong with a handshake frame, if anything: it must be a discovery
/// signal from the expected identity, signed with its key.
pub open spec fn frame_fault<K: CryptoModule>(
    module: K,
    signal: SignalModel,
    covered: Option<Seq<u8>>,
    key: Seq<u8>,
    expected: Seq<u8>,
    frame: HandshakeFrame,
) -> Option<HandshakeError> {
    if signal.signal_type.byte != 5 {
        Some(HandshakeError::WrongType(frame))
    } else if signal.origin != expected {
        Some(HandshakeError::OtherIdentity(frame))
    } else if covered is None {
        Some(HandshakeError::Encoding(frame))
    } else {
        match module.judged(covered->0, signal.signature, key) {
            Err(e) => Some(HandshakeError::Crypto(e)),
            Ok(false) => Some(HandshakeError::BadSignature(frame)),
            Ok(true) => None,
        }
    }
}

/// Whether these bytes are what the signature of a handshake frame covers. The
/// encoder is asked only of a discovery signal from the expected identity.
pub open spec fn frame_covers<E: Encoder>(
    encoder: E,
    signal: SignalModel,
    expected: Seq<u8>,
    covered: Option<Seq<u8>>,
) -> bool {
    signal.signal_type.byte == 5 && signal.origin == expected ==> encodes(
        encoder,
        signal.signing_form(),
        covered,
    )
}

/// Check that a handshake frame is a signed discovery signal from an identity.
pub fn verify_handshake_frame<K: CryptoModule, E: Encoder>(
    module: &K,
    encoder: &E,
    signal: &Signal,
    key: &PublicKey,
    expected: &NodeId,
    frame: HandshakeFrame,
) -> (r: Result<(), HandshakeError>)
    ensures
        exists|covered: Option<Seq<u8>>| #[trigger]
            frame_covers(*encoder, signal@, expected@, covered) && r == (match frame_fault(
                *module,
                signal@,
                covered,
                key@,
                expected@,
                frame,
            ) {
                Some(e) => Err(e),
                None => Ok(()),
            }),
{
    let ghost unasked = frame_covers(*encoder, signal@, expected@, None);
    match &signal.signal_type {
        SignalType::Discovery => {},
        _ => return Err(HandshakeError::WrongType(frame)),
    }
    if !signal.origin.same(expected) {
        return Err(HandshakeError::OtherIdentity(frame));
    }
    let covered = covered_bytes(encoder, signal);
    assert(frame_covers(*encoder, signal@, expected@, bytes_of(covered)));
    match verify_bytes(module, &covered, &signal.signature, key) {
        Ok(true) => Ok(()),
        Ok(false) => Err(HandshakeError::BadSignature(frame)),
        Err(Error::Crypto(e)) => Err(HandshakeError::Crypto(e)),
        Err(_) => Err(HandshakeError::Encoding(frame)),
    }
}

/// The payload of a hello: the public key, the crypto module and a challenge.
pub fn hello_payload(public_key: &PublicKey, challenge: &Vec<u8>) -> (r: String)
    ensures
        r@ == json_object_text(
            seq![("module"@, "classical-v1"@)],
            seq![("public_key"@, public_key@), ("challenge"@, challenge@)],
        ),
        json_bytes_field(r@, "public_key"@) == Some(public_key@),
        json_bytes_field(r@, "challenge"@) == Some(challenge@),
{
    proof {
        reveal_strlit("module");
        reveal_strlit("public_key");
        reveal_strlit("challenge");
        assert("module"@.len() == 6 && "public_key"@.len() == 10 && "challenge"@.len() == 9);
    }
    let mut texts: Vec<(String, String)> = Vec::new();
    texts.push(("module".to_string(), "classical-v1".to_string()));
    let mut blobs: Vec<(String, Vec<u8>)> = Vec::new();
    blobs.push(("public_key".to_string(), copy_bytes(&public_key.0)));
    blobs.push(("challenge".to_string(), copy_bytes(challenge)));
    let r = json_object(&texts, &blobs);
    assert(blobs@[0].0@ == "public_key"@ && blobs@[1].0@ == "challenge"@);
    assert(text_fields(texts@) =~= seq![("module"@, "classical-v1"@)]);
    assert(blob_fields(blobs@) =~= seq![
        ("public_key"@, public_key@),
        ("challenge"@, challenge@),
    ]);
    r
}

/// The payload of a proof: the peer's challenge.
pub fn proof_payload(challenge: &Vec<u8>) -> (r: String)
    ensures
        r@ == json_object_text(Seq::empty(), seq![("proof_for"@, challenge@)]),
        json_bytes_field(r@, "proof_for"@) == Some(challenge@),
{
    let texts: Vec<(String, String)> = Vec::new();
    let mut blobs: Vec<(String, Vec<u8>)> = Vec::new();
    blobs.push(("proof_for".to_string(), copy_bytes(challenge)));
    let r = json_object(&texts, &blobs);
    assert(blobs@[0].0@ == "proof_for"@);
    assert(text_fields(texts@) =~= Seq::empty());
    assert(blob_fields(blobs@) =~= seq![("proof_for"@, challenge@)]);
    r
}

/// A peer as its hello presents it.
#[derive(Debug)]
pub struct Presented {
    /// Its identity.
    pub node_id: NodeId,
    /// Its public key.
    pub public_key: PublicKey,
    /// Its challenge.
    pub challenge: Vec<u8>,
}

/// What is wrong with a hello, if anything.
pub open spec fn hello_fault<K: CryptoModule>(
    module: K,
    hello: SignalModel,
    covered: Option<Seq<u8>>,
    me: Seq<u8>,
) -> Option<HandshakeError> {
    let key = json_bytes_field(hello.payload, "public_key"@);
    let challenge = json_bytes_field(hello.payload, "challenge"@);
    if key is None {
        Some(HandshakeError::NoPublicKey)
    } else if blake3_of(key->0) != hello.origin {
        Some(HandshakeError::IdentityMismatch)
    } else {
        let fault = frame_fault(
            module,
            hello,
            covered,
            key->0,
            blake3_of(key->0),
            HandshakeFrame::Hello,
        );
        if fault is Some {
            fault
        } else if blake3_of(key->0) == me {
            Some(HandshakeError::OwnIdentity)
        } else if challenge is None {
            Some(HandshakeError::NoChallenge)
        } else if challenge->0.len() != CHALLENGE_LEN {
            Some(HandshakeError::ChallengeLength(challenge->0.len() as usize))
        } else {
            None
        }
    }
}

/// Whether these bytes are what the signature of a hello covers. The encoder is
/// asked only of a hello whose identity is that of its key.
pub open spec fn hello_covers<E: Encoder>(
    encoder: E,
    hello: SignalModel,
    covered: Option<Seq<u8>>,
) -> bool {
    json_bytes_field(hello.payload, "public_key"@) matches Some(key) ==> blake3_of(key)
        == hello.origin ==> frame_covers(encoder, hello, hello.origin, covered)
}

/// Check a peer's hello.
///
/// The claimed identity must be that of the key that signs, or a peer could
/// claim any identity and the cap on each one's influence would mean nothing.
/// A node does not form a synapse with itself, so its own hello sent back is
/// refused.
pub fn check_hello<K: CryptoModule, E: Encoder>(
    module: &K,
    encoder: &E,
    hello: &Signal,
    me: &NodeId,
) -> (r: Result<Presented, HandshakeError>)
    ensures
        exists|covered: Option<Seq<u8>>| #[trigger]
            hello_covers(*encoder, hello@, covered) && match hello_fault(
                *module,
                hello@,
                covered,
                me@,
            ) {
                Some(e) => r == Err::<Presented, HandshakeError>(e),
                None => r is Ok && r->Ok_0.node_id@ == hello@.origin && Some(r->Ok_0.public_key@)
                    == json_bytes_field(hello@.payload, "public_key"@) && Some(
                    r->Ok_0.challenge@,
                ) == json_bytes_field(hello@.payload, "challenge"@),
            },
{
    let ghost unasked = hello_covers(*encoder, hello@, None);
    let key = match json_bytes(hello.payload.as_str(), "public_key") {
        Some(bytes) => PublicKey(bytes),
        None => return Err(HandshakeError::NoPublicKey),
    };
    let derived = node_id_from_public_key(&key);
    if !derived.same(&hello.origin) {
        return Err(HandshakeError::IdentityMismatch);
    }
    let checked = verify_handshake_frame(
        module,
        encoder,
        hello,
        &key,
        &derived,
        HandshakeFrame::Hello,
    );
    proof {
        let covered = choose|covered: Option<Seq<u8>>| #[trigger]
            frame_covers(*encoder, hello@, derived@, covered) && checked == (match frame_fault(
                *module,
                hello@,
                covered,
                key@,
                derived@,
                HandshakeFrame::Hello,
            ) {
                Some(e) => Err(e),
                None => Ok(()),
            });
        assert(hello_covers(*encoder, hello@, covered));
    }
    match checked {
        Ok(()) => {},
        Err(e) => return Err(e),
    }
    if derived.same(me) {
        return Err(HandshakeError::OwnIdentity);
    }
    let challenge = match json_bytes(hello.payload.as_str(), "challenge") {
        Some(bytes) => bytes,
        None => return Err(HandshakeError::NoChallenge),
    };
    if challenge.len() != CHALLENGE_LEN {
        return Err(HandshakeError::ChallengeLength(challenge.len()));
    }
    Ok(Presented { node_id: derived, public_key: key, challenge })
}

/// What is wrong with a proof, if anything.
pub open spec fn proof_fault<K: CryptoModule>(
    module: K,
    answer: SignalModel,
    covered: Option<Seq<u8>>,
    key: Seq<u8>,
    expected: Seq<u8>,
    challenge: Seq<u8>,
) -> Option<HandshakeError> {
    let fault = frame_fault(
        module,
        answer,
        covered,
        key,
        expected,
        HandshakeFrame::Proof,
    );
    let echo = json_bytes_field(answer.payload, "proof_for"@);
    if fault is Some {
        fault
    } else if echo is None {
        Some(HandshakeError::NoEcho)
    } else if echo->0 != challenge {
        Some(HandshakeError::WrongEcho)
    } else {
        None
    }
}

/// Check a peer's proof: signing what echoes our fresh challenge shows that it
/// holds the key now, on this connection.
pub fn check_proof<K: CryptoModule, E: Encoder>(
    module: &K,
    encoder: &E,
    answer: &Signal,
    peer: &Presented,
    challenge: &Vec<u8>,
) -> (r: Result<(), HandshakeError>)
    ensures
        exists|covered: Option<Seq<u8>>| #[trigger]
            frame_covers(*encoder, answer@, peer.node_id@, covered) && r == (match proof_fault(
                *module,
                answer@,
                covered,
                peer.public_key@,
                peer.node_id@,
                challenge@,
            ) {
                Some(e) => Err(e),
                None => Ok(()),
            }),
{
    match verify_handshake_frame(
        module,
        encoder,
        answer,
        &peer.public_key,
        &peer.node_id,
        HandshakeFrame::Proof,
    ) {
        Ok(()) => {},
        Err(e) => return Err(e),
    }
    let echo = match json_bytes(answer.payload.as_str(), "proof_for") {
        Some(bytes) => bytes,
        None => return Err(HandshakeError::NoEcho),
    };
    if !same_bytes(&echo, challenge) {
        return Err(HandshakeError::WrongEcho);
    }
    Ok(())
}

/// A hello that is accepted binds the identity to the key, is signed with it
/// over the encoding of what it covers, and is not this node's own.
pub proof fn lemma_accepted_hellos_are_authentic<K: CryptoModule, E: Encoder>(
    module: K,
    encoder: E,
    hello: SignalModel,
    covered: Option<Seq<u8>>,
    me: Seq<u8>,
)
    requires
        hello_covers(encoder, hello, covered),
        hello_fault(module, hello, covered, me) is None,
    ensures
        ({
            let key = json_bytes_field(hello.payload, "public_key"@)->0;
            &&& hello.origin == blake3_of(key)
            &&& hello.origin != me
            &&& covered is Some
            &&& encodes(encoder, hello.signing_form(), covered)
            &&& module.judged(covered->0, hello.signature, key) == Ok::<bool, CryptoError>(true)
        }),
{
}

/// A proof that answers another challenge, as one recorded before does, is not
/// accepted.
pub proof fn lemma_recorded_proofs_fail<K: CryptoModule>(
    module: K,
    answer: SignalModel,
    covered: Option<Seq<u8>>,
    key: Seq<u8>,
    expected: Seq<u8>,
    challenge: Seq<u8>,
)
    requires
        json_bytes_field(answer.payload, "proof_for"@) != Some(challenge),
    ensures
        proof_fault(module, answer, covered, key, expected, challenge) is Some,
{
}

/// Whether a second session with a peer is refused: where the first is still
/// open, it works, and is not replaced.
pub fn refuses_duplicate(open_session: Option<bool>) -> (r: bool)
    ensures
        r == (open_session == Some(true)),
{
    match open_session {
        Some(open) => open,
        None => false,
    }
}

/// The key to verify a signal with: the connected peer's for its own signals,
/// else that of a session with the origin.
pub fn origin_key<'a>(
    origin: &NodeId,
    peer: &NodeId,
    peer_key: &'a PublicKey,
    session_key: Option<&'a PublicKey>,
) -> (r: Option<&'a PublicKey>)
    ensures
        r == (if origin@ == peer@ {
            Some(peer_key)
        } else {
            session_key
        }),
{
    if origin.same(peer) {
        Some(peer_key)
    } else {
        session_key
    }
}

/// What became of a signal that a peer handed over.
#[derive(Debug)]
pub enum Inbound {
    /// No key is known for the claimed origin, so the signal was dropped.
    OriginKeyUnknown,
    /// The signature does not verify. The peer's synapse was penalised, and
    /// perhaps pruned.
    SignatureFailed {
        /// Whether the synapse was pruned, and the connection should close.
        pruned: bool,
    },
    /// The weight is not one that a signal may have.
    Malformed,
    /// A receipt, which of its headers were brought within bounds, and what
    /// applying it changed.
    Receipt(HeaderClamp, Option<WeightUpdate>),
    /// A receipt that could not be read, and which of its headers were brought
    /// within bounds.
    UnreadableReceipt(HeaderClamp),
    /// A signal to route, and which of its headers were brought within bounds.
    Disposed(HeaderClamp, Disposition),
}

/// Which headers of a signal are reported as brought within bounds.
pub open spec fn reported(seen: Inbound) -> HeaderClamp {
    match seen {
        Inbound::Receipt(clamp, _) => clamp,
        Inbound::UnreadableReceipt(clamp) => clamp,
        Inbound::Disposed(clamp, _) => clamp,
        _ => HeaderClamp { weight_clamped: false, ttl_clamped: false },
    }
}

/// Whether a verdict on a signal is that its signature verifies. One whose
/// signed form has no encoding does not.
pub open spec fn verifies<K: CryptoModule>(
    module: K,
    signal: SignalModel,
    covered: Option<Seq<u8>>,
    key: Seq<u8>,
) -> bool {
    covered is Some && module.judged(covered->0, signal.signature, key) == Ok::<
        bool,
        CryptoError,
    >(true)
}

/// Whether a peer's synapse was penalised, at an instant that was told, for a
/// signature that does not verify.
pub open spec fn penalised_peer(
    kept: StoreModel,
    setup: crate::config::NodeSetup,
    peer: Seq<u8>,
    told: spec_fn(u64) -> bool,
    pruned: bool,
    after: StoreModel,
) -> bool {
    if unknown_peer(kept, peer) {
        !pruned && after == kept
    } else {
        exists|id: Seq<char>, now_ns: u64, outcome: crate::synapse::SignatureFailureOutcome|
            {
                &&& leads(kept, id, peer)
                &&& told(now_ns)
                &&& #[trigger] penalises(kept, setup, id, now_ns, Some(outcome), after)
                &&& pruned == outcome.pruned
            }
    }
}

/// Decide what to do with a signal that a peer handed over, and do it.
///
/// The signature is checked before anything else, for deduplication claims the
/// identifier: unverified traffic could fill the cache and suppress the genuine
/// signal. Where no key is known, the signal is dropped. A weight outside the
/// unit interval is malformed. Hops beyond what this node would have given are
/// cut. A signal without hops goes on: its sender may be owed a receipt.
///
/// `receipt` is the receipt that the payload of a receipt signal holds.
pub fn inbound<K: CryptoModule, E: Encoder, S: NodeStore, C: Clock, R: Rng, M: Curves>(
    node: &mut Node<S, C, R, M>,
    module: &K,
    encoder: &E,
    signal: &mut Signal,
    peer: &NodeId,
    key: Option<&PublicKey>,
    receipt: Option<Receipt>,
) -> (r: Result<Inbound, Error>)
    requires
        old(node).inv(),
    ensures
        old(node).same_node(&*final(node)),
        key is None ==> r == Ok::<Inbound, Error>(Inbound::OriginKeyUnknown) && final(node).kept()
            == old(node).kept() && final(node).gate() == old(node).gate() && final(signal)@ == old(
            signal,
        )@,
        !(r matches Ok(Inbound::Disposed(_, _))) && r is Ok ==> final(node).random() == old(
            node,
        ).random(),
        key is Some ==> exists|covered: Option<Seq<u8>>|
            {
                &&& #[trigger] encodes(*encoder, old(signal)@.signing_form(), covered)
                &&& !verifies(*module, old(signal)@, covered, key->0@) ==> {
                    &&& r matches Ok(Inbound::SignatureFailed { pruned })
                    &&& final(signal)@ == old(signal)@
                    &&& final(node).gate() == old(node).gate()
                    &&& old(node).dependable() ==> penalised_peer(
                        old(node).kept(),
                        old(node).setup(),
                        peer@,
                        |now_ns: u64| old(node).tells(now_ns),
                        pruned,
                        final(node).kept(),
                    )
                }
                &&& verifies(*module, old(signal)@, covered, key->0@)
                    && !weight_in_range(old(signal)@.weight) ==> r == Ok::<Inbound, Error>(
                    Inbound::Malformed,
                ) && final(node).kept() == old(node).kept() && final(node).gate() == old(node).gate()
                    && final(signal)@ == old(signal)@
                &&& verifies(*module, old(signal)@, covered, key->0@) && weight_in_range(
                    old(signal)@.weight,
                ) ==> {
                    &&& final(signal)@ == bounded(
                        old(signal)@,
                        old(node).setup().propagation.default_ttl,
                    )
                    &&& old(signal)@.signal_type.byte == 6 ==> final(node).gate() == old(node).gate()
                    &&& old(signal)@.signal_type.byte == 6 && receipt is None ==> r is Ok
                    &&& r matches Ok(seen) ==> reported(seen).ttl_clamped == (final(signal)@.ttl != old(
                        signal,
                    )@.ttl) && !reported(seen).weight_clamped
                    &&& match r {
                        Ok(Inbound::UnreadableReceipt(_)) => old(signal)@.signal_type.byte == 6 && receipt
                            is None && final(node).kept() == old(node).kept(),
                        Ok(Inbound::Receipt(_, update)) => old(signal)@.signal_type.byte == 6 && receipt
                            is Some && exists|now_ns: u64|
                            old(node).tells(now_ns) && #[trigger] receipt_applied::<S>(
                                old(node).kept(),
                                old(node).setup(),
                                receipt->0,
                                peer@,
                                now_ns,
                                update,
                                final(node).kept(),
                            ),
                        Ok(Inbound::Disposed(_, d)) => {
                            &&& old(signal)@.signal_type.byte != 6
                            &&& exists|now_ns: u64, arrival: Option<Seq<char>>|
                                {
                                    &&& old(node).dependable() ==> (match arrival {
                                        Some(id) => leads(old(node).kept(), id, peer@),
                                        None => unknown_peer(old(node).kept(), peer@),
                                    })
                                    &&& old(node).tells(now_ns)
                                    &&& #[trigger] receives(
                                        old(node).host(),
                                        old(node).kept(),
                                        old(node).dependable(),
                                        old(node).gate(),
                                        old(node).setup(),
                                        old(node).me(),
                                        final(signal)@,
                                        arrival,
                                        now_ns,
                                        old(node).random(),
                                        final(node).random(),
                                        final(node).gate(),
                                        final(node).kept(),
                                        d@,
                                    )
                                }
                        },
                        Ok(_) => false,
                        Err(e) => e is Serialization,
                    }
                }
            },
        old(node).dependable() && r is Err ==> final(node).kept().issued == u64::MAX,
{
    let key = match key {
        Some(key) => key,
        None => return Ok(Inbound::OriginKeyUnknown),
    };
    let covered = covered_bytes(encoder, signal);
    assert(encodes(*encoder, old(signal)@.signing_form(), bytes_of(covered)));
    let genuine: bool = match verify_bytes(module, &covered, &signal.signature, key) {
        Ok(verdict) => verdict,
        Err(_) => false,
    };
    if !genuine {
        let ghost kept = node.kept();
        let found = match node.store().synapse_for_peer(peer) {
            Ok(found) => found,
            Err(_) => None,
        };
        let mut pruned: bool = false;
        if let Some(record) = found {
            assert(leads(kept, record@.id, peer@));
            match node.penalize_signature_failure(&record.id) {
                Ok(Some(outcome)) => pruned = outcome.pruned,
                _ => {},
            }
        }
        return Ok(Inbound::SignatureFailed { pruned });
    }
    if !signal.weight.within(Scalar::from_bits(ZERO), Scalar::from_bits(ONE)) {
        return Ok(Inbound::Malformed);
    }
    let clamp = clamp_inbound_headers(signal, &node.config().propagation);
    let is_receipt: bool = match &signal.signal_type {
        SignalType::Receipt => true,
        _ => false,
    };
    if is_receipt {
        return match receipt {
            Some(receipt) => match node.apply_receipt(&receipt, peer) {
                Ok(update) => Ok(Inbound::Receipt(clamp, update)),
                Err(e) => Err(e),
            },
            None => Ok(Inbound::UnreadableReceipt(clamp)),
        };
    }
    let arrival: Option<SynapseId> = match node.store().synapse_for_peer(peer) {
        Ok(Some(record)) => {
            assert(leads(node.kept(), record@.id, peer@));
            Some(record.id)
        },
        _ => None,
    };
    let came: Option<&SynapseId> = match &arrival {
        Some(id) => Some(id),
        None => None,
    };
    assert(node.dependable() ==> (match id_text(came) {
        Some(id) => leads(node.kept(), id, peer@),
        None => unknown_peer(node.kept(), peer@),
    }));
    match node.receive(signal, came) {
        Ok(d) => Ok(Inbound::Disposed(clamp, d)),
        Err(e) => Err(e),
    }
}

/// A signal as it goes out over a synapse: one hop on, and lighter.
pub fn outbound(signal: &Signal, me: &NodeId, config: &PropagationConfig) -> (r: Signal)
    ensures
        ({
            let hopped = signal@.hopped(me@);
            r@ == hopped.reweighted(
                hopped.hop_weight(config.attenuation_factor, config.min_propagation_weight),
            )
        }),
{
    let mut out = signal.clone();
    out.hop(me.clone());
    out.attenuate_for_hop(config.attenuation_factor, config.min_propagation_weight);
    out
}

/// The receipt that a released signal owes its origin: that it was delivered,
/// unless it was to be forwarded and no peer took it.
pub fn release_receipt(body: &Signal, planned: usize, sent: usize) -> (r: Option<Receipt>)
    ensures
        r == (if body@.delivery is Acknowledged {
            Some(
                Receipt {
                    correlation_id: body@.id,
                    status: if planned == 0 || sent > 0 {
                        ReceiptStatus::Delivered
                    } else {
                        ReceiptStatus::Rejected(RejectReason::TransportFailure)
                    },
                    hops: hops_of(body@),
                },
            )
        } else {
            None
        }),
{
    if !body.requires_receipt() {
        return None;
    }
    assert(body@.trace.len() == body.trace@.len());
    let hops: u16 = body.trace.len() as u16;
    if planned == 0 || sent > 0 {
        Some(Receipt::delivered(body.id, hops))
    } else {
        Some(Receipt::rejected(body.id, RejectReason::TransportFailure, hops))
    }
}

/// Whether a maintenance sweep is due at a tick of the activation poll.
pub fn sweep_due(ticks: u64) -> (r: bool)
    ensures
        r == (ticks % 100 == 0),
{
    let per_sweep: u64 = MAINTENANCE_INTERVAL_SECS * 1_000 / ACTIVATION_POLL_INTERVAL_MS;
    ticks % per_sweep == 0
}

/// Bodies with their identifiers.
spec fn held_pairs(list: Seq<(SignalId, Signal)>) -> Seq<(SignalId, SignalModel)> {
    list.map_values(|e: (SignalId, Signal)| (e.0, e.1@))
}

/// The bodies of the signals that the activation gate is holding.
///
/// The cache mirrors the activation gate's queue, so its size is bounded by the
/// queue's depth. The cap is there against a leak only.
#[derive(Debug)]
pub struct PendingBodies {
    held: Vec<(SignalId, Signal)>,
    cap: usize,
}

/// Whether an identifier is the least of those held: the oldest, for
/// identifiers begin with the time.
pub open spec fn is_oldest(held: Map<SignalId, SignalModel>, id: SignalId) -> bool {
    &&& held.dom().contains(id)
    &&& forall|other: SignalId| #[trigger] held.dom().contains(other) ==> id@ <= other@
}

impl View for PendingBodies {
    type V = Map<SignalId, SignalModel>;

    closed spec fn view(&self) -> Map<SignalId, SignalModel> {
        keyed(held_pairs(self.held@))
    }
}

impl PendingBodies {
    /// Whether each identifier is held once.
    pub closed spec fn wf(&self) -> bool {
        keys_differ(held_pairs(self.held@))
    }

    /// The most bodies held.
    pub closed spec fn limit(&self) -> usize {
        self.cap
    }

    /// A cache for a queue of a given depth: twice as many bodies, and at least
    /// two.
    pub fn new(queue_depth: usize) -> (r: PendingBodies)
        ensures
            r.wf(),
            r@ == Map::<SignalId, SignalModel>::empty(),
            r.limit() == (if queue_depth == 0 {
                2
            } else if queue_depth * 2 > usize::MAX {
                usize::MAX as int
            } else {
                queue_depth * 2
            }),
    {
        let depth: usize = if queue_depth == 0 {
            1
        } else {
            queue_depth
        };
        let cap: usize = if depth > usize::MAX / 2 {
            usize::MAX
        } else {
            depth * 2
        };
        let r = PendingBodies { held: Vec::new(), cap };
        assert(r@ =~= Map::<SignalId, SignalModel>::empty());
        r
    }

    /// Where a body stands.
    fn find(&self, id: SignalId) -> (r: Option<usize>)
        ensures
            match r {
                Some(i) => i < self.held@.len() && self.held@[i as int].0 == id,
                None => !has_key(held_pairs(self.held@), id),
            },
    {
        let mut i: usize = 0;
        while i < self.held.len()
            invariant
                i <= self.held@.len(),
                forall|k: int| 0 <= k < i ==> (#[trigger] self.held@[k]).0 != id,
            decreases self.held@.len() - i,
        {
            if self.held[i].0 == id {
                return Some(i);
            }
            i = i + 1;
        }
        proof {
            let pairs = held_pairs(self.held@);
            assert forall|k: int| 0 <= k < pairs.len() implies (#[trigger] pairs[k]).0 != id by {
                assert(self.held@[k].0 != id);
            }
        }
        None
    }

    /// Number of bodies held.
    pub fn len(&self) -> (r: usize)
        requires
            self.wf(),
        ensures
            r == self@.dom().len(),
    {
        proof {
            lemma_size(held_pairs(self.held@));
        }
        self.held.len()
    }

    /// Take a body out, if it is held.
    pub fn take(&mut self, id: SignalId) -> (r: Option<Signal>)
        requires
            old(self).wf(),
        ensures
            final(self).wf(),
            final(self).limit() == old(self).limit(),
            final(self)@ == old(self)@.remove(id),
            match r {
                Some(body) => old(self)@.dom().contains(id) && body@ == old(self)@[id],
                None => !old(self)@.dom().contains(id),
            },
    {
        let ghost pairs = held_pairs(self.held@);
        match self.find(id) {
            Some(i) => {
                proof {
                    assert(pairs[i as int].0 == id);
                    lemma_entry(pairs, i as int);
                    lemma_remove(pairs, i as int);
                }
                let (_, body) = self.held.remove(i);
                assert(held_pairs(self.held@) =~= pairs.remove(i as int));
                Some(body)
            },
            None => {
                assert(self@.remove(id) =~= self@);
                None
            },
        }
    }

    /// Where the oldest body stands.
    fn oldest(&self) -> (r: usize)
        requires
            self.held@.len() > 0,
        ensures
            r < self.held@.len(),
            forall|k: int|
                0 <= k < self.held@.len() ==> self.held@[r as int].0@ <= (
                #[trigger] self.held@[k]).0@,
    {
        let mut o: usize = 0;
        let mut n: usize = 1;
        while n < self.held.len()
            invariant
                1 <= n <= self.held@.len(),
                o < n,
                forall|k: int|
                    0 <= k < n ==> self.held@[o as int].0@ <= (#[trigger] self.held@[k]).0@,
            decreases self.held@.len() - n,
        {
            if self.held[n].0.precedes(self.held[o].0) {
                o = n;
            }
            n = n + 1;
        }
        o
    }

    /// Hold a body while the activation gate holds its signal. At the cap the
    /// oldest body goes, and its identifier is returned.
    pub fn remember(&mut self, signal: &Signal) -> (r: Option<SignalId>)
        requires
            old(self).wf(),
        ensures
            final(self).wf(),
            final(self).limit() == old(self).limit(),
            r is Some <==> old(self)@.dom().len() >= old(self).limit() && old(self)@.dom().len() > 0,
            0 < old(self).limit() && old(self)@.dom().len() <= old(self).limit()
                ==> final(self)@.dom().len() <= old(self).limit(),
            match r {
                Some(gone) => is_oldest(old(self)@, gone) && final(self)@ == old(self)@.remove(
                    gone,
                ).insert(signal@.id, signal@),
                None => final(self)@ == old(self)@.insert(signal@.id, signal@),
            },
    {
        proof {
            lemma_size(held_pairs(self.held@));
        }
        let ghost before = self@;
        let mut gone: Option<SignalId> = None;
        if self.held.len() >= self.cap && self.held.len() > 0 {
            let i: usize = self.oldest();
            let ghost pairs = held_pairs(self.held@);
            let id: SignalId = self.held[i].0;
            proof {
                assert(pairs[i as int].0 == id);
                lemma_entry(pairs, i as int);
                lemma_remove(pairs, i as int);
                assert forall|other: SignalId| #[trigger] before.dom().contains(other) implies id@
                    <= other@ by {
                    let k = crate::keyed::place_of_key(pairs, other);
                    assert(has_key(pairs, other));
                    assert(self.held@[k].0 == other);
                }
            }
            self.held.remove(i);
            assert(held_pairs(self.held@) =~= pairs.remove(i as int));
            gone = Some(id);
        }
        let ghost pairs = held_pairs(self.held@);
        let body = signal.clone();
        match self.find(signal.id) {
            Some(i) => {
                proof {
                    assert(pairs[i as int].0 == signal@.id);
                    lemma_update(pairs, i as int, signal@);
                }
                self.held.set(i, (signal.id, body));
                assert(held_pairs(self.held@) =~= pairs.update(i as int, (signal@.id, signal@)));
            },
            None => {
                proof {
                    lemma_push(pairs, signal@.id, signal@);
                }
                self.held.push((signal.id, body));
                assert(held_pairs(self.held@) =~= pairs.push((signal@.id, signal@)));
            },
        }
        gone
    }
}

} // verus!
