//! Laws of sessions: who is let in, what goes out, who is answered.

use vstd::prelude::*;

use crate::crypto::{blake3_of, CryptoError, CryptoModule};
use crate::delivery::{Receipt, ReceiptStatus, RejectReason};
use crate::node::DispositionModel;
use crate::propagation::PropagationConfig;
use crate::relay::{came_by, steps_of, without_evicted, StepRow};
use crate::scalar::{Scalar, ONE, ZERO};
use crate::session::{
    hello_fault, json_bytes_field, outbound, proof_fault, refuses_duplicate, release_receipt,
    sweep_due, HandshakeError, HandshakeFrame, PendingBodies,
};
use crate::signal::{NodeId, Signal, SignalId, SignalModel};
use crate::store::StoreModel;

verus! {

/// Who is let in: a hello is accepted exactly where it is a discovery signal
/// that carries a key and a challenge of 32 bytes, where its origin is the hash
/// of the key and not this node, and where what it covers verifies under the
/// key.
pub proof fn lemma_who_is_let_in<K: CryptoModule>(
    module: K,
    hello: SignalModel,
    covered: Option<Seq<u8>>,
    me: Seq<u8>,
    key: Seq<u8>,
    challenge: Seq<u8>,
)
    requires
        json_bytes_field(hello.payload, "public_key"@) == Some(key),
        json_bytes_field(hello.payload, "challenge"@) == Some(challenge),
    ensures
        hello_fault(module, hello, covered, me) is None <==> {
            &&& hello.signal_type.byte == 5
            &&& hello.origin == blake3_of(key)
            &&& hello.origin != me
            &&& covered matches Some(bytes) && module.judged(bytes, hello.signature, key) == Ok::<
                bool,
                CryptoError,
            >(true)
            &&& challenge.len() == 32
        },
        hello.origin != blake3_of(key) ==> hello_fault(module, hello, covered, me)
            == Some(HandshakeError::IdentityMismatch),
        hello.origin == blake3_of(key) && hello.signal_type.byte != 5 ==> hello_fault(
            module,
            hello,
            covered,
            me,
        ) == Some(HandshakeError::WrongType(HandshakeFrame::Hello)),
{
}

/// A hello without a key, or without a challenge, is not accepted.
pub proof fn lemma_a_hello_is_complete<K: CryptoModule>(
    module: K,
    hello: SignalModel,
    covered: Option<Seq<u8>>,
    me: Seq<u8>,
)
    ensures
        json_bytes_field(hello.payload, "public_key"@) is None ==> hello_fault(
            module,
            hello,
            covered,
            me,
        ) == Some(HandshakeError::NoPublicKey),
        json_bytes_field(hello.payload, "challenge"@) is None ==> hello_fault(
            module,
            hello,
            covered,
            me,
        ) is Some,
{
}

/// Who has shown that it holds its key: a proof is accepted exactly where it is
/// a discovery signal of the peer, verifies under its key, and echoes the
/// challenge.
pub proof fn lemma_who_holds_the_key<K: CryptoModule>(
    module: K,
    answer: SignalModel,
    covered: Option<Seq<u8>>,
    key: Seq<u8>,
    peer: Seq<u8>,
    challenge: Seq<u8>,
)
    ensures
        proof_fault(module, answer, covered, key, peer, challenge) is None <==> {
            &&& answer.signal_type.byte == 5
            &&& answer.origin == peer
            &&& covered matches Some(bytes) && module.judged(bytes, answer.signature, key) == Ok::<
                bool,
                CryptoError,
            >(true)
            &&& json_bytes_field(answer.payload, "proof_for"@) == Some(challenge)
        },
{
}

/// What goes out over a synapse is the signal one hop on: it has a hop less and
/// this node at the end of its trace, its weight is within the unit interval,
/// and what its origin signed is untouched.
pub proof fn lemma_a_signal_goes_out_one_hop_on(
    signal: Signal,
    me: NodeId,
    config: PropagationConfig,
    out: Signal,
)
    requires
        call_ensures(outbound, (&signal, &me, &config), out),
    ensures
        signal@.ttl > 0 ==> out@.ttl == signal@.ttl - 1,
        signal@.ttl == 0 ==> out@.ttl == 0,
        signal@.trace.len() < 64 ==> out@.trace == signal@.trace.push(me@),
        signal@.trace.len() >= 64 ==> out@.trace == signal@.trace,
        out@.signing_form() == signal@.signing_form(),
        out@.signature == signal@.signature,
        !out@.weight.nan() ==> out@.weight.between(Scalar::from_bits(ZERO), Scalar::from_bits(ONE)),
        out@.delivery is Acknowledged && out@.ttl > 0 && !config.min_propagation_weight.nan()
            && config.min_propagation_weight.between(Scalar::from_bits(ZERO), Scalar::from_bits(ONE))
            ==> config.min_propagation_weight.at_most(out@.weight),
{
}

/// What a released signal owes: nothing unless it asked to be acknowledged, and
/// then that it was delivered, except where it was to go on and no peer took it.
pub proof fn lemma_what_a_release_owes(
    body: Signal,
    planned: usize,
    sent: usize,
    owed: Option<Receipt>,
)
    requires
        call_ensures(release_receipt, (&body, planned, sent), owed),
    ensures
        owed is Some <==> body@.delivery is Acknowledged,
        owed matches Some(receipt) ==> {
            &&& receipt.correlation_id == body@.id
            &&& planned == 0 ==> receipt.status is Delivered
            &&& sent > 0 ==> receipt.status is Delivered
            &&& planned > 0 && sent == 0 ==> receipt.status == ReceiptStatus::Rejected(
                RejectReason::TransportFailure,
            )
            &&& body@.trace.len() <= u16::MAX ==> receipt.hops == body@.trace.len()
        },
{
}

/// A second session with a peer is refused while the first is open, and only
/// then.
pub proof fn lemma_one_session_for_each_peer(open_session: Option<bool>, refused: bool)
    requires
        call_ensures(refuses_duplicate, (open_session,), refused),
    ensures
        refused <==> (open_session matches Some(open) && open),
{
}

/// A sweep is due every five seconds of a poll that comes each fifty
/// milliseconds.
pub proof fn lemma_a_sweep_is_due_every_five_seconds(ticks: u64, due: bool)
    requires
        call_ensures(sweep_due, (ticks,), due),
    ensures
        due <==> (ticks * 50) % 5_000 == 0,
{
}

/// The bodies that are held for the activation gate are as many as its queue
/// may hold twice over, and none at first.
pub proof fn lemma_bodies_have_room(queue_depth: usize, bodies: PendingBodies)
    requires
        call_ensures(PendingBodies::new, (queue_depth,), bodies),
    ensures
        bodies@.dom().len() == 0,
        2 <= bodies.limit(),
        queue_depth <= bodies.limit(),
        0 < queue_depth <= usize::MAX / 2 ==> bodies.limit() == queue_depth + queue_depth,
{
}

/// Nobody else is answered: each receipt that goes out is the one that the
/// arrival is owed, to its origin or back the way it came, or the one that a
/// displaced signal asked for, to its own origin alone. And only what was
/// refused or displaced is reported as refused.
pub proof fn lemma_nobody_else_is_answered(
    signal: SignalModel,
    peer: Seq<u8>,
    d: DispositionModel,
    bodies: Map<SignalId, SignalModel>,
    k: int,
)
    requires
        0 <= k < steps_of(signal, peer, d, bodies).len(),
    ensures
        steps_of(signal, peer, d, bodies)[k] matches StepRow::Answer(receipt, to, via) ==> {
            ||| d.receipt == Some(receipt) && to == signal.origin && via == Some(peer)
            ||| d.evicted matches Some((displaced, reason)) && displaced.delivery is Acknowledged
                && to == displaced.origin && via is None && receipt.correlation_id == displaced.id
                && receipt.status == ReceiptStatus::Rejected(reason)
        },
        steps_of(signal, peer, d, bodies)[k] matches StepRow::Refused(id, why) ==> {
            ||| id == signal.id && d.rejected == Some(why)
            ||| d.evicted matches Some((displaced, reason)) && id == displaced.id && why == reason
        },
        steps_of(signal, peer, d, bodies)[k] matches StepRow::Release(id, body, plan) ==> {
            &&& exists|i: int| 0 <= i < d.handle_locally.len() && (#[trigger] d.handle_locally[i]).id == id
            &&& id == signal.id ==> body == Some(signal) && plan == Some(d.forward_to)
            &&& id != signal.id ==> plan is None
            &&& id != signal.id && body is Some ==> bodies.dom().contains(id) && body == Some(
                bodies[id],
            )
        },
{
    let first = crate::relay::eviction_steps(bodies, d.evicted);
    let second = crate::relay::refusal_steps(signal, peer, d);
    let steps = steps_of(signal, peer, d, bodies);
    if k < first.len() {
        assert(steps[k] == first[k]);
    } else if k < first.len() + second.len() {
        assert(steps[k] == second[k - first.len()]);
    } else {
        let i = k - first.len() - second.len();
        assert(steps[k] == crate::relay::release_step(
            signal,
            d,
            without_evicted(bodies, d.evicted),
            i,
        ));
        assert(d.handle_locally[i].id == d.handle_locally[i].id);
    }
}

/// What was refused or displaced is reported.
pub proof fn lemma_refusals_are_reported(
    signal: SignalModel,
    peer: Seq<u8>,
    d: DispositionModel,
    bodies: Map<SignalId, SignalModel>,
)
    ensures
        d.rejected matches Some(why) ==> steps_of(signal, peer, d, bodies).contains(
            StepRow::Refused(signal.id, why),
        ),
        d.evicted matches Some((displaced, why)) ==> steps_of(signal, peer, d, bodies).contains(
            StepRow::Refused(displaced.id, why),
        ),
{
    let first = crate::relay::eviction_steps(bodies, d.evicted);
    let second = crate::relay::refusal_steps(signal, peer, d);
    let steps = steps_of(signal, peer, d, bodies);
    if let Some(why) = d.rejected {
        assert(second.last() == StepRow::Refused(signal.id, why));
        assert(steps[first.len() + second.len() - 1] == second.last());
    }
    if let Some((displaced, why)) = d.evicted {
        assert(steps[0] == first[0]);
    }
}

/// A signal came by the synapse to the last node that it passed, and a fresh
/// one by none.
pub proof fn lemma_how_a_signal_came(
    kept: StoreModel,
    signal: SignalModel,
    id: Seq<char>,
)
    ensures
        signal.trace.len() == 0 ==> came_by(kept, signal, None),
        came_by(kept, signal, Some(id)) ==> signal.trace.len() > 0 && kept.synapses.dom().contains(id)
            && kept.synapses[id].peer == signal.trace[signal.trace.len() - 1],
{
}

} // verus!
