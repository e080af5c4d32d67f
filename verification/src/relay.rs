//! What a running node does with what was decided: which receipts it owes,
//! which signals it handles, and over which synapses they go on.

use vstd::prelude::*;

use crate::activation::{GateModel, QueuedRow};
use crate::config::{ConfigError, NodeConfig, NodeSetup};
use crate::crypto::KEY_LEN;
use crate::csprng::OsBackedRng;
use crate::curves::Curves;
use crate::delivery::{Receipt, ReceiptStatus, RejectReason};
use crate::error::Error;
use crate::identity::{adopts, os_gives, Identity, IdentityError};
use crate::node::{
    builds, forward_rows, hops_of, id_text, leads, plans, unknown_peer, BuiltNode, Disposition,
    DispositionModel, Forward, ForwardRow, Node, NodeBuilder, NodeRng,
};
use crate::rng::Rng;
use crate::session::{is_oldest, PendingBodies};
use crate::signal::{NodeId, Signal, SignalId, SignalModel};
use crate::store::{NodeStore, StoreError, StoreModel};
use crate::synapse::SynapseId;
use crate::time::{Clock, SystemClock};

verus! {

/// One thing to do after a signal was routed.
#[derive(Debug)]
pub enum Step {
    /// Report that a signal was refused.
    Refused(SignalId, RejectReason),
    /// Send a receipt to an origin over the session with it, else over the
    /// session with `via`, where there is one.
    Answer {
        /// The receipt.
        receipt: Receipt,
        /// Whom it is for.
        origin: NodeId,
        /// The peer that may take it in the origin's place.
        via: Option<NodeId>,
    },
    /// Handle a signal that the activation gate released.
    Release {
        /// Which signal.
        id: SignalId,
        /// Its body, where it is at hand.
        body: Option<Signal>,
        /// Its forwards, where they were planned on arrival.
        plan: Option<Vec<Forward>>,
    },
}

/// A step as a value.
pub enum StepRow {
    /// A signal was refused.
    Refused(SignalId, RejectReason),
    /// A receipt goes to an origin, or to the peer that may take it.
    Answer(Receipt, Seq<u8>, Option<Seq<u8>>),
    /// A signal is handled.
    Release(SignalId, Option<SignalModel>, Option<Seq<ForwardRow>>),
}

impl StepRow {
    /// Whether the step handles a signal.
    pub open spec fn handles(self, id: SignalId) -> bool {
        self matches StepRow::Release(of, _, _) && of == id
    }

    /// Whether the step tells an origin why its signal was refused.
    pub open spec fn answers(self, id: SignalId, reason: RejectReason, origin: Seq<u8>) -> bool {
        self matches StepRow::Answer(receipt, to, _) && to == origin && receipt.correlation_id == id
            && receipt.status == ReceiptStatus::Rejected(reason)
    }
}

impl View for Step {
    type V = StepRow;

    open spec fn view(&self) -> StepRow {
        match self {
            Step::Refused(id, reason) => StepRow::Refused(*id, *reason),
            Step::Answer { receipt, origin, via } => StepRow::Answer(
                *receipt,
                origin@,
                match via {
                    Some(peer) => Some(peer@),
                    None => None,
                },
            ),
            Step::Release { id, body, plan } => StepRow::Release(
                *id,
                match body {
                    Some(body) => Some(body@),
                    None => None,
                },
                match plan {
                    Some(plan) => Some(forward_rows(plan@)),
                    None => None,
                },
            ),
        }
    }
}

/// Steps as values.
pub open spec fn step_rows(list: Seq<Step>) -> Seq<StepRow> {
    list.map_values(|s: Step| s@)
}

/// The bodies left after one was taken for a signal that was displaced.
pub open spec fn without_evicted(
    bodies: Map<SignalId, SignalModel>,
    evicted: Option<(QueuedRow, RejectReason)>,
) -> Map<SignalId, SignalModel> {
    match evicted {
        Some((signal, _)) => bodies.remove(signal.id),
        None => bodies,
    }
}

/// What is to be done about a signal that was displaced: it is refused, and its
/// own origin is told, over a session with it only.
pub open spec fn eviction_steps(
    bodies: Map<SignalId, SignalModel>,
    evicted: Option<(QueuedRow, RejectReason)>,
) -> Seq<StepRow> {
    match evicted {
        Some((signal, reason)) => {
            let refused = seq![StepRow::Refused(signal.id, reason)];
            if signal.delivery is Acknowledged {
                refused.push(
                    StepRow::Answer(
                        Receipt {
                            correlation_id: signal.id,
                            status: ReceiptStatus::Rejected(reason),
                            hops: if bodies.dom().contains(signal.id) {
                                hops_of(bodies[signal.id])
                            } else {
                                0
                            },
                        },
                        signal.origin,
                        None,
                    ),
                )
            } else {
                refused
            }
        },
        None => Seq::empty(),
    }
}

/// What is to be done about the arrival where it was refused: the receipt that
/// it is owed goes to its origin, or back the way it came.
pub open spec fn refusal_steps(signal: SignalModel, peer: Seq<u8>, d: DispositionModel) -> Seq<
    StepRow,
> {
    let answered = match d.receipt {
        Some(receipt) => seq![StepRow::Answer(receipt, signal.origin, Some(peer))],
        None => Seq::empty(),
    };
    match d.rejected {
        Some(reason) => answered.push(StepRow::Refused(signal.id, reason)),
        None => answered,
    }
}

/// Whether a signal is among the first `n` of those released.
pub open spec fn released_before(queue: Seq<QueuedRow>, n: int, id: SignalId) -> bool {
    exists|i: int| 0 <= i < n && (#[trigger] queue[i]).id == id
}

/// What is to be done about the `i`-th signal released. The arrival has its
/// body and its forwards at hand; of the others the body is held, once each.
pub open spec fn release_step(
    signal: SignalModel,
    d: DispositionModel,
    bodies: Map<SignalId, SignalModel>,
    i: int,
) -> StepRow {
    let id = d.handle_locally[i].id;
    if id == signal.id {
        StepRow::Release(id, Some(signal), Some(d.forward_to))
    } else if bodies.dom().contains(id) && !released_before(d.handle_locally, i, id) {
        StepRow::Release(id, Some(bodies[id]), None)
    } else {
        StepRow::Release(id, None, None)
    }
}

/// The bodies left after the first `n` signals released took theirs.
pub open spec fn bodies_after(
    signal: SignalModel,
    d: DispositionModel,
    bodies: Map<SignalId, SignalModel>,
    n: int,
) -> Map<SignalId, SignalModel> {
    bodies.remove_keys(
        Set::new(|id: SignalId| id != signal.id && released_before(d.handle_locally, n, id)),
    )
}

/// Everything to be done after a signal from a peer was routed, in order.
pub open spec fn steps_of(
    signal: SignalModel,
    peer: Seq<u8>,
    d: DispositionModel,
    bodies: Map<SignalId, SignalModel>,
) -> Seq<StepRow> {
    eviction_steps(bodies, d.evicted) + refusal_steps(signal, peer, d) + Seq::new(
        d.handle_locally.len(),
        |i: int| release_step(signal, d, without_evicted(bodies, d.evicted), i),
    )
}

/// Whether a body has been remembered: at the limit the oldest makes room.
pub open spec fn remembers(
    before: Map<SignalId, SignalModel>,
    limit: usize,
    signal: SignalModel,
    after: Map<SignalId, SignalModel>,
) -> bool {
    if before.dom().len() >= limit && before.dom().len() > 0 {
        exists|gone: SignalId| #[trigger]
            is_oldest(before, gone) && after == before.remove(gone).insert(signal.id, signal)
    } else {
        after == before.insert(signal.id, signal)
    }
}

/// Copies forwarding decisions.
fn copy_forwards(list: &Vec<Forward>) -> (r: Vec<Forward>)
    ensures
        forward_rows(r@) == forward_rows(list@),
{
    let mut out: Vec<Forward> = Vec::new();
    let mut i: usize = 0;
    while i < list.len()
        invariant
            i <= list@.len(),
            out@.len() == i,
            forall|k: int| 0 <= k < i ==> (#[trigger] out@[k])@ == list@[k]@,
        decreases list@.len() - i,
    {
        out.push(list[i].clone());
        i = i + 1;
    }
    assert(forward_rows(out@) =~= forward_rows(list@));
    out
}

/// Say what is to be done after a signal from a peer was routed.
///
/// A signal that the arrival displaced is answered for on its own. Everything
/// that the activation gate released is handled, not only the arrival, and also
/// where the arrival itself was refused. The arrival's body is held for as long
/// as the activation gate holds the signal.
pub fn dispose(signal: &Signal, peer: &NodeId, d: &Disposition, bodies: &mut PendingBodies) -> (r:
    Vec<Step>)
    requires
        old(bodies).wf(),
    ensures
        final(bodies).wf(),
        final(bodies).limit() == old(bodies).limit(),
        step_rows(r@) == steps_of(signal@, peer@, d@, old(bodies)@),
        ({
            let left = bodies_after(
                signal@,
                d@,
                without_evicted(old(bodies)@, d@.evicted),
                d@.handle_locally.len() as int,
            );
            if d@.queued {
                remembers(left, old(bodies).limit(), signal@, final(bodies)@)
            } else {
                final(bodies)@ == left
            }
        }),
{
    let ghost before = bodies@;
    let mut steps: Vec<Step> = Vec::new();
    if let Some(evicted) = &d.evicted {
        let body: Option<Signal> = bodies.take(evicted.signal.id);
        steps.push(Step::Refused(evicted.signal.id, evicted.reason));
        if evicted.needs_receipt() {
            let hops: u16 = match &body {
                Some(body) => {
                    let n: usize = body.trace.len();
                    assert(n == body@.trace.len());
                    #[verifier::truncate]
                    (n as u16)
                },
                None => 0,
            };
            steps.push(
                Step::Answer {
                    receipt: Receipt::rejected(evicted.signal.id, evicted.reason, hops),
                    origin: evicted.signal.origin.clone(),
                    via: None,
                },
            );
        }
    }
    assert(step_rows(steps@) =~= eviction_steps(before, d@.evicted));
    let ghost mid = bodies@;
    assert(mid == without_evicted(before, d@.evicted));
    let ghost first = step_rows(steps@);
    if let Some(receipt) = &d.receipt {
        steps.push(
            Step::Answer {
                receipt: *receipt,
                origin: signal.origin.clone(),
                via: Some(peer.clone()),
            },
        );
    }
    if let Some(reason) = d.rejected {
        steps.push(Step::Refused(signal.id, reason));
    }
    assert(step_rows(steps@) =~= first + refusal_steps(signal@, peer@, d@));
    let ghost second = step_rows(steps@);
    let mut i: usize = 0;
    assert(bodies_after(signal@, d@, mid, 0) =~= mid);
    while i < d.handle_locally.len()
        invariant
            i <= d.handle_locally@.len(),
            bodies.wf(),
            bodies.limit() == old(bodies).limit(),
            bodies@ == bodies_after(signal@, d@, mid, i as int),
            step_rows(steps@) == second + Seq::new(
                i as nat,
                |k: int| release_step(signal@, d@, mid, k),
            ),
        decreases d.handle_locally@.len() - i,
    {
        let id: SignalId = d.handle_locally[i].id;
        assert(d@.handle_locally[i as int].id == id);
        let ghost prior = bodies@;
        let ghost done = step_rows(steps@);
        if id == signal.id {
            steps.push(
                Step::Release {
                    id,
                    body: Some(signal.clone()),
                    plan: Some(copy_forwards(&d.forward_to)),
                },
            );
            assert(bodies_after(signal@, d@, mid, i + 1) =~= prior) by {
                assert forall|other: SignalId| other != signal@.id implies released_before(
                    d@.handle_locally,
                    i + 1,
                    other,
                ) == released_before(d@.handle_locally, i as int, other) by {
                    lemma_one_more(d@.handle_locally, i as int, other);
                }
            }
        } else {
            let body: Option<Signal> = bodies.take(id);
            steps.push(Step::Release { id, body, plan: None });
            assert(bodies_after(signal@, d@, mid, i + 1) =~= prior.remove(id)) by {
                assert forall|other: SignalId| released_before(d@.handle_locally, i + 1, other) == (
                released_before(d@.handle_locally, i as int, other) || other == id) by {
                    lemma_one_more(d@.handle_locally, i as int, other);
                }
            }
        }
        assert(steps@.last()@ == release_step(signal@, d@, mid, i as int));
        assert(step_rows(steps@) =~= done.push(release_step(signal@, d@, mid, i as int)));
        i = i + 1;
        assert(step_rows(steps@) =~= second + Seq::new(
            i as nat,
            |k: int| release_step(signal@, d@, mid, k),
        ));
    }
    if d.queued {
        bodies.remember(signal);
    }
    assert(step_rows(steps@) =~= steps_of(signal@, peer@, d@, before));
    steps
}

/// One more signal released is one more among them.
proof fn lemma_one_more(queue: Seq<QueuedRow>, n: int, id: SignalId)
    requires
        0 <= n < queue.len(),
    ensures
        released_before(queue, n + 1, id) == (released_before(queue, n, id) || queue[n].id == id),
{
    if released_before(queue, n, id) {
        let i = choose|i: int| 0 <= i < n && (#[trigger] queue[i]).id == id;
        assert(0 <= i < n + 1 && queue[i].id == id);
    }
    if queue[n].id == id {
        assert(0 <= n < n + 1 && queue[n].id == id);
    }
}

/// Every signal that the activation gate released is handled, also where the
/// arrival was refused.
pub proof fn lemma_everything_released_is_handled(
    signal: SignalModel,
    peer: Seq<u8>,
    d: DispositionModel,
    bodies: Map<SignalId, SignalModel>,
    i: int,
)
    requires
        0 <= i < d.handle_locally.len(),
    ensures
        exists|k: int|
            0 <= k < steps_of(signal, peer, d, bodies).len() && (#[trigger] steps_of(
                signal,
                peer,
                d,
                bodies,
            )[k]).handles(d.handle_locally[i].id),
{
    let steps = steps_of(signal, peer, d, bodies);
    let k = eviction_steps(bodies, d.evicted).len() + refusal_steps(signal, peer, d).len() + i;
    assert(steps[k] == release_step(signal, d, without_evicted(bodies, d.evicted), i));
}

/// Whoever is owed a receipt is answered: the arrival's origin where the
/// arrival was refused, and the displaced signal's own.
pub proof fn lemma_the_owed_receipts_are_sent(
    signal: SignalModel,
    peer: Seq<u8>,
    d: DispositionModel,
    bodies: Map<SignalId, SignalModel>,
    displaced: QueuedRow,
    reason: RejectReason,
)
    ensures
        d.receipt matches Some(receipt) ==> exists|k: int|
            0 <= k < steps_of(signal, peer, d, bodies).len() && #[trigger] steps_of(
                signal,
                peer,
                d,
                bodies,
            )[k] == StepRow::Answer(receipt, signal.origin, Some(peer)),
        d.evicted == Some((displaced, reason)) && displaced.delivery is Acknowledged ==> exists|k: int|
            0 <= k < steps_of(signal, peer, d, bodies).len() && (#[trigger] steps_of(
                signal,
                peer,
                d,
                bodies,
            )[k]).answers(displaced.id, reason, displaced.origin),
{
    let steps = steps_of(signal, peer, d, bodies);
    let first = eviction_steps(bodies, d.evicted);
    if let Some(receipt) = d.receipt {
        assert(steps[first.len() as int] == StepRow::Answer(receipt, signal.origin, Some(peer)));
    }
    if d.evicted == Some((displaced, reason)) && displaced.delivery is Acknowledged {
        assert(steps[1] == first[1]);
    }
}

/// Whether a synapse is the one that a signal came by: that to the last node
/// in its trace, if there is one.
pub open spec fn came_by(kept: StoreModel, signal: SignalModel, arrival: Option<Seq<char>>) -> bool {
    match arrival {
        Some(id) => signal.trace.len() > 0 && leads(kept, id, signal.trace.last()),
        None => signal.trace.len() == 0 || unknown_peer(kept, signal.trace.last()),
    }
}

/// The forwards of a signal that the activation gate released: those that were
/// planned on its arrival, else a fresh plan. Where none can be made, there are
/// none.
pub fn release_forwards<S: NodeStore, C: Clock, R: Rng, M: Curves>(
    node: &mut Node<S, C, R, M>,
    body: &Signal,
    plan: Option<Vec<Forward>>,
) -> (r: Vec<Forward>)
    requires
        old(node).inv(),
    ensures
        old(node).same_node(&*final(node)),
        final(node).gate() == old(node).gate(),
        plan matches Some(planned) ==> r == planned && *final(node) == *old(node),
        plan is None ==> {
            ||| exists|now_ns: u64, arrival: Option<Seq<char>>|
                {
                    &&& old(node).dependable() ==> came_by(old(node).kept(), body@, arrival)
                    &&& old(node).tells(now_ns)
                    &&& #[trigger] plans(
                        old(node).host(),
                        old(node).kept(),
                        old(node).setup(),
                        body@,
                        arrival,
                        now_ns,
                        old(node).random(),
                        final(node).random(),
                        forward_rows(r@),
                        final(node).kept(),
                    )
                }
            ||| r@.len() == 0 && (old(node).dependable() ==> final(node).kept().issued == u64::MAX)
        },
{
    if let Some(planned) = plan {
        return planned;
    }
    let mut arrival: Option<SynapseId> = None;
    if body.trace.len() > 0 {
        let last: usize = body.trace.len() - 1;
        assert(body@.trace.last() == body.trace@[last as int]@);
        match node.store().synapse_for_peer(&body.trace[last]) {
            Ok(Some(record)) => {
                assert(leads(node.kept(), record@.id, body@.trace.last()));
                arrival = Some(record.id);
            },
            _ => {},
        }
    }
    let came: Option<&SynapseId> = match &arrival {
        Some(id) => Some(id),
        None => None,
    };
    assert(node.dependable() ==> came_by(node.kept(), body@, id_text(came)));
    match node.plan_release(body, came) {
        Ok(list) => list,
        Err(_) => Vec::new(),
    }
}

/// Why a node does not start.
#[derive(Debug)]
pub enum StartError {
    /// The store could not be brought up to date.
    Store(StoreError),
    /// The identity could not be established.
    Identity(IdentityError),
    /// The node could not be built.
    Node(Error),
}

/// Whether a node that stands on a store has the identity that the store keeps,
/// or a fresh one that it keeps from then on.
pub open spec fn starts(
    kept: StoreModel,
    setup: NodeSetup,
    identity: Identity,
    me: Seq<u8>,
    after: StoreModel,
    gate: GateModel,
) -> bool {
    exists|seed: Seq<u8>, between: StoreModel|
        {
            &&& seed.len() == KEY_LEN
            &&& os_gives(seed)
            &&& #[trigger] adopts(kept.up_to_date(), seed, identity, between)
            &&& builds(between, setup, Some(identity.node_id@), me, after, gate)
        }
}

/// Start a node on a store: bring the store up to date, establish the identity,
/// and build the node on the host's clock. Its generator is seeded by the
/// operating system, for identifiers must not be foreseen.
pub fn start<S: NodeStore, M: Curves>(store: S, config: NodeConfig, curves: M) -> (r: Result<
    (BuiltNode<S, SystemClock, OsBackedRng, M>, Identity),
    StartError,
>)
    ensures
        r matches Ok((node, identity)) ==> {
            &&& config@.valid()
            &&& node.inv()
            &&& node.setup() == config@
            &&& node.me() == identity.node_id@
            &&& node.host() == curves
            &&& node.ticker() is Host
            &&& node.random() matches NodeRng::Given(rng) && rng.drawn() == 0 && os_gives(rng.seed())
            &&& store.reliable() ==> node.dependable()
            &&& starts(
                store.model(),
                config@,
                identity,
                node.me(),
                node.kept(),
                node.gate(),
            )
        },
        r matches Err(StartError::Identity(IdentityError::Malformed(n))) ==> n
            != KEY_LEN && store.model().meta.dom().contains("identity-seed"@) && n
            == store.model().meta["identity-seed"@].len(),
        r matches Err(StartError::Node(e)) ==> e matches Error::Config(fault) && match fault {
            ConfigError::NoStore => false,
            ConfigError::Migration(_) => config@.valid(),
            ConfigError::Store(_) => config@.valid(),
            _ => !config@.valid() && config@.is_fault(fault),
        },
        store.reliable() ==> {
            &&& !(r matches Err(StartError::Store(_)))
            &&& !(r matches Err(StartError::Identity(IdentityError::Store(_))))
            &&& r matches Err(StartError::Node(e)) ==> !config@.valid()
        },
{
    let mut store = store;
    let ghost kept = store.model().up_to_date();
    match store.migrate() {
        Ok(()) => {},
        Err(e) => return Err(StartError::Store(e)),
    }
    let identity = match Identity::load_or_create(&mut store) {
        Ok(identity) => identity,
        Err(e) => return Err(StartError::Identity(e)),
    };
    let ghost between = store.model();
    let ghost seed = choose|seed: Seq<u8>|
        seed.len() == KEY_LEN && os_gives(seed) && #[trigger] adopts(
            kept,
            seed,
            identity,
            between,
        );
    let builder: NodeBuilder<S, SystemClock, OsBackedRng, M> = NodeBuilder::new(curves);
    let built = builder.with_config(config).with_identity(identity.node_id.clone()).with_store(
        store,
    ).with_rng(OsBackedRng::from_os()).build();
    match built {
        Ok(node) => {
            assert(adopts(kept, seed, identity, between));
            Ok((node, identity))
        },
        Err(e) => Err(StartError::Node(e)),
    }
}

} // verus!
