//! Laws of nodes: where signals are sent, what is learned, what times out, who
//! may connect.

use vstd::prelude::*;

use crate::curves::Curves;
use crate::delivery::{Receipt, ReceiptStatus, RejectReason};
use crate::config::NodeSetup;
use crate::laws::keeping::lemma_filter_members;
use crate::laws::travel::lemma_who_may_carry;
use crate::learning::{rewarded, LearningConfig, Selection, WeightUpdate};
use crate::node::{
    cooling_down, decisions_of, journalled, leads, learns, name_of_type, penalises, plans,
    plans_with, rebalances, receipt_applied, registers, resolves, sweeps, swept, swept_one,
    unknown_peer, DispositionModel, ForwardRow,
};
use crate::propagation::{eligible, flooded, leads_to, routes, ScopeModel};
use crate::rng::Rng;
use crate::scalar::{Scalar, ONE, ZERO};
use crate::signal::{SignalModel, TypeModel};
use crate::store::{limited, JournalId, JournalRow, NodeStore, Outcome, StoreModel, SynapseRow};
use crate::synapse::{SignatureFailureOutcome, Synapse};

verus! {

/// A signal goes out over synapses that the node has, that are active or
/// weakening, and never back over the one that it came in on. Each is used once,
/// leads to the peer that is named, and there are no more of them than the
/// fanout, but for a flood.
pub proof fn lemma_where_a_signal_goes<R: Rng, M: Curves>(
    curves: M,
    kept: StoreModel,
    setup: NodeSetup,
    signal: SignalModel,
    arrival: Option<Seq<char>>,
    now_ns: u64,
    before: R,
    after: R,
    forwards: Seq<ForwardRow>,
    kept_after: StoreModel,
)
    requires
        plans(
            curves,
            kept,
            setup,
            signal,
            arrival,
            now_ns,
            before,
            after,
            forwards,
            kept_after,
        ),
    ensures
        forall|i: int|
            0 <= i < forwards.len() ==> {
                let f = #[trigger] forwards[i];
                &&& kept.synapses.dom().contains(f.synapse)
                &&& kept.synapses[f.synapse].peer == f.peer
                &&& kept.synapses[f.synapse].state is Active || kept.synapses[f.synapse].state
                    is Weakening
                &&& arrival != Some(f.synapse)
            },
        !(signal.scope is Flood) ==> forwards.len() <= setup.propagation.max_fanout
            || forwards.len() <= 1,
        signal.scope is Targeted ==> forwards.len() <= 1,
        kept_after.synapses == kept.synapses,
        kept_after.seen == kept.seen,
{
    if flooded(signal) {
        assert(forwards.len() == 0);
    } else {
        let (all, synapses, selected) = choose|
            all: Seq<SynapseRow>,
            synapses: Seq<Synapse>,
            selected: Seq<Selection>,
        | #[trigger]
            plans_with(
                curves,
                kept,
                setup,
                signal,
                arrival,
                now_ns,
                before,
                after,
                forwards,
                kept_after,
                all,
                synapses,
                selected,
            );
        let among = eligible(synapses, signal.scope, arrival);
        assert forall|i: int| 0 <= i < forwards.len() implies {
            let f = #[trigger] forwards[i];
            &&& kept.synapses.dom().contains(f.synapse)
            &&& kept.synapses[f.synapse].peer == f.peer
            &&& kept.synapses[f.synapse].state is Active || kept.synapses[f.synapse].state
                is Weakening
            &&& arrival != Some(f.synapse)
        } by {
            let k = selected[i].index as int;
            assert(selected[i].index < among.len());
            let s = among[k];
            assert(among.contains(s));
            lemma_who_may_carry(synapses, signal.scope, arrival, s);
            let m = choose|m: int| 0 <= m < synapses.len() && synapses[m] == s;
            assert(synapses[m].row() == (SynapseRow { weight: synapses[m].weight, ..all[m] }));
            assert(kept.synapses.dom().contains(all[m].id));
        }
        crate::node::lemma_every_forward_is_journalled(
            curves,
            kept,
            setup,
            signal,
            arrival,
            now_ns,
            before,
            after,
            forwards,
            kept_after,
        );
    }
}

/// A signal for a node goes straight to it where a synapse that may carry it
/// leads there.
pub proof fn lemma_a_targeted_signal_goes_straight<R: Rng, M: Curves>(
    curves: M,
    among: Seq<Synapse>,
    scores: Seq<Scalar>,
    destination: Seq<u8>,
    direct: int,
    max_fanout: usize,
    exploration: crate::learning::ExplorationPolicy,
    temperature: Scalar,
    before: R,
    after: R,
    selected: Seq<Selection>,
)
    requires
        0 <= direct < among.len(),
        among[direct].remote_node@ == destination,
        routes(
            curves,
            among,
            scores,
            ScopeModel::Targeted(destination),
            max_fanout,
            exploration,
            temperature,
            before,
            after,
            selected,
        ),
    ensures
        selected.len() == 1,
        among[selected[0].index as int].remote_node@ == destination,
        !selected[0].explored,
{
    lemma_first_lead(among, destination, direct);
    let scope = ScopeModel::Targeted(destination);
    let i = choose|i: int| leads_to(among, destination, i);
    assert(leads_to(among, scope->Targeted_0, i));
}

/// There is a first synapse that leads to a destination where there is one.
proof fn lemma_first_lead(among: Seq<Synapse>, destination: Seq<u8>, k: int)
    requires
        0 <= k < among.len(),
        among[k].remote_node@ == destination,
    ensures
        exists|i: int| leads_to(among, destination, i),
    decreases k,
{
    if exists|j: int| 0 <= j < k && (#[trigger] among[j]).remote_node@ == destination {
        let j = choose|j: int| 0 <= j < k && (#[trigger] among[j]).remote_node@ == destination;
        lemma_first_lead(among, destination, j);
    } else {
        assert(leads_to(among, destination, k));
    }
}

/// A decision is journalled as it was made: for the signal, its type and its
/// weight, the synapse and the peer, at its instant, with no outcome yet.
pub proof fn lemma_decisions_are_recorded(
    signal: SignalModel,
    among: Seq<Synapse>,
    selected: Seq<Selection>,
    now_ns: u64,
    i: int,
)
    requires
        0 <= i < selected.len(),
    ensures
        ({
            let d = decisions_of(signal, among, selected, now_ns)[i];
            let s = among[selected[i].index as int];
            &&& d.signal == signal.id
            &&& d.signal_type == signal.signal_type
            &&& d.signal_weight == signal.weight
            &&& d.synapse == s.id@
            &&& d.peer == s.remote_node@
            &&& d.score == selected[i].score
            &&& d.explored == selected[i].explored
            &&& d.decided_at_ns == now_ns
            &&& d.outcome is Pending
            &&& d.resolved_at_ns is None
        }),
{
}

/// What is learned of an outcome touches the synapse that carried the signal:
/// where nothing has to be rebalanced, it has the updated weight, the instant,
/// and no other synapse changes. A failure does not leave it heavier, nor a
/// delivery lighter, where the numbers are sound. What the peer gained or lost
/// is held against it.
pub proof fn lemma_learning_touches_the_path<S: NodeStore>(
    kept: StoreModel,
    setup: NodeSetup,
    entry: JournalRow,
    outcome: Outcome,
    now_ns: u64,
    update: WeightUpdate,
    after: StoreModel,
    other: Seq<char>,
)
    requires
        learns::<S>(kept, setup, entry, outcome, now_ns, update, None, after),
        kept.synapses.dom().contains(entry.synapse),
        kept.synapses[entry.synapse].id == entry.synapse,
        other != entry.synapse,
    ensures
        after.synapses.dom().contains(entry.synapse),
        after.synapses[entry.synapse].last_active_ns == now_ns,
        after.synapses[entry.synapse].peer == kept.synapses[entry.synapse].peer,
        after.synapses.dom().contains(other) == kept.synapses.dom().contains(other),
        kept.synapses.dom().contains(other) ==> after.synapses[other] == kept.synapses[other],
        update.before == kept.synapses[entry.synapse].weight,
        update.after.at_most(setup.synapse.max_weight) ==> after.synapses[entry.synapse].weight
            == update.after,
        setup.synapse.max_weight.below(update.after) ==> after.synapses[entry.synapse].weight
            == setup.synapse.max_weight,
        Scalar::from_bits(crate::learning::EPSILON).below(update.applied_delta.absolute())
            ==> after.influence.len() == kept.influence.len() + 1 && after.influence.last().peer
            == entry.peer && after.influence.last().at_ns == now_ns
            && after.influence.last().magnitude == update.applied_delta.absolute(),
        !Scalar::from_bits(crate::learning::EPSILON).below(update.applied_delta.absolute())
            ==> after.influence == kept.influence,
        after.journal == kept.journal,
{
    let row = kept.synapses[entry.synapse];
    let used = S::influence_of(
        kept.influence,
        entry.peer,
        LearningConfig::window_start(now_ns, setup.learning.influence_window_secs),
    );
    let weight = entry.signal_weight.clamped(Scalar::from_bits(ZERO), Scalar::from_bits(ONE));
    let moved = SynapseRow {
        last_active_ns: now_ns,
        ..row.learned(
            outcome,
            weight,
            name_of_type(entry.signal_type),
            used,
            setup.learning,
            setup.synapse.max_weight,
            setup.synapse.active_threshold,
            setup.synapse.dormancy_threshold,
        )
    };
    let noted = if Scalar::from_bits(crate::learning::EPSILON).below(
        update.applied_delta.absolute(),
    ) {
        kept.with_influence(entry.peer, update.applied_delta, now_ns)
    } else {
        kept
    };
    let before = noted.with_synapse(moved);
    assert(rebalances(before, setup.learning, None, after));
    let all = choose|all: Seq<SynapseRow>| #[trigger]
        crate::node::rebalances_from(before, setup.learning, None, after, all);
    assert(after == before);
}

/// What has been used of a peer's influence is what it gained within the window:
/// the update is limited by what the store has of it since then.
pub proof fn lemma_the_influence_window_is_used<S: NodeStore>(
    kept: StoreModel,
    setup: NodeSetup,
    entry: JournalRow,
    outcome: Outcome,
    now_ns: u64,
    update: WeightUpdate,
    factor: Option<Scalar>,
    after: StoreModel,
)
    requires
        learns::<S>(kept, setup, entry, outcome, now_ns, update, factor, after),
        setup.learning.influence_window_secs * 1_000_000_000 <= now_ns,
    ensures
        update == rewarded(
            kept.synapses[entry.synapse].weight,
            outcome,
            entry.signal_weight.clamped(Scalar::from_bits(ZERO), Scalar::from_bits(ONE)),
            S::influence_of(
                kept.influence,
                entry.peer,
                (now_ns - setup.learning.influence_window_secs * 1_000_000_000) as u64,
            ),
            setup.learning,
        ),
{
}

/// A receipt resolves the decision that awaits it, to what it reports, and a
/// decision that is resolved moves to no other outcome. A receipt from another
/// peer, or for another signal, resolves nothing.
pub proof fn lemma_a_receipt_resolves_what_awaits_it<S: NodeStore>(
    kept: StoreModel,
    setup: NodeSetup,
    receipt: Receipt,
    from_peer: Seq<u8>,
    now_ns: u64,
    update: Option<WeightUpdate>,
    after: StoreModel,
)
    requires
        receipt_applied::<S>(kept, setup, receipt, from_peer, now_ns, update, after),
        distinct(kept.journal),
    ensures
        after.journal.len() == kept.journal.len(),
        forall|j: int|
            0 <= j < kept.journal.len() && #[trigger] after.journal[j] != kept.journal[j] ==> {
                &&& kept.journal[j].signal == receipt.correlation_id
                &&& kept.journal[j].peer == from_peer
                &&& kept.journal[j].outcome is Pending
                &&& after.journal[j].resolved_at_ns == Some(now_ns)
                &&& receipt.status is Delivered ==> after.journal[j].outcome is Delivered
                &&& receipt.status is Rejected ==> after.journal[j].outcome is Rejected
            },
        (exists|j: int|
            0 <= j < kept.journal.len() && (#[trigger] kept.journal[j]).awaits(
                receipt.correlation_id,
                from_peer,
            )) ==> update is Some,
{
    if crate::node::awaited(kept, receipt.correlation_id, from_peer) {
        let i = choose|i: int|
            {
                &&& 0 <= i < kept.journal.len()
                &&& (#[trigger] kept.journal[i]).awaits(receipt.correlation_id, from_peer)
                &&& match kept.journal[i].id {
                    None => update is None && after == kept,
                    Some(id) => resolves::<S>(
                        kept,
                        setup,
                        id,
                        receipt.resolves_to(),
                        now_ns,
                        update,
                        after,
                    ),
                }
            };
        let id = kept.journal[i].id->0;
        lemma_resolving_marks_one::<S>(
            kept,
            setup,
            id,
            receipt.resolves_to(),
            now_ns,
            update,
            after,
            i,
        );
    }
}

/// Whether the entries of a journal have identifiers of their own.
pub open spec fn distinct(journal: Seq<JournalRow>) -> bool {
    &&& forall|i: int| 0 <= i < journal.len() ==> (#[trigger] journal[i]).id is Some
    &&& forall|i: int, j: int|
        0 <= i < j < journal.len() ==> (#[trigger] journal[i]).id != (#[trigger] journal[j]).id
}

/// Resolving a decision marks its entry and no other.
proof fn lemma_resolving_marks_one<S: NodeStore>(
    kept: StoreModel,
    setup: NodeSetup,
    id: JournalId,
    outcome: Outcome,
    now_ns: u64,
    update: Option<WeightUpdate>,
    after: StoreModel,
    i: int,
)
    requires
        resolves::<S>(kept, setup, id, outcome, now_ns, update, after),
        distinct(kept.journal),
        0 <= i < kept.journal.len(),
        kept.journal[i].id == Some(id),
    ensures
        after.journal.len() == kept.journal.len(),
        forall|j: int|
            0 <= j < kept.journal.len() && j != i ==> #[trigger] after.journal[j]
                == kept.journal[j],
        after.journal[i].id == kept.journal[i].id,
        kept.journal[i].outcome is Pending ==> after.journal[i].outcome == outcome
            && after.journal[i].resolved_at_ns == Some(now_ns) && update is Some,
        !(kept.journal[i].outcome is Pending) ==> after == kept && update is None,
        kept.journal[i].outcome is Pending ==> after.journal[i] == (JournalRow {
            outcome,
            resolved_at_ns: Some(now_ns),
            ..kept.journal[i]
        }),
{
    assert(kept.journal[i].id == Some(id));
    assert(kept.has_decision(id));
    let marked = kept.with_outcome(id, outcome, now_ns);
    let at = kept.decision_at(id);
    lemma_place_is(kept, id, i);
    assert(at == i);
    if kept.journal[i].outcome is Pending {
        crate::node::lemma_learning_keeps_the_journal::<S>(
            marked,
            setup,
            marked.journal[at],
            outcome,
            now_ns,
            update->0,
            after,
        );
    }
}

/// Where identifiers differ, the place of one is where it stands.
proof fn lemma_place_is(kept: StoreModel, id: JournalId, i: int)
    requires
        distinct(kept.journal),
        0 <= i < kept.journal.len(),
        kept.journal[i].id == Some(id),
    ensures
        kept.has_decision(id),
        kept.decision_at(id) == i,
{
    assert forall|j: int| 0 <= j < i implies (#[trigger] kept.journal[j]).id != Some(id) by {
        assert(kept.journal[j].id != kept.journal[i].id);
    }
    assert(kept.journal[i].id == Some(id));
    let k = kept.decision_at(id);
    assert(0 <= k < kept.journal.len() && kept.journal[k].id == Some(id));
    if k < i {
        assert(kept.journal[k].id != kept.journal[i].id);
    } else if i < k {
        assert(kept.journal[i].id != kept.journal[k].id);
    }
}

/// What some steps of a sweep have left.
proof fn lemma_swept_so_far<S: NodeStore>(
    kept: StoreModel,
    setup: NodeSetup,
    entries: Seq<JournalRow>,
    now_ns: u64,
    stages: Seq<StoreModel>,
    counted: Seq<bool>,
    deadline: u64,
    k: int,
)
    requires
        swept::<S>(setup, entries, now_ns, stages, counted),
        stages[0] == kept,
        distinct(kept.journal),
        forall|m: int|
            0 <= m < entries.len() ==> kept.journal.contains(#[trigger] entries[m])
                && entries[m].outcome is Pending && entries[m].decided_at_ns < deadline,
        0 <= k <= entries.len(),
    ensures
        stages[k].journal.len() == kept.journal.len(),
        distinct(stages[k].journal),
        forall|j: int|
            0 <= j < kept.journal.len() ==> (#[trigger] stages[k].journal[j]).id
                == kept.journal[j].id && (stages[k].journal[j] == kept.journal[j] || (
            kept.journal[j].outcome is Pending && kept.journal[j].decided_at_ns < deadline
                && stages[k].journal[j].outcome is TimedOut && stages[k].journal[j].resolved_at_ns
                == Some(now_ns))),
        forall|m: int, j: int|
            0 <= m < k && 0 <= j < kept.journal.len() && kept.journal[j] == #[trigger] entries[m]
                ==> (#[trigger] stages[k].journal[j]).outcome is TimedOut,
    decreases k,
{
    if k > 0 {
        lemma_swept_so_far::<S>(
            kept,
            setup,
            entries,
            now_ns,
            stages,
            counted,
            deadline,
            k - 1,
        );
        let was = stages[k - 1];
        let now = stages[k];
        let entry = entries[k - 1];
        assert(swept_one::<S>(was, setup, entry, now_ns, counted[k - 1], stages[(k - 1) + 1]));
        let i = choose|i: int| 0 <= i < kept.journal.len() && kept.journal[i] == entry;
        assert(was.journal[i].id == kept.journal[i].id);
        let id = entry.id->0;
        let update = choose|update: Option<WeightUpdate>|
            #[trigger] resolves::<S>(was, setup, id, Outcome::TimedOut, now_ns, update, now)
                && counted[k - 1] == (update is Some);
        lemma_resolving_marks_one::<S>(
            was,
            setup,
            id,
            Outcome::TimedOut,
            now_ns,
            update,
            now,
            i,
        );
        assert forall|j: int| 0 <= j < kept.journal.len() implies (#[trigger] now.journal[j]).id
            == kept.journal[j].id && (now.journal[j] == kept.journal[j] || (kept.journal[j].outcome
            is Pending && kept.journal[j].decided_at_ns < deadline && now.journal[j].outcome
            is TimedOut && now.journal[j].resolved_at_ns == Some(now_ns))) by {
            assert(was.journal[j].id == kept.journal[j].id);
            if j != i {
                assert(now.journal[j] == was.journal[j]);
            }
        }
        assert forall|a: int, b: int| 0 <= a < b < now.journal.len() implies (
        #[trigger] now.journal[a]).id != (#[trigger] now.journal[b]).id by {
            assert(now.journal[a].id == kept.journal[a].id);
            assert(now.journal[b].id == kept.journal[b].id);
            assert(kept.journal[a].id != kept.journal[b].id);
        }
        assert forall|a: int| 0 <= a < now.journal.len() implies (#[trigger] now.journal[a]).id
            is Some by {
            assert(now.journal[a].id == kept.journal[a].id);
            assert(kept.journal[a].id is Some);
        }
        assert forall|m: int, j: int|
            0 <= m < k && 0 <= j < kept.journal.len() && kept.journal[j]
                == #[trigger] entries[m] implies (#[trigger] now.journal[j]).outcome is TimedOut by {
            if m == k - 1 {
                if j != i {
                    assert(kept.journal[j].id == kept.journal[i].id);
                    if j < i {
                        assert(kept.journal[j].id != kept.journal[i].id);
                    } else {
                        assert(kept.journal[i].id != kept.journal[j].id);
                    }
                }
                assert(was.journal[i] == kept.journal[i] || was.journal[i].outcome is TimedOut);
            } else {
                assert(was.journal[j].outcome is TimedOut);
                if j != i {
                    assert(now.journal[j] == was.journal[j]);
                }
            }
        }
    }
}

/// A sweep times out what is overdue and nothing else: a decision that was made
/// less than a window ago stays as it is, and so does what was resolved; where
/// the limit allows for all, every decision older than the window is timed out.
pub proof fn lemma_a_sweep_spares_the_young<S: NodeStore>(
    kept: StoreModel,
    setup: NodeSetup,
    now_ns: u64,
    limit: usize,
    n: int,
    after: StoreModel,
    j: int,
)
    requires
        sweeps::<S>(kept, setup, now_ns, limit, n, after),
        distinct(kept.journal),
        0 <= j < kept.journal.len(),
        kept.journal[j].decided_at_ns <= now_ns,
    ensures
        after.journal.len() == kept.journal.len(),
        now_ns - kept.journal[j].decided_at_ns < setup.learning.receipt_window_secs * 1_000_000_000
            ==> after.journal[j] == kept.journal[j],
        !(kept.journal[j].outcome is Pending) ==> after.journal[j] == kept.journal[j],
        kept.journal[j].decided_at_ns + setup.learning.receipt_window_secs * 1_000_000_000 < now_ns
            && kept.journal[j].outcome is Pending && kept.journal.len() <= limit
            ==> after.journal[j].outcome is TimedOut,
{
    let deadline = LearningConfig::window_start(now_ns, setup.learning.receipt_window_secs);
    let late = |e: JournalRow| e.overdue(deadline);
    let (all, stages, counted) = choose|
        all: Seq<JournalRow>,
        stages: Seq<StoreModel>,
        counted: Seq<bool>,
    |
        {
            &&& #[trigger] swept::<S>(setup, limited(all, limit as int), now_ns, stages, counted)
            &&& all.to_multiset() == kept.journal.filter(
                |e: JournalRow| e.overdue(deadline),
            ).to_multiset()
            &&& stages[0] == kept
            &&& stages.last() == after
            &&& n == counted.filter(|b: bool| b).len()
        };
    let entries = limited(all, limit as int);
    let overdue = kept.journal.filter(late);
    all.to_multiset_ensures();
    overdue.to_multiset_ensures();
    assert forall|m: int| 0 <= m < entries.len() implies kept.journal.contains(
        #[trigger] entries[m],
    ) && entries[m].outcome is Pending && entries[m].decided_at_ns < deadline by {
        assert(entries[m] == all[m]);
        assert(all.contains(all[m]));
        assert(all.to_multiset().count(all[m]) > 0);
        assert(overdue.contains(all[m]));
        lemma_filter_members(kept.journal, late, all[m]);
    }
    lemma_swept_so_far::<S>(
        kept,
        setup,
        entries,
        now_ns,
        stages,
        counted,
        deadline,
        entries.len() as int,
    );
    assert(stages.last() == stages[entries.len() as int]);
    assert(after.journal[j].id == kept.journal[j].id);
    crate::laws::windows::lemma_a_window_lasts_its_seconds(
        now_ns,
        kept.journal[j].decided_at_ns,
        setup.learning.receipt_window_secs,
    );
    if kept.journal[j].decided_at_ns + setup.learning.receipt_window_secs * 1_000_000_000 < now_ns
        && kept.journal[j].outcome is Pending && kept.journal.len() <= limit {
        let entry = kept.journal[j];
        assert(kept.journal.contains(entry));
        lemma_filter_members(kept.journal, late, entry);
        assert(overdue.to_multiset().count(entry) > 0);
        assert(all.contains(entry));
        assert(all.len() == overdue.len());
        lemma_filter_len(kept.journal, late);
        let m = choose|m: int| 0 <= m < all.len() && all[m] == entry;
        assert(entries[m] == entry);
        assert(after.journal[j].outcome is TimedOut);
    }
}

/// A filtered list is no longer than the list.
proof fn lemma_filter_len<T>(list: Seq<T>, keep: spec_fn(T) -> bool)
    ensures
        list.filter(keep).len() <= list.len(),
{
    broadcast use vstd::seq_lib::group_filter_ensures;

    assert(list.filter(keep).len() <= list.len());
}

/// A pruned synapse keeps its peer out for the seconds of the cooldown, counted
/// from when it was pruned, and not longer. Any other keeps nobody out.
pub proof fn lemma_a_cooldown_lasts_its_seconds(row: SynapseRow, now_ns: u64, secs: u64)
    requires
        row.last_active_ns + secs * 1_000_000_000 <= u64::MAX,
    ensures
        cooling_down(row, now_ns, secs) <==> row.state is Pruned && now_ns < row.last_active_ns
            + secs * 1_000_000_000,
{
}

/// A peer that is not known gets a synapse, active, to it and no other, at the
/// configured weight, and is remembered. One that has a synapse that is not
/// pruned keeps it as it is.
pub proof fn lemma_registering_a_peer<R: Rng>(
    kept: StoreModel,
    setup: NodeSetup,
    peer: Seq<u8>,
    now_ns: u64,
    before: R,
    record: SynapseRow,
    after: StoreModel,
)
    requires
        registers(kept, setup, peer, now_ns, before, record, after),
        forall|id: Seq<char>| #[trigger]
            kept.synapses.dom().contains(id) ==> kept.synapses[id].id == id,
    ensures
        record.peer == peer,
        !(record.state is Pruned),
        after.synapses.dom().contains(record.id) && after.synapses[record.id] == record,
        unknown_peer(kept, peer) ==> {
            &&& record.state is Active
            &&& record.weight == setup.synapse.initial_weight
            &&& record.established_at_ns == now_ns
            &&& record.signature_failures == 0
            &&& after.peers.dom().contains(peer)
            &&& after.peers[peer].last_seen_ns == now_ns
            &&& after.journal == kept.journal
        },
        after.journal == kept.journal,
        after.seen == kept.seen,
{
}

/// A bad signature is held against the synapse that it came over, and no other.
pub proof fn lemma_a_penalty_is_for_one_synapse(
    kept: StoreModel,
    setup: NodeSetup,
    id: Seq<char>,
    now_ns: u64,
    result: Option<SignatureFailureOutcome>,
    after: StoreModel,
    other: Seq<char>,
)
    requires
        penalises(kept, setup, id, now_ns, result, after),
        kept.synapses.dom().contains(id) ==> kept.synapses[id].id == id,
        other != id,
    ensures
        result is Some <==> kept.synapses.dom().contains(id),
        after.synapses.dom().contains(other) == kept.synapses.dom().contains(other),
        kept.synapses.dom().contains(other) ==> after.synapses[other] == kept.synapses[other],
        result matches Some(r) ==> r.failures_in_window == after.synapses[id].signature_failures
            && (r.pruned <==> after.synapses[id].signature_failures
            >= setup.learning.signature_failure_prune_threshold) && (r.pruned
            ==> after.synapses[id].state is Pruned),
        !kept.synapses.dom().contains(id) ==> after == kept,
        after.journal == kept.journal,
{
}

/// A refusal says why, forwards nothing, and answers an acknowledged signal with
/// a receipt for it that carries the reason and the hops that it took.
pub proof fn lemma_a_refusal_says_why(signal: SignalModel, reason: RejectReason)
    requires
        signal.trace.len() <= 65535,
    ensures
        ({
            let d = DispositionModel::refusal(signal, reason);
            &&& d.rejected == Some(reason)
            &&& d.forward_to.len() == 0 && d.handle_locally.len() == 0
            &&& !d.queued && d.evicted is None
            &&& d.receipt is Some <==> signal.delivery is Acknowledged
            &&& d.receipt matches Some(r) ==> r.correlation_id == signal.id && r.hops
                == signal.trace.len() && r.status == ReceiptStatus::Rejected(reason)
        }),
{
}

/// Signal types are counted under names of their own.
pub proof fn lemma_types_have_names_of_their_own(a: TypeModel, b: TypeModel)
    requires
        a.byte <= 6,
        b.byte <= 6,
    ensures
        name_of_type(a) == name_of_type(b) ==> a.byte == b.byte,
        a.byte == 0 ==> name_of_type(a) == "Data"@,
        a.byte == 6 ==> name_of_type(a) == "Receipt"@,
{
    reveal_strlit("Data");
    reveal_strlit("Query");
    reveal_strlit("Event");
    reveal_strlit("Command");
    reveal_strlit("Heartbeat");
    reveal_strlit("Discovery");
    reveal_strlit("Receipt");
    let x = name_of_type(a);
    let y = name_of_type(b);
    if x == y {
        assert(x.len() == y.len());
        assert(x[0] == y[0]);
    }
}

} // verus!
