//! Laws of what a store keeps: how long, in which order, and what a write leaves.

use vstd::prelude::*;

use crate::memory::influence_total;
use crate::order::text_below;
use crate::scalar::{Scalar, ZERO};
use crate::signal::{SignalId, TypeModel};
use crate::store::{
    bumped, count_total, counted, limited, lists_decisions, lists_peers, lists_synapses, place_of,
    AffinityModel, FilterModel, InfluenceRow, JournalId, JournalRow, Outcome, PeerRow, StoreModel,
    SynapseRow,
};

verus! {

/// A signal that was marked is remembered for its seconds: it is seen until as
/// many thousand million nanoseconds have passed, and no longer. A mark that
/// still holds is not prolonged.
pub proof fn lemma_a_mark_lasts_its_seconds(
    kept: StoreModel,
    id: SignalId,
    now_ns: u64,
    ttl_secs: u64,
    later_ns: u64,
)
    requires
        now_ns + ttl_secs * 1_000_000_000 <= u64::MAX,
    ensures
        !kept.sees(id, now_ns) ==> (kept.marked(id, now_ns, ttl_secs).sees(id, later_ns)
            <==> later_ns < now_ns + ttl_secs * 1_000_000_000),
        kept.sees(id, now_ns) ==> kept.marked(id, now_ns, ttl_secs) == kept,
        kept.sees(id, later_ns) <==> kept.seen.dom().contains(id) && later_ns < kept.seen[id],
{
}

/// Purging takes exactly the marks that have expired.
pub proof fn lemma_purging_takes_the_expired(kept: StoreModel, id: SignalId, now_ns: u64)
    ensures
        kept.purged(now_ns).seen.dom().contains(id) <==> kept.seen.dom().contains(id) && now_ns
            < kept.seen[id],
        kept.purged(now_ns).seen.dom().contains(id) ==> kept.purged(now_ns).seen[id]
            == kept.seen[id],
        kept.purged(now_ns).synapses == kept.synapses,
        kept.purged(now_ns).journal == kept.journal,
        kept.purged(now_ns).peers == kept.peers,
        kept.purged(now_ns).meta == kept.meta,
        kept.purged(now_ns).influence == kept.influence,
{
}

/// A decision is journalled last, under the next identifier, as it was made.
/// What was journalled before stays.
pub proof fn lemma_a_decision_is_journalled_last(kept: StoreModel, row: JournalRow)
    requires
        kept.issued < u64::MAX,
    ensures
        ({
            let after = kept.with_decision(row);
            &&& after.journal.len() == kept.journal.len() + 1
            &&& after.journal.last().id == Some(JournalId((kept.issued + 1) as u64))
            &&& after.journal.last().signal == row.signal
            &&& after.journal.last().peer == row.peer
            &&& after.journal.last().synapse == row.synapse
            &&& after.journal.last().outcome == row.outcome
            &&& after.journal.last().signal_weight == row.signal_weight
            &&& after.journal.last().decided_at_ns == row.decided_at_ns
            &&& forall|i: int| 0 <= i < kept.journal.len() ==> #[trigger] after.journal[i]
                == kept.journal[i]
            &&& after.issued == kept.issued + 1
            &&& after.synapses == kept.synapses && after.seen == kept.seen
        }),
{
}

/// The first outcome of a decision wins: it is attached with its instant to the
/// decision alone, and a later one changes nothing.
pub proof fn lemma_the_first_outcome_stays(
    kept: StoreModel,
    id: JournalId,
    first: Outcome,
    second: Outcome,
    now_ns: u64,
    later_ns: u64,
)
    requires
        kept.has_decision(id),
        !(first is Pending),
    ensures
        ({
            let after = kept.with_outcome(id, first, now_ns);
            let i = kept.decision_at(id);
            &&& 0 <= i < kept.journal.len()
            &&& kept.journal[i].id == Some(id)
            &&& kept.journal[i].outcome is Pending ==> after.journal[i].outcome == first
                && after.journal[i].resolved_at_ns == Some(now_ns)
            &&& !(kept.journal[i].outcome is Pending) ==> after == kept
            &&& after.journal.len() == kept.journal.len()
            &&& forall|j: int|
                0 <= j < kept.journal.len() && j != i ==> #[trigger] after.journal[j]
                    == kept.journal[j]
            &&& after.with_outcome(id, second, later_ns) == after
            &&& after.synapses == kept.synapses
        }),
{
    lemma_decision_place(kept, id);
    let i = kept.decision_at(id);
    let after = kept.with_outcome(id, first, now_ns);
    assert(after.journal[i].id == Some(id));
    assert(after.has_decision(id));
    lemma_decision_place(after, id);
    let k = after.decision_at(id);
    if k < i {
        assert(after.journal[k] == kept.journal[k]);
        assert(kept.journal[k].id != Some(id));
    } else if i < k {
        assert(after.journal[i].id != Some(id));
    }
}

/// The place of a decision is one that has its identifier.
proof fn lemma_decision_place(kept: StoreModel, id: JournalId)
    requires
        kept.has_decision(id),
    ensures
        ({
            let i = kept.decision_at(id);
            &&& 0 <= i < kept.journal.len()
            &&& kept.journal[i].id == Some(id)
            &&& forall|j: int| 0 <= j < i ==> (#[trigger] kept.journal[j]).id != Some(id)
        }),
{
    let k = choose|k: int| 0 <= k < kept.journal.len() && (#[trigger] kept.journal[k]).id == Some(id);
    lemma_first_decision(kept.journal, id, k);
}

/// There is a first entry with an identifier at or before one.
proof fn lemma_first_decision(journal: Seq<JournalRow>, id: JournalId, k: int)
    requires
        0 <= k < journal.len(),
        journal[k].id == Some(id),
    ensures
        exists|i: int|
            0 <= i < journal.len() && (#[trigger] journal[i]).id == Some(id) && forall|j: int|
                0 <= j < i ==> (#[trigger] journal[j]).id != Some(id),
    decreases k,
{
    if exists|j: int| 0 <= j < k && (#[trigger] journal[j]).id == Some(id) {
        let j = choose|j: int| 0 <= j < k && (#[trigger] journal[j]).id == Some(id);
        lemma_first_decision(journal, id, j);
    } else {
        assert(journal[k].id == Some(id));
    }
}

/// Trimming drops exactly what was decided before the cutoff; forgetting drops
/// exactly what was recorded before it.
pub proof fn lemma_trimming_drops_the_old(
    kept: StoreModel,
    cutoff_ns: u64,
    entry: JournalRow,
    moved: InfluenceRow,
)
    ensures
        kept.trimmed(cutoff_ns).journal.contains(entry) <==> kept.journal.contains(entry)
            && cutoff_ns <= entry.decided_at_ns,
        kept.forgotten(cutoff_ns).influence.contains(moved) <==> kept.influence.contains(moved)
            && cutoff_ns <= moved.at_ns,
        kept.trimmed(cutoff_ns).synapses == kept.synapses,
        kept.forgotten(cutoff_ns).journal == kept.journal,
{
    let recent = |e: JournalRow| e.decided_at_ns >= cutoff_ns;
    let fresh = |e: InfluenceRow| e.at_ns >= cutoff_ns;
    lemma_filter_members(kept.journal, recent, entry);
    lemma_filter_members(kept.influence, fresh, moved);
}

/// The members of a filtered list.
pub proof fn lemma_filter_members<T>(list: Seq<T>, keep: spec_fn(T) -> bool, item: T)
    ensures
        list.filter(keep).contains(item) <==> list.contains(item) && keep(item),
{
    broadcast use vstd::seq_lib::group_filter_ensures;

    if list.filter(keep).contains(item) {
        let k = choose|k: int| 0 <= k < list.filter(keep).len() && list.filter(keep)[k] == item;
        assert(keep(list.filter(keep)[k]));
        list.lemma_filter_contains_rev(keep, item);
    }
    if list.contains(item) && keep(item) {
        let k = choose|k: int| 0 <= k < list.len() && list[k] == item;
        assert(keep(list[k]));
        list.lemma_filter_contains(keep, k);
    }
}

/// What awaits a receipt, and what is overdue: only what is pending, for the
/// signal and the peer, or decided before the deadline.
pub proof fn lemma_what_is_awaited(entry: JournalRow, signal: SignalId, peer: Seq<u8>, deadline: u64)
    ensures
        entry.awaits(signal, peer) <==> entry.outcome is Pending && entry.signal == signal
            && entry.peer == peer,
        entry.overdue(deadline) <==> entry.outcome is Pending && entry.decided_at_ns < deadline,
{
}

/// A recorded move counts by its size for its own peer, from its instant on, and
/// for no other peer and no window that starts later.
pub proof fn lemma_a_move_counts_for_its_peer(
    kept: StoreModel,
    peer: Seq<u8>,
    other: Seq<u8>,
    magnitude: Scalar,
    at_ns: u64,
    since_ns: u64,
)
    ensures
        ({
            let after = kept.with_influence(peer, magnitude, at_ns).influence;
            let before = kept.influence;
            &&& other != peer ==> influence_total(after, other, since_ns) == influence_total(
                before,
                other,
                since_ns,
            )
            &&& at_ns < since_ns ==> influence_total(after, peer, since_ns) == influence_total(
                before,
                peer,
                since_ns,
            )
            &&& since_ns <= at_ns ==> influence_total(after, peer, since_ns) == influence_total(
                before,
                peer,
                since_ns,
            ).sum(magnitude.absolute())
            &&& influence_total(Seq::empty(), peer, since_ns) == Scalar::from_bits(ZERO)
        }),
{
    let after = kept.with_influence(peer, magnitude, at_ns).influence;
    assert(after.drop_last() =~= kept.influence);
    assert(after.last().peer == peer && after.last().at_ns == at_ns);
}

/// What a peer has gained does not fall as it gains, where its moves are
/// numbers: another move adds to the total or leaves it.
pub proof fn lemma_moves_add_up(list: Seq<InfluenceRow>, peer: Seq<u8>, since_ns: u64)
    requires
        list.len() > 0,
        influence_total(list.drop_last(), peer, since_ns).finite(),
        !influence_total(list.drop_last(), peer, since_ns).negative(),
        list.last().magnitude.finite(),
        !list.last().magnitude.negative(),
    ensures
        influence_total(list.drop_last(), peer, since_ns).at_most(
            influence_total(list, peer, since_ns),
        ),
{
    crate::arith::lemma_adding_up(
        influence_total(list.drop_last(), peer, since_ns),
        list.last().magnitude,
    );
}

/// What passes a filter: what is in one of its states, where it names some, no
/// lighter than its least weight, and active before its instant. Everything
/// passes the filter for any synapse, and what may carry passes the other.
pub proof fn lemma_what_filters_pass(row: SynapseRow, filter: FilterModel)
    ensures
        FilterModel::any().admits(row),
        FilterModel::any().limit is None,
        FilterModel::eligible().admits(row) <==> row.state is Active || row.state is Weakening,
        FilterModel::eligible().limit is None,
        !row.weight.nan() && (filter.min_weight matches Some(least) ==> !least.nan()) ==> (
        filter.admits(row) <==> {
            &&& filter.states.len() == 0 || exists|k: int|
                0 <= k < filter.states.len() && #[trigger] filter.states[k] == row.state
            &&& filter.min_weight matches Some(least) ==> !row.weight.below(least)
            &&& filter.last_active_before_ns matches Some(end) ==> row.last_active_ns < end
        }),
{
    let states = FilterModel::eligible().states;
    assert(states[0] is Active && states[1] is Weakening);
    if row.state is Active {
        assert(states.contains(states[0]));
    }
    if row.state is Weakening {
        assert(states.contains(states[1]));
    }
}

/// Listed synapses are those that pass, each once, the heaviest first, and of
/// equally heavy ones the one whose identifier comes first.
pub proof fn lemma_synapses_are_listed_by_weight(
    synapses: Map<Seq<char>, SynapseRow>,
    filter: FilterModel,
    all: Seq<SynapseRow>,
    id: Seq<char>,
)
    requires
        lists_synapses(synapses, filter, all),
    ensures
        forall|i: int, j: int|
            0 <= i < j < all.len() ==> !(#[trigger] all[i]).weight.below((#[trigger] all[j]).weight),
        forall|i: int, j: int|
            0 <= i < j < all.len() && (#[trigger] all[i]).weight == (#[trigger] all[j]).weight
                ==> text_below(all[i].id, all[j].id),
        synapses.dom().contains(id) && filter.admits(synapses[id]) ==> all.contains(synapses[id]),
        forall|i: int|
            0 <= i < all.len() ==> synapses.dom().contains((#[trigger] all[i]).id)
                && filter.admits(all[i]) && synapses[all[i].id] == all[i],
{
}

/// Listed peers are those of the region, the one seen last first.
pub proof fn lemma_peers_are_listed_by_when_seen(
    peers: Map<Seq<u8>, PeerRow>,
    region: Option<Seq<char>>,
    all: Seq<PeerRow>,
    id: Seq<u8>,
)
    requires
        lists_peers(peers, region, all),
    ensures
        forall|i: int, j: int|
            0 <= i < j < all.len() ==> (#[trigger] all[i]).last_seen_ns >= (
            #[trigger] all[j]).last_seen_ns,
        forall|i: int|
            0 <= i < all.len() ==> region is None || (#[trigger] all[i]).region == region,
        peers.dom().contains(id) && (region is None || peers[id].region == region) ==> all.contains(
            peers[id],
        ),
{
}

/// A limit takes the first, as many as it says or all there are.
pub proof fn lemma_a_limit_takes_the_first<T>(all: Seq<T>, limit: int)
    requires
        0 <= limit,
    ensures
        limit <= all.len() ==> limited(all, limit).len() == limit,
        limit >= all.len() ==> limited(all, limit) == all,
        forall|i: int| 0 <= i < limited(all, limit).len() ==> #[trigger] limited(all, limit)[i]
            == all[i],
{
    if limit == all.len() {
        assert(all.take(limit) =~= all);
    }
}

/// Writing a synapse, a peer, a value or a body changes that one thing.
pub proof fn lemma_writes_change_one_thing(
    kept: StoreModel,
    row: SynapseRow,
    peer: PeerRow,
    key: Seq<char>,
    value: Seq<u8>,
    id: SignalId,
)
    ensures
        kept.with_synapse(row).synapses == kept.synapses.insert(row.id, row),
        kept.with_synapse(row).journal == kept.journal,
        kept.with_synapse(row).seen == kept.seen,
        kept.with_synapse(row).peers == kept.peers,
        kept.with_synapse(row).influence == kept.influence,
        kept.with_synapse(row).meta == kept.meta,
        kept.without_synapse(row.id).synapses == kept.synapses.remove(row.id),
        kept.without_synapse(row.id).journal == kept.journal,
        kept.with_peer(peer).peers == kept.peers.insert(peer.id, peer),
        kept.with_peer(peer).synapses == kept.synapses,
        kept.with_meta(key, value).meta == kept.meta.insert(key, value),
        kept.with_meta(key, value).synapses == kept.synapses,
        kept.with_body(id, value).history == kept.history.insert(id, value),
        kept.with_body(id, value).synapses == kept.synapses,
{
}

/// A type that is counted once more adds one to the total.
pub proof fn lemma_a_count_adds_one(m: AffinityModel, name: Seq<char>)
    requires
        count_total(m) < u64::MAX,
    ensures
        count_total(bumped(m, name)) == count_total(m) + 1,
{
    let after = bumped(m, name);
    if counted(m, name) {
        let k = choose|k: int| 0 <= k < m.len() && (#[trigger] m[k]).0 == name;
        crate::laws::lifecycle::lemma_place(m, name);
        lemma_total_of_update(m, place_of(m, name), name);
    } else {
        assert(after.drop_last() =~= m);
    }
}

/// The total after one count has risen.
proof fn lemma_total_of_update(m: AffinityModel, i: int, name: Seq<char>)
    requires
        0 <= i < m.len(),
        count_total(m) < u64::MAX,
    ensures
        count_total(
            m.update(i, (name, crate::time::saturated(m[i].1 + 1))),
        ) == count_total(m) + 1,
    decreases m.len(),
{
    let next = m.update(i, (name, crate::time::saturated(m[i].1 + 1)));
    if i == m.len() - 1 {
        assert(next.drop_last() =~= m.drop_last());
    } else {
        let rest = m.drop_last();
        assert(next.drop_last() =~= rest.update(i, (name, crate::time::saturated(rest[i].1 + 1))));
        lemma_total_of_update(rest, i, name);
        assert(next.last() == m.last());
    }
}

/// Listed decisions are those of the type that was asked for, or all of them,
/// the newest first.
pub proof fn lemma_decisions_are_listed_by_age(
    journal: Seq<JournalRow>,
    signal_type: Option<TypeModel>,
    all: Seq<JournalRow>,
    entry: JournalRow,
)
    requires
        lists_decisions(journal, signal_type, all),
    ensures
        forall|i: int, j: int|
            0 <= i < j < all.len() ==> (#[trigger] all[j]).decided_at_ns <= (
            #[trigger] all[i]).decided_at_ns,
        all.contains(entry) <==> journal.contains(entry) && (signal_type matches Some(t)
            ==> entry.signal_type == t),
        signal_type is None ==> all.len() == journal.len(),
{
    let keep = |e: JournalRow| signal_type is Some ==> e.signal_type == signal_type->0;
    let kept = journal.filter(keep);
    lemma_filter_members(journal, keep, entry);
    vstd::seq_lib::to_multiset_contains(all, entry);
    vstd::seq_lib::to_multiset_contains(kept, entry);
    vstd::seq_lib::to_multiset_len(all);
    vstd::seq_lib::to_multiset_len(kept);
    if signal_type is None {
        lemma_everything_kept(journal, keep);
    }
}

/// A test that everything passes leaves everything.
proof fn lemma_everything_kept<T>(list: Seq<T>, keep: spec_fn(T) -> bool)
    requires
        forall|x: T| #[trigger] keep(x),
    ensures
        list.filter(keep) == list,
    decreases list.len(),
{
    reveal(Seq::filter);
    if list.len() > 0 {
        lemma_everything_kept(list.drop_last(), keep);
        assert(list.drop_last().push(list.last()) =~= list);
    }
}

} // verus!
