//! A store in memory.
//!
//! For tests and for nodes that start from scratch. Nothing survives the
//! process.

use vstd::prelude::*;

use crate::keyed::{
    has_key, keyed, keys_differ, lemma_entry, lemma_filtered, lemma_push, lemma_remove, lemma_size,
    lemma_update, place_of_key,
};
use crate::order::{
    arranges, bytes_less, lemma_bytes_order, lemma_sorted_values, lemma_sorting_keeps_items,
    lemma_text_order, same_text, sort_stably, sorts, sorts_by, text_less, Placed,
};
use crate::scalar::{Scalar, ZERO};
use crate::signal::{NodeId, SignalId, SignalType};
use crate::store::{
    chars_of, journal_rows, limited, lists_decisions, lists_peers, lists_synapses, peer_before,
    peer_rows, row_before, rows, type_of, ActivationSnapshot, Durability, FilterModel,
    InfluenceRow, JournalEntry, JournalId, JournalRow, NodeStore, Outcome, PeerRecord, PeerRow,
    PeerSource, StoreError, StoreModel, StoreResult, SynapseFilter, SynapseRecord, SynapseRow,
};
use crate::synapse::SynapseId;
use crate::text::copy_bytes;
use crate::time::{saturating_product, NANOS_PER_SEC};

verus! {

impl Placed for SynapseRecord {
    open spec fn before(self, other: Self) -> bool {
        row_before(self@, other@)
    }

    proof fn lemma_places(a: Self, b: Self, c: Self) {
        lemma_text_order(a@.id, b@.id, c@.id);
    }

    fn goes_before(&self, other: &Self) -> (r: bool) {
        let a: i64 = self.weight.key();
        let b: i64 = other.weight.key();
        a > b || (a == b && text_less(self.id.0.as_str(), other.id.0.as_str()))
    }
}

impl Placed for PeerRecord {
    open spec fn before(self, other: Self) -> bool {
        peer_before(self@, other@)
    }

    proof fn lemma_places(a: Self, b: Self, c: Self) {
        lemma_bytes_order(a@.id, b@.id, c@.id);
    }

    fn goes_before(&self, other: &Self) -> (r: bool) {
        self.last_seen_ns > other.last_seen_ns || (self.last_seen_ns == other.last_seen_ns
            && bytes_less(&self.id.0, &other.id.0))
    }
}

/// Whether an entry was decided later than another.
pub open spec fn newer(a: JournalRow, b: JournalRow) -> bool {
    a.decided_at_ns > b.decided_at_ns
}

/// The order of decisions, newest first, as a relation.
pub open spec fn newest_first() -> spec_fn(JournalRow, JournalRow) -> bool {
    |a: JournalRow, b: JournalRow| newer(a, b)
}

impl Placed for JournalEntry {
    open spec fn before(self, other: Self) -> bool {
        newer(self@, other@)
    }

    proof fn lemma_places(a: Self, b: Self, c: Self) {
    }

    fn goes_before(&self, other: &Self) -> (r: bool) {
        self.decided_at_ns > other.decided_at_ns
    }
}

/// One recorded move of a peer's own weight.
#[derive(Debug)]
struct Influence {
    peer: NodeId,
    magnitude: Scalar,
    at_ns: u64,
}

impl View for Influence {
    type V = InfluenceRow;

    closed spec fn view(&self) -> InfluenceRow {
        InfluenceRow { peer: self.peer@, magnitude: self.magnitude, at_ns: self.at_ns }
    }
}

/// The total of a peer's recorded moves since an instant, from the oldest on.
pub open spec fn influence_total(list: Seq<InfluenceRow>, peer: Seq<u8>, since_ns: u64) -> Scalar
    decreases list.len(),
{
    if list.len() == 0 {
        Scalar::from_bits(ZERO)
    } else {
        let before = influence_total(list.drop_last(), peer, since_ns);
        if list.last().peer == peer && list.last().at_ns >= since_ns {
            before.sum(list.last().magnitude)
        } else {
            before
        }
    }
}

/// Synapses with their identifiers.
spec fn synapse_pairs(list: Seq<SynapseRecord>) -> Seq<(Seq<char>, SynapseRow)> {
    list.map_values(|r: SynapseRecord| (r@.id, r@))
}

/// Peers with their identities.
spec fn peer_pairs(list: Seq<PeerRecord>) -> Seq<(Seq<u8>, PeerRow)> {
    list.map_values(|p: PeerRecord| (p@.id, p@))
}

/// Metadata with its keys.
spec fn meta_pairs(list: Seq<(String, Vec<u8>)>) -> Seq<(Seq<char>, Seq<u8>)> {
    list.map_values(|e: (String, Vec<u8>)| (e.0@, e.1@))
}

/// Signal bodies with the signals' identifiers.
spec fn body_pairs(list: Seq<(SignalId, Vec<u8>)>) -> Seq<(SignalId, Seq<u8>)> {
    list.map_values(|e: (SignalId, Vec<u8>)| (e.0, e.1@))
}

/// Influence records as values.
spec fn influence_rows(list: Seq<Influence>) -> Seq<InfluenceRow> {
    list.map_values(|i: Influence| i@)
}

/// A store in memory.
#[derive(Debug)]
pub struct MemoryStore {
    synapses: Vec<SynapseRecord>,
    peers: Vec<PeerRecord>,
    seen: Vec<(SignalId, u64)>,
    activation: Option<ActivationSnapshot>,
    journal: Vec<JournalEntry>,
    issued: u64,
    influence: Vec<Influence>,
    meta: Vec<(String, Vec<u8>)>,
    history: Vec<(SignalId, Vec<u8>)>,
    retain_history: bool,
    settled: bool,
}

impl MemoryStore {
    #[verifier::type_invariant]
    spec fn holds_each_once(self) -> bool {
        &&& keys_differ(synapse_pairs(self.synapses@))
        &&& keys_differ(peer_pairs(self.peers@))
        &&& keys_differ(self.seen@)
        &&& keys_differ(meta_pairs(self.meta@))
        &&& keys_differ(body_pairs(self.history@))
    }

    /// What a new store holds.
    pub open spec fn empty_model(keeps_history: bool) -> StoreModel {
        StoreModel {
            synapses: Map::empty(),
            peers: Map::empty(),
            seen: Map::empty(),
            activation: None,
            journal: Seq::empty(),
            issued: 0,
            influence: Seq::empty(),
            meta: Map::empty(),
            history: Map::empty(),
            keeps_history,
            migrated: true,
            settled: true,
        }
    }

    fn retaining(retain_history: bool) -> (r: MemoryStore)
        ensures
            r.model() == MemoryStore::empty_model(retain_history),
    {
        let r = MemoryStore {
            synapses: Vec::new(),
            peers: Vec::new(),
            seen: Vec::new(),
            activation: None,
            journal: Vec::new(),
            issued: 0,
            influence: Vec::new(),
            meta: Vec::new(),
            history: Vec::new(),
            retain_history,
            settled: true,
        };
        assert(r.model().synapses =~= Map::empty());
        assert(r.model().peers =~= Map::empty());
        assert(r.model().seen =~= Map::empty());
        assert(r.model().journal =~= Seq::empty());
        assert(r.model().influence =~= Seq::empty());
        assert(r.model().meta =~= Map::empty());
        assert(r.model().history =~= Map::empty());
        r
    }

    /// Create an empty store that does not retain signal bodies.
    pub fn new() -> (r: MemoryStore)
        ensures
            r.model() == MemoryStore::empty_model(false),
            r.reliable(),
    {
        MemoryStore::retaining(false)
    }

    /// Create an empty store that retains signal bodies for replay.
    pub fn with_history() -> (r: MemoryStore)
        ensures
            r.model() == MemoryStore::empty_model(true),
            r.reliable(),
    {
        MemoryStore::retaining(true)
    }

    /// Number of deduplication entries.
    pub fn seen_len(&self) -> (r: usize)
        ensures
            r == self.model().seen.dom().len(),
    {
        proof {
            use_type_invariant(self);
            lemma_size(self.seen@);
        }
        self.seen.len()
    }

    /// Number of journal entries.
    pub fn journal_len(&self) -> (r: usize)
        ensures
            r == self.model().journal.len(),
    {
        self.journal.len()
    }

    /// Where a synapse stands.
    fn find_synapse(&self, id: &SynapseId) -> (r: Option<usize>)
        ensures
            match r {
                Some(i) => i < self.synapses@.len() && self.synapses@[i as int]@.id == id@,
                None => !has_key(synapse_pairs(self.synapses@), id@),
            },
    {
        let mut i: usize = 0;
        while i < self.synapses.len()
            invariant
                i <= self.synapses@.len(),
                forall|k: int| 0 <= k < i ==> (#[trigger] self.synapses@[k])@.id != id@,
            decreases self.synapses@.len() - i,
        {
            if self.synapses[i].id.same(id) {
                return Some(i);
            }
            i = i + 1;
        }
        proof {
            let pairs = synapse_pairs(self.synapses@);
            assert forall|k: int| 0 <= k < pairs.len() implies (#[trigger] pairs[k]).0 != id@ by {
                assert(self.synapses@[k]@.id != id@);
            }
        }
        None
    }

    /// Where a peer stands.
    fn find_peer(&self, id: &NodeId) -> (r: Option<usize>)
        ensures
            match r {
                Some(i) => i < self.peers@.len() && self.peers@[i as int]@.id == id@,
                None => !has_key(peer_pairs(self.peers@), id@),
            },
    {
        let mut i: usize = 0;
        while i < self.peers.len()
            invariant
                i <= self.peers@.len(),
                forall|k: int| 0 <= k < i ==> (#[trigger] self.peers@[k])@.id != id@,
            decreases self.peers@.len() - i,
        {
            if self.peers[i].id.same(id) {
                return Some(i);
            }
            i = i + 1;
        }
        proof {
            let pairs = peer_pairs(self.peers@);
            assert forall|k: int| 0 <= k < pairs.len() implies (#[trigger] pairs[k]).0 != id@ by {
                assert(self.peers@[k]@.id != id@);
            }
        }
        None
    }

    /// Where a signal stands among those seen.
    fn find_seen(&self, id: &SignalId) -> (r: Option<usize>)
        ensures
            match r {
                Some(i) => i < self.seen@.len() && self.seen@[i as int].0 == *id,
                None => !has_key(self.seen@, *id),
            },
    {
        let mut i: usize = 0;
        while i < self.seen.len()
            invariant
                i <= self.seen@.len(),
                forall|k: int| 0 <= k < i ==> (#[trigger] self.seen@[k]).0 != *id,
            decreases self.seen@.len() - i,
        {
            if self.seen[i].0 == *id {
                return Some(i);
            }
            i = i + 1;
        }
        None
    }

    /// Where a metadata key stands.
    fn find_meta(&self, key: &str) -> (r: Option<usize>)
        ensures
            match r {
                Some(i) => i < self.meta@.len() && self.meta@[i as int].0@ == key@,
                None => !has_key(meta_pairs(self.meta@), key@),
            },
    {
        let mut i: usize = 0;
        while i < self.meta.len()
            invariant
                i <= self.meta@.len(),
                forall|k: int| 0 <= k < i ==> (#[trigger] self.meta@[k]).0@ != key@,
            decreases self.meta@.len() - i,
        {
            if same_text(self.meta[i].0.as_str(), key) {
                return Some(i);
            }
            i = i + 1;
        }
        proof {
            let pairs = meta_pairs(self.meta@);
            assert forall|k: int| 0 <= k < pairs.len() implies (#[trigger] pairs[k]).0 != key@ by {
                assert(self.meta@[k].0@ != key@);
            }
        }
        None
    }

    /// Where a signal's body stands.
    fn find_body(&self, id: &SignalId) -> (r: Option<usize>)
        ensures
            match r {
                Some(i) => i < self.history@.len() && self.history@[i as int].0 == *id,
                None => !has_key(body_pairs(self.history@), *id),
            },
    {
        let mut i: usize = 0;
        while i < self.history.len()
            invariant
                i <= self.history@.len(),
                forall|k: int| 0 <= k < i ==> (#[trigger] self.history@[k]).0 != *id,
            decreases self.history@.len() - i,
        {
            if self.history[i].0 == *id {
                return Some(i);
            }
            i = i + 1;
        }
        proof {
            let pairs = body_pairs(self.history@);
            assert forall|k: int| 0 <= k < pairs.len() implies (#[trigger] pairs[k]).0 != *id by {
                assert(self.history@[k].0 != *id);
            }
        }
        None
    }
}

impl Default for MemoryStore {
    fn default() -> (r: Self)
        ensures
            r.model() == MemoryStore::empty_model(false),
    {
        MemoryStore::new()
    }
}

impl MemoryStore {
    /// The first place in the journal that has an identifier, or the length.
    fn place_of_decision(&self, id: JournalId) -> (r: usize)
        ensures
            r <= self.journal@.len(),
            r < self.journal@.len() <==> self.model().has_decision(id),
            r < self.journal@.len() ==> r == self.model().decision_at(id),
    {
        let ghost rows = journal_rows(self.journal@);
        let ghost model = self.model();
        let mut i: usize = 0;
        while i < self.journal.len()
            invariant_except_break
                i <= self.journal@.len(),
                forall|k: int| 0 <= k < i ==> (#[trigger] self.journal@[k]).id != Some(id),
            ensures
                i <= self.journal@.len(),
                forall|k: int| 0 <= k < i ==> (#[trigger] self.journal@[k]).id != Some(id),
                i < self.journal@.len() ==> self.journal@[i as int].id == Some(id),
            decreases self.journal@.len() - i,
        {
            if let Some(there) = self.journal[i].id {
                if there == id {
                    break;
                }
            }
            i = i + 1;
        }
        assert forall|k: int| 0 <= k < rows.len() implies (#[trigger] rows[k]).id
            == self.journal@[k].id by {}
        proof {
            if i < self.journal@.len() {
                assert(rows[i as int].id == Some(id));
                assert(model.has_decision(id));
                let at = model.decision_at(id);
                assert(0 <= i < rows.len() && rows[i as int].id == Some(id) && forall|j: int|
                    0 <= j < i ==> (#[trigger] rows[j]).id != Some(id));
                assert(0 <= at < rows.len() && rows[at].id == Some(id) && forall|j: int|
                    0 <= j < at ==> (#[trigger] rows[j]).id != Some(id));
                assert(at == i);
            }
        }
        i
    }
}

impl NodeStore for MemoryStore {
    closed spec fn model(&self) -> StoreModel {
        StoreModel {
            synapses: keyed(synapse_pairs(self.synapses@)),
            peers: keyed(peer_pairs(self.peers@)),
            seen: keyed(self.seen@),
            activation: self.activation,
            journal: journal_rows(self.journal@),
            issued: self.issued,
            influence: influence_rows(self.influence@),
            meta: keyed(meta_pairs(self.meta@)),
            history: keyed(body_pairs(self.history@)),
            keeps_history: self.retain_history,
            migrated: true,
            settled: self.settled,
        }
    }

    open spec fn reliable(&self) -> bool {
        true
    }

    open spec fn influence_of(moves: Seq<InfluenceRow>, peer: Seq<u8>, since_ns: u64) -> Scalar {
        influence_total(moves, peer, since_ns)
    }

    fn migrate(&mut self) -> (r: StoreResult<()>) {
        proof {
            use_type_invariant(&*self);
        }
        self.settled = false;
        Ok(())
    }

    fn durability(&self) -> (r: Durability)
        ensures
            r == Durability::Memory,
    {
        Durability::Memory
    }

    fn flush(&mut self) -> (r: StoreResult<()>) {
        proof {
            use_type_invariant(&*self);
        }
        self.settled = true;
        Ok(())
    }

    fn put_synapse(&mut self, record: &SynapseRecord) -> (r: StoreResult<()>) {
        proof {
            use_type_invariant(&*self);
        }
        let ghost pairs = synapse_pairs(self.synapses@);
        let found: Option<usize> = self.find_synapse(&record.id);
        let copy = record.clone();
        let mut list: Vec<SynapseRecord> = Vec::new();
        core::mem::swap(&mut list, &mut self.synapses);
        match found {
            Some(i) => {
                proof {
                    assert(pairs[i as int].0 == record@.id);
                    lemma_update(pairs, i as int, record@);
                }
                list.set(i, copy);
                assert(synapse_pairs(list@) =~= pairs.update(i as int, (record@.id, record@)));
            },
            None => {
                proof {
                    lemma_push(pairs, record@.id, record@);
                }
                list.push(copy);
                assert(synapse_pairs(list@) =~= pairs.push((record@.id, record@)));
            },
        }
        self.synapses = list;
        self.settled = false;
        Ok(())
    }

    fn get_synapse(&self, id: &SynapseId) -> (r: StoreResult<Option<SynapseRecord>>) {
        proof {
            use_type_invariant(self);
        }
        match self.find_synapse(id) {
            Some(i) => {
                proof {
                    let pairs = synapse_pairs(self.synapses@);
                    assert(pairs[i as int].0 == id@);
                    lemma_entry(pairs, i as int);
                }
                Ok(Some(self.synapses[i].clone()))
            },
            None => Ok(None),
        }
    }

    fn synapse_for_peer(&self, peer: &NodeId) -> (r: StoreResult<Option<SynapseRecord>>) {
        proof {
            use_type_invariant(self);
        }
        let ghost pairs = synapse_pairs(self.synapses@);
        let mut i: usize = 0;
        while i < self.synapses.len()
            invariant
                i <= self.synapses@.len(),
                pairs == synapse_pairs(self.synapses@),
                keys_differ(pairs),
                forall|k: int| 0 <= k < i ==> (#[trigger] self.synapses@[k])@.peer != peer@,
            decreases self.synapses@.len() - i,
        {
            if self.synapses[i].peer.same(peer) {
                proof {
                    assert(pairs[i as int].0 == self.synapses@[i as int]@.id);
                    lemma_entry(pairs, i as int);
                }
                return Ok(Some(self.synapses[i].clone()));
            }
            i = i + 1;
        }
        proof {
            assert forall|id: Seq<char>| #[trigger]
                self.model().synapses.dom().contains(id) implies self.model().synapses[id].peer
                != peer@ by {
                let k = place_of_key(pairs, id);
                assert(has_key(pairs, id));
                assert(self.synapses@[k]@.peer != peer@);
            }
        }
        Ok(None)
    }

    fn list_synapses(&self, filter: &SynapseFilter) -> (r: StoreResult<Vec<SynapseRecord>>) {
        proof {
            use_type_invariant(self);
        }
        let mut out: Vec<SynapseRecord> = Vec::new();
        let ghost mut picks: Seq<int> = Seq::empty();
        let mut i: usize = 0;
        while i < self.synapses.len()
            invariant
                i <= self.synapses@.len(),
                picks.len() == out@.len(),
                forall|k: int|
                    0 <= k < picks.len() ==> 0 <= #[trigger] picks[k] < i && out@[k]@
                        == self.synapses@[picks[k]]@ && filter@.admits(out@[k]@),
                forall|a: int, b: int|
                    0 <= a < b < picks.len() ==> #[trigger] picks[a] < #[trigger] picks[b],
                forall|k: int|
                    0 <= k < i && filter@.admits((#[trigger] self.synapses@[k])@)
                        ==> picks.contains(k),
            decreases self.synapses@.len() - i,
        {
            let ghost before = picks;
            if filter.matches(&self.synapses[i]) {
                out.push(self.synapses[i].clone());
                proof {
                    picks = picks.push(i as int);
                    assert(picks[before.len() as int] == i);
                    assert forall|k: int| before.contains(k) implies picks.contains(k) by {
                        assert(picks[before.index_of(k)] == k);
                    }
                }
            }
            i = i + 1;
        }
        let ghost from = out@;
        sort_stably(&mut out);
        proof {
            lemma_lists_synapses(self.synapses@, filter@, picks, from, out@);
        }
        let ghost all = rows(out@);
        match filter.limit {
            Some(limit) => {
                if limit < out.len() {
                    out.truncate(limit);
                    assert(rows(out@) =~= all.take(limit as int));
                }
            },
            None => {},
        }
        assert(lists_synapses(self.model().synapses, filter@, all));
        Ok(out)
    }

    fn delete_synapse(&mut self, id: &SynapseId) -> (r: StoreResult<()>) {
        proof {
            use_type_invariant(&*self);
        }
        let ghost pairs = synapse_pairs(self.synapses@);
        match self.find_synapse(id) {
            Some(i) => {
                let mut list: Vec<SynapseRecord> = Vec::new();
                core::mem::swap(&mut list, &mut self.synapses);
                proof {
                    assert(pairs[i as int].0 == id@);
                    lemma_remove(pairs, i as int);
                }
                list.remove(i);
                assert(synapse_pairs(list@) =~= pairs.remove(i as int));
                self.synapses = list;
            },
            None => {
                assert(self.model().synapses.remove(id@) =~= self.model().synapses);
            },
        }
        self.settled = false;
        Ok(())
    }

    fn put_peer(&mut self, record: &PeerRecord) -> (r: StoreResult<()>) {
        proof {
            use_type_invariant(&*self);
        }
        let ghost pairs = peer_pairs(self.peers@);
        let found: Option<usize> = self.find_peer(&record.id);
        let copy = record.clone();
        let mut list: Vec<PeerRecord> = Vec::new();
        core::mem::swap(&mut list, &mut self.peers);
        match found {
            Some(i) => {
                proof {
                    assert(pairs[i as int].0 == record@.id);
                    lemma_update(pairs, i as int, record@);
                }
                list.set(i, copy);
                assert(peer_pairs(list@) =~= pairs.update(i as int, (record@.id, record@)));
            },
            None => {
                proof {
                    lemma_push(pairs, record@.id, record@);
                }
                list.push(copy);
                assert(peer_pairs(list@) =~= pairs.push((record@.id, record@)));
            },
        }
        self.peers = list;
        self.settled = false;
        Ok(())
    }

    fn get_peer(&self, id: &NodeId) -> (r: StoreResult<Option<PeerRecord>>) {
        proof {
            use_type_invariant(self);
        }
        match self.find_peer(id) {
            Some(i) => {
                proof {
                    let pairs = peer_pairs(self.peers@);
                    assert(pairs[i as int].0 == id@);
                    lemma_entry(pairs, i as int);
                }
                Ok(Some(self.peers[i].clone()))
            },
            None => Ok(None),
        }
    }

    fn list_peers(&self, region: Option<&str>, limit: usize) -> (r: StoreResult<Vec<PeerRecord>>) {
        proof {
            use_type_invariant(self);
        }
        let ghost want = chars_of(region);
        let mut out: Vec<PeerRecord> = Vec::new();
        let ghost mut picks: Seq<int> = Seq::empty();
        let mut i: usize = 0;
        while i < self.peers.len()
            invariant
                i <= self.peers@.len(),
                want == chars_of(region),
                picks.len() == out@.len(),
                forall|k: int|
                    0 <= k < picks.len() ==> 0 <= #[trigger] picks[k] < i && out@[k]@
                        == self.peers@[picks[k]]@ && in_region(out@[k]@, want),
                forall|a: int, b: int|
                    0 <= a < b < picks.len() ==> #[trigger] picks[a] < #[trigger] picks[b],
                forall|k: int|
                    0 <= k < i && in_region((#[trigger] self.peers@[k])@, want)
                        ==> picks.contains(k),
            decreases self.peers@.len() - i,
        {
            let ghost before = picks;
            let listed: bool = match region {
                None => true,
                Some(name) => match &self.peers[i].region {
                    Some(there) => same_text(there.as_str(), name),
                    None => false,
                },
            };
            assert(listed == in_region(self.peers@[i as int]@, want));
            if listed {
                out.push(self.peers[i].clone());
                proof {
                    picks = picks.push(i as int);
                    assert(picks[before.len() as int] == i);
                    assert forall|k: int| before.contains(k) implies picks.contains(k) by {
                        assert(picks[before.index_of(k)] == k);
                    }
                }
            }
            i = i + 1;
        }
        let ghost from = out@;
        sort_stably(&mut out);
        proof {
            lemma_lists_peers(self.peers@, want, picks, from, out@);
        }
        let ghost all = peer_rows(out@);
        if limit < out.len() {
            out.truncate(limit);
            assert(peer_rows(out@) =~= all.take(limit as int));
        }
        assert(lists_peers(self.model().peers, want, all));
        Ok(out)
    }

    fn count_peers(&self, source: PeerSource) -> (r: StoreResult<u64>) {
        proof {
            use_type_invariant(self);
        }
        let ghost pairs = peer_pairs(self.peers@);
        let ghost keep = |e: (Seq<u8>, PeerRow)| e.1.source == source;
        let mut n: usize = 0;
        let mut i: usize = 0;
        proof {
            reveal(Seq::filter);
        }
        while i < self.peers.len()
            invariant
                i <= self.peers@.len(),
                n <= i,
                pairs == peer_pairs(self.peers@),
                keep == (|e: (Seq<u8>, PeerRow)| e.1.source == source),
                n == pairs.take(i as int).filter(keep).len(),
            decreases self.peers@.len() - i,
        {
            proof {
                reveal(Seq::filter);
                assert(pairs.take(i + 1).drop_last() =~= pairs.take(i as int));
                assert(pairs.take(i + 1).last() == pairs[i as int]);
            }
            if self.peers[i].source == source {
                n = n + 1;
            }
            i = i + 1;
        }
        proof {
            assert(pairs.take(pairs.len() as int) =~= pairs);
            lemma_filtered(pairs, keep);
            lemma_size(pairs.filter(keep));
            let peers = self.model().peers;
            assert(keyed(pairs.filter(keep)).dom() =~= peers.dom().filter(
                |id: Seq<u8>| peers[id].source == source,
            ));
        }
        Ok(n as u64)
    }

    fn check_and_set_seen(&mut self, id: &SignalId, now_ns: u64, ttl_secs: u64) -> (r: StoreResult<
        bool,
    >) {
        proof {
            use_type_invariant(&*self);
        }
        let ghost pairs = self.seen@;
        let until: u64 = now_ns.saturating_add(saturating_product(ttl_secs, NANOS_PER_SEC));
        match self.find_seen(id) {
            Some(i) => {
                proof {
                    lemma_entry(pairs, i as int);
                    lemma_update(pairs, i as int, until);
                }
                if self.seen[i].1 > now_ns {
                    return Ok(true);
                }
                let mut list: Vec<(SignalId, u64)> = Vec::new();
                core::mem::swap(&mut list, &mut self.seen);
                list.set(i, (*id, until));
                self.seen = list;
            },
            None => {
                proof {
                    lemma_push(pairs, *id, until);
                }
                let mut list: Vec<(SignalId, u64)> = Vec::new();
                core::mem::swap(&mut list, &mut self.seen);
                list.push((*id, until));
                self.seen = list;
            },
        }
        self.settled = false;
        Ok(false)
    }

    fn has_seen(&self, id: &SignalId, now_ns: u64) -> (r: StoreResult<bool>) {
        proof {
            use_type_invariant(self);
        }
        match self.find_seen(id) {
            Some(i) => {
                proof {
                    lemma_entry(self.seen@, i as int);
                }
                Ok(self.seen[i].1 > now_ns)
            },
            None => Ok(false),
        }
    }

    fn purge_expired_seen(&mut self, now_ns: u64) -> (r: StoreResult<u64>) {
        proof {
            use_type_invariant(&*self);
        }
        let ghost pairs = self.seen@;
        let ghost keep = |e: (SignalId, u64)| e.1 > now_ns;
        let mut kept: Vec<(SignalId, u64)> = Vec::new();
        let mut i: usize = 0;
        proof {
            reveal(Seq::filter);
            assert(kept@ =~= pairs.take(0).filter(keep));
        }
        while i < self.seen.len()
            invariant
                i <= self.seen@.len(),
                pairs == self.seen@,
                keep == (|e: (SignalId, u64)| e.1 > now_ns),
                kept@ == pairs.take(i as int).filter(keep),
                kept@.len() <= i,
            decreases self.seen@.len() - i,
        {
            proof {
                reveal(Seq::filter);
                assert(pairs.take(i + 1).drop_last() =~= pairs.take(i as int));
                assert(pairs.take(i + 1).last() == pairs[i as int]);
            }
            let e: (SignalId, u64) = self.seen[i];
            if e.1 > now_ns {
                kept.push(e);
            }
            i = i + 1;
        }
        let gone: u64 = (self.seen.len() - kept.len()) as u64;
        proof {
            assert(pairs.take(pairs.len() as int) =~= pairs);
            lemma_filtered(pairs, keep);
            lemma_size(pairs);
            lemma_size(kept@);
            assert(keyed(kept@) =~= self.model().purged(now_ns).seen);
        }
        self.seen = kept;
        self.settled = false;
        Ok(gone)
    }

    fn save_activation(&mut self, snapshot: &ActivationSnapshot) -> (r: StoreResult<()>) {
        proof {
            use_type_invariant(&*self);
        }
        self.activation = Some(*snapshot);
        self.settled = false;
        Ok(())
    }

    fn load_activation(&self) -> (r: StoreResult<Option<ActivationSnapshot>>) {
        Ok(self.activation)
    }

    fn append_decision(&mut self, entry: &JournalEntry) -> (r: StoreResult<JournalId>) {
        proof {
            use_type_invariant(&*self);
        }
        if self.issued == u64::MAX {
            return Err(StoreError::Write("journal identifiers are exhausted".to_string()));
        }
        let ghost before = journal_rows(self.journal@);
        let id = JournalId(self.issued + 1);
        let mut stored = entry.clone();
        stored.id = Some(id);
        let mut list: Vec<JournalEntry> = Vec::new();
        core::mem::swap(&mut list, &mut self.journal);
        list.push(stored);
        assert(journal_rows(list@) =~= before.push(stored@));
        self.journal = list;
        self.issued = self.issued + 1;
        self.settled = false;
        Ok(id)
    }

    fn resolve_decision(&mut self, id: JournalId, outcome: Outcome, now_ns: u64) -> (r: StoreResult<
        Option<JournalEntry>,
    >) {
        proof {
            use_type_invariant(&*self);
        }
        let ghost before = journal_rows(self.journal@);
        let i: usize = self.place_of_decision(id);
        if i >= self.journal.len() {
            return Ok(None);
        }
        let mut entry = self.journal[i].clone();
        assert(entry@ == before[i as int]);
        if entry.outcome.is_resolved() {
            return Ok(Some(entry));
        }
        let mut list: Vec<JournalEntry> = Vec::new();
        core::mem::swap(&mut list, &mut self.journal);
        entry.outcome = outcome;
        entry.resolved_at_ns = Some(now_ns);
        let copy = entry.clone();
        list.set(i, entry);
        assert(journal_rows(list@) =~= before.update(i as int, before[i as int].resolved(outcome, now_ns)));
        self.journal = list;
        self.settled = false;
        Ok(Some(copy))
    }

    fn get_decision(&self, id: JournalId) -> (r: StoreResult<Option<JournalEntry>>) {
        let i: usize = self.place_of_decision(id);
        if i >= self.journal.len() {
            return Ok(None);
        }
        let entry = self.journal[i].clone();
        assert(entry@ == journal_rows(self.journal@)[i as int]);
        Ok(Some(entry))
    }

    fn pending_decision_for(&self, signal: &SignalId, peer: &NodeId) -> (r: StoreResult<
        Option<JournalEntry>,
    >)
        ensures
            r matches Ok(Some(entry)) ==> exists|i: int|
                0 <= i < self.model().journal.len() && #[trigger] self.model().journal[i] == entry@
                    && forall|j: int|
                    0 <= j < i ==> !(#[trigger] self.model().journal[j]).awaits(*signal, peer@),
    {
        let ghost all = journal_rows(self.journal@);
        let mut i: usize = 0;
        while i < self.journal.len()
            invariant
                i <= self.journal@.len(),
                all == journal_rows(self.journal@),
                forall|k: int| 0 <= k < i ==> !(#[trigger] all[k]).awaits(*signal, peer@),
            decreases self.journal@.len() - i,
        {
            let e = &self.journal[i];
            assert(all[i as int] == e@);
            if e.signal == *signal && e.peer.same(peer) && !e.outcome.is_resolved() {
                assert(all.contains(e@));
                assert(self.model().journal[i as int] == e@);
                return Ok(Some(e.clone()));
            }
            i = i + 1;
        }
        Ok(None)
    }

    fn expired_decisions(&self, deadline_ns: u64, limit: usize) -> (r: StoreResult<
        Vec<JournalEntry>,
    >)
        ensures
            r matches Ok(list) ==> journal_rows(list@) == limited(
                self.model().journal.filter(|e: JournalRow| e.overdue(deadline_ns)),
                limit as int,
            ),
    {
        let ghost rows = journal_rows(self.journal@);
        let ghost keep = |e: JournalRow| e.overdue(deadline_ns);
        let mut out: Vec<JournalEntry> = Vec::new();
        let mut i: usize = 0;
        proof {
            reveal(Seq::filter);
            assert(journal_rows(out@) =~= rows.take(0).filter(keep));
        }
        while i < self.journal.len()
            invariant
                i <= self.journal@.len(),
                rows == journal_rows(self.journal@),
                keep == (|e: JournalRow| e.overdue(deadline_ns)),
                journal_rows(out@) == rows.take(i as int).filter(keep),
            decreases self.journal@.len() - i,
        {
            proof {
                reveal(Seq::filter);
                assert(rows.take(i + 1).drop_last() =~= rows.take(i as int));
                assert(rows.take(i + 1).last() == rows[i as int]);
            }
            let e = &self.journal[i];
            let ghost before = out@;
            if !e.outcome.is_resolved() && e.decided_at_ns < deadline_ns {
                let copy = e.clone();
                out.push(copy);
                assert(journal_rows(out@) =~= journal_rows(before).push(copy@));
            }
            i = i + 1;
        }
        assert(rows.take(rows.len() as int) =~= rows);
        let ghost all = journal_rows(out@);
        if limit < out.len() {
            out.truncate(limit);
            assert(journal_rows(out@) =~= all.take(limit as int));
        }
        assert(journal_rows(out@) == limited(all, limit as int));
        Ok(out)
    }

    fn recent_decisions(&self, signal_type: Option<&SignalType>, limit: usize) -> (r: StoreResult<
        Vec<JournalEntry>,
    >) {
        let ghost want = type_of(signal_type);
        let ghost rows = journal_rows(self.journal@);
        let ghost keep = |e: JournalRow| want is Some ==> e.signal_type == want->0;
        let mut out: Vec<JournalEntry> = Vec::new();
        let mut i: usize = 0;
        proof {
            reveal(Seq::filter);
            assert(journal_rows(out@) =~= rows.take(0).filter(keep));
        }
        while i < self.journal.len()
            invariant
                i <= self.journal@.len(),
                want == type_of(signal_type),
                rows == journal_rows(self.journal@),
                keep == (|e: JournalRow| want is Some ==> e.signal_type == want->0),
                journal_rows(out@) == rows.take(i as int).filter(keep),
            decreases self.journal@.len() - i,
        {
            proof {
                reveal(Seq::filter);
                assert(rows.take(i + 1).drop_last() =~= rows.take(i as int));
                assert(rows.take(i + 1).last() == rows[i as int]);
            }
            let e = &self.journal[i];
            let ghost before = out@;
            let wanted: bool = match signal_type {
                Some(t) => e.signal_type.same(t),
                None => true,
            };
            if wanted {
                let copy = e.clone();
                out.push(copy);
                assert(journal_rows(out@) =~= journal_rows(before).push(copy@));
            }
            i = i + 1;
        }
        assert(rows.take(rows.len() as int) =~= rows);
        let ghost from = out@;
        sort_stably(&mut out);
        let ghost all = journal_rows(out@);
        proof {
            lemma_sorted_values(from, out@, |e: JournalEntry| e@, newest_first());
            assert(sorts_by(journal_rows(from), all, newest_first()));
            lemma_sorting_keeps_items(journal_rows(from), all, newest_first());
            let at = choose|at: Seq<int>| #[trigger]
                crate::order::arranges_by(journal_rows(from), all, at, newest_first());
            assert forall|a: int, b: int| 0 <= a < b < all.len() implies (
            #[trigger] all[a]).decided_at_ns >= (#[trigger] all[b]).decided_at_ns by {
                assert(!newest_first()(all[b], all[a]));
            }
            assert(lists_decisions(self.model().journal, want, all));
        }
        if limit < out.len() {
            out.truncate(limit);
            assert(journal_rows(out@) =~= all.take(limit as int));
        }
        Ok(out)
    }

    fn trim_journal(&mut self, older_than_ns: u64) -> (r: StoreResult<u64>) {
        proof {
            use_type_invariant(&*self);
        }
        let ghost rows = journal_rows(self.journal@);
        let ghost keep = |e: JournalRow| e.decided_at_ns >= older_than_ns;
        let mut kept: Vec<JournalEntry> = Vec::new();
        let mut i: usize = 0;
        proof {
            reveal(Seq::filter);
            assert(journal_rows(kept@) =~= rows.take(0).filter(keep));
        }
        while i < self.journal.len()
            invariant
                i <= self.journal@.len(),
                rows == journal_rows(self.journal@),
                keep == (|e: JournalRow| e.decided_at_ns >= older_than_ns),
                journal_rows(kept@) == rows.take(i as int).filter(keep),
                kept@.len() <= i,
            decreases self.journal@.len() - i,
        {
            proof {
                reveal(Seq::filter);
                assert(rows.take(i + 1).drop_last() =~= rows.take(i as int));
                assert(rows.take(i + 1).last() == rows[i as int]);
            }
            let e = &self.journal[i];
            let ghost before = kept@;
            if e.decided_at_ns >= older_than_ns {
                let copy = e.clone();
                kept.push(copy);
                assert(journal_rows(kept@) =~= journal_rows(before).push(copy@));
            }
            i = i + 1;
        }
        assert(rows.take(rows.len() as int) =~= rows);
        let gone: u64 = (self.journal.len() - kept.len()) as u64;
        self.journal = kept;
        self.settled = false;
        Ok(gone)
    }

    fn record_influence(
        &mut self,
        peer: &NodeId,
        magnitude: Scalar,
        now_ns: u64,
        window_start_ns: u64,
    ) -> (r: StoreResult<Scalar>)
        ensures
            r == Ok::<Scalar, StoreError>(
                influence_total(final(self).model().influence, peer@, window_start_ns),
            ),
    {
        proof {
            use_type_invariant(&*self);
        }
        let ghost before = influence_rows(self.influence@);
        let entry = Influence { peer: peer.clone(), magnitude: magnitude.abs(), at_ns: now_ns };
        let mut list: Vec<Influence> = Vec::new();
        core::mem::swap(&mut list, &mut self.influence);
        list.push(entry);
        assert(influence_rows(list@) =~= before.push(entry@));
        self.influence = list;
        self.settled = false;
        self.influence_since(peer, window_start_ns)
    }

    fn influence_since(&self, peer: &NodeId, window_start_ns: u64) -> (r: StoreResult<Scalar>)
        ensures
            r == Ok::<Scalar, StoreError>(
                influence_total(self.model().influence, peer@, window_start_ns),
            ),
    {
        let ghost rows = influence_rows(self.influence@);
        let mut total = Scalar::from_bits(ZERO);
        let mut i: usize = 0;
        assert(rows.take(0) =~= Seq::<InfluenceRow>::empty());
        while i < self.influence.len()
            invariant
                i <= self.influence@.len(),
                rows == influence_rows(self.influence@),
                total == influence_total(rows.take(i as int), peer@, window_start_ns),
            decreases self.influence@.len() - i,
        {
            proof {
                assert(rows.take(i + 1).drop_last() =~= rows.take(i as int));
                assert(rows.take(i + 1).last() == self.influence@[i as int]@);
            }
            let e = &self.influence[i];
            if e.peer.same(peer) && e.at_ns >= window_start_ns {
                total = total.plus(e.magnitude);
            }
            i = i + 1;
        }
        assert(rows.take(rows.len() as int) =~= rows);
        Ok(total)
    }

    fn purge_influence(&mut self, older_than_ns: u64) -> (r: StoreResult<u64>) {
        proof {
            use_type_invariant(&*self);
        }
        let ghost rows = influence_rows(self.influence@);
        let ghost keep = |e: InfluenceRow| e.at_ns >= older_than_ns;
        let mut kept: Vec<Influence> = Vec::new();
        let mut i: usize = 0;
        proof {
            reveal(Seq::filter);
            assert(influence_rows(kept@) =~= rows.take(0).filter(keep));
        }
        while i < self.influence.len()
            invariant
                i <= self.influence@.len(),
                rows == influence_rows(self.influence@),
                keep == (|e: InfluenceRow| e.at_ns >= older_than_ns),
                influence_rows(kept@) == rows.take(i as int).filter(keep),
                kept@.len() <= i,
            decreases self.influence@.len() - i,
        {
            proof {
                reveal(Seq::filter);
                assert(rows.take(i + 1).drop_last() =~= rows.take(i as int));
                assert(rows.take(i + 1).last() == rows[i as int]);
            }
            let e = &self.influence[i];
            let ghost before = kept@;
            if e.at_ns >= older_than_ns {
                let copy = Influence {
                    peer: e.peer.clone(),
                    magnitude: e.magnitude,
                    at_ns: e.at_ns,
                };
                kept.push(copy);
                assert(influence_rows(kept@) =~= influence_rows(before).push(copy@));
            }
            i = i + 1;
        }
        assert(rows.take(rows.len() as int) =~= rows);
        let gone: u64 = (self.influence.len() - kept.len()) as u64;
        self.influence = kept;
        self.settled = false;
        Ok(gone)
    }

    fn put_meta(&mut self, key: &str, value: &Vec<u8>) -> (r: StoreResult<()>) {
        proof {
            use_type_invariant(&*self);
        }
        let ghost pairs = meta_pairs(self.meta@);
        let found: Option<usize> = self.find_meta(key);
        let entry: (String, Vec<u8>) = (key.to_string(), copy_bytes(value));
        let mut list: Vec<(String, Vec<u8>)> = Vec::new();
        core::mem::swap(&mut list, &mut self.meta);
        match found {
            Some(i) => {
                proof {
                    assert(pairs[i as int].0 == key@);
                    lemma_update(pairs, i as int, value@);
                }
                list.set(i, entry);
                assert(meta_pairs(list@) =~= pairs.update(i as int, (key@, value@)));
            },
            None => {
                proof {
                    lemma_push(pairs, key@, value@);
                }
                list.push(entry);
                assert(meta_pairs(list@) =~= pairs.push((key@, value@)));
            },
        }
        self.meta = list;
        self.settled = false;
        Ok(())
    }

    fn get_meta(&self, key: &str) -> (r: StoreResult<Option<Vec<u8>>>) {
        proof {
            use_type_invariant(self);
        }
        match self.find_meta(key) {
            Some(i) => {
                proof {
                    let pairs = meta_pairs(self.meta@);
                    assert(pairs[i as int].0 == key@);
                    lemma_entry(pairs, i as int);
                }
                Ok(Some(copy_bytes(&self.meta[i].1)))
            },
            None => Ok(None),
        }
    }

    fn signal_history_enabled(&self) -> (r: bool) {
        self.retain_history
    }

    fn put_signal_history(&mut self, id: &SignalId, body: &Vec<u8>, now_ns: u64) -> (r: StoreResult<
        (),
    >) {
        proof {
            use_type_invariant(&*self);
        }
        if !self.retain_history {
            return Err(StoreError::Unsupported("signal history"));
        }
        let ghost pairs = body_pairs(self.history@);
        let found: Option<usize> = self.find_body(id);
        let entry: (SignalId, Vec<u8>) = (*id, copy_bytes(body));
        let mut list: Vec<(SignalId, Vec<u8>)> = Vec::new();
        core::mem::swap(&mut list, &mut self.history);
        match found {
            Some(i) => {
                proof {
                    assert(pairs[i as int].0 == *id);
                    lemma_update(pairs, i as int, body@);
                }
                list.set(i, entry);
                assert(body_pairs(list@) =~= pairs.update(i as int, (*id, body@)));
            },
            None => {
                proof {
                    lemma_push(pairs, *id, body@);
                }
                list.push(entry);
                assert(body_pairs(list@) =~= pairs.push((*id, body@)));
            },
        }
        self.history = list;
        self.settled = false;
        Ok(())
    }

    fn get_signal_history(&self, id: &SignalId) -> (r: StoreResult<Option<Vec<u8>>>) {
        proof {
            use_type_invariant(self);
        }
        if !self.retain_history {
            return Err(StoreError::Unsupported("signal history"));
        }
        match self.find_body(id) {
            Some(i) => {
                proof {
                    let pairs = body_pairs(self.history@);
                    assert(pairs[i as int].0 == *id);
                    lemma_entry(pairs, i as int);
                }
                Ok(Some(copy_bytes(&self.history[i].1)))
            },
            None => Ok(None),
        }
    }
}

/// Whether a peer is in a region, or no region is asked for.
spec fn in_region(peer: PeerRow, region: Option<Seq<char>>) -> bool {
    region is Some ==> peer.region == region
}

/// Sorting the synapses that pass a filter lists them.
proof fn lemma_lists_synapses(
    list: Seq<SynapseRecord>,
    filter: FilterModel,
    picks: Seq<int>,
    from: Seq<SynapseRecord>,
    to: Seq<SynapseRecord>,
)
    requires
        keys_differ(synapse_pairs(list)),
        picks.len() == from.len(),
        forall|k: int|
            0 <= k < picks.len() ==> 0 <= #[trigger] picks[k] < list.len() && from[k]@
                == list[picks[k]]@ && filter.admits(from[k]@),
        forall|a: int, b: int|
            0 <= a < b < picks.len() ==> #[trigger] picks[a] < #[trigger] picks[b],
        forall|k: int|
            0 <= k < list.len() && filter.admits((#[trigger] list[k])@) ==> picks.contains(k),
        sorts(from, to),
    ensures
        lists_synapses(keyed(synapse_pairs(list)), filter, rows(to)),
{
    let pairs = synapse_pairs(list);
    let map = keyed(pairs);
    let all = rows(to);
    let at = choose|at: Seq<int>| #[trigger] arranges(from, to, at);
    assert forall|i: int| 0 <= i < all.len() implies map.dom().contains((#[trigger] all[i]).id)
        && map[all[i].id] == all[i] && filter.admits(all[i]) by {
        let k = picks[at[i]];
        assert(to[i] == from[at[i]]);
        assert(all[i] == list[k]@);
        assert(pairs[k] == (all[i].id, all[i]));
        lemma_entry(pairs, k);
    }
    assert forall|i: int, j: int| 0 <= i < j < all.len() implies row_before(
        #[trigger] all[i],
        #[trigger] all[j],
    ) by {
        let a = picks[at[i]];
        let b = picks[at[j]];
        assert(to[i] == from[at[i]] && to[j] == from[at[j]]);
        assert(at[i] != at[j]);
        assert(a != b) by {
            if at[i] < at[j] {
                assert(picks[at[i]] < picks[at[j]]);
            } else {
                assert(picks[at[j]] < picks[at[i]]);
            }
        }
        assert(pairs[a].0 == all[i].id && pairs[b].0 == all[j].id);
        assert(all[i].id != all[j].id) by {
            if a < b {
                assert(pairs[a].0 != pairs[b].0);
            } else {
                assert(pairs[b].0 != pairs[a].0);
            }
        }
        assert(!to[j].before(to[i]));
        lemma_text_order(all[i].id, all[j].id, all[i].id);
    }
    assert forall|id: Seq<char>| #[trigger]
        map.dom().contains(id) && filter.admits(map[id]) implies all.contains(map[id]) by {
        let k = place_of_key(pairs, id);
        assert(has_key(pairs, id));
        lemma_entry(pairs, k);
        assert(map[id] == list[k]@);
        assert(picks.contains(k));
        let p = picks.index_of(k);
        from.to_multiset_ensures();
        to.to_multiset_ensures();
        assert(from.contains(from[p]));
        assert(from.to_multiset().contains(from[p]));
        assert(to.contains(from[p]));
        let i = to.index_of(from[p]);
        assert(all[i] == map[id]);
    }
}

/// Sorting the peers of a region lists them.
proof fn lemma_lists_peers(
    list: Seq<PeerRecord>,
    region: Option<Seq<char>>,
    picks: Seq<int>,
    from: Seq<PeerRecord>,
    to: Seq<PeerRecord>,
)
    requires
        keys_differ(peer_pairs(list)),
        picks.len() == from.len(),
        forall|k: int|
            0 <= k < picks.len() ==> 0 <= #[trigger] picks[k] < list.len() && from[k]@
                == list[picks[k]]@ && in_region(from[k]@, region),
        forall|a: int, b: int|
            0 <= a < b < picks.len() ==> #[trigger] picks[a] < #[trigger] picks[b],
        forall|k: int|
            0 <= k < list.len() && in_region((#[trigger] list[k])@, region) ==> picks.contains(k),
        sorts(from, to),
    ensures
        lists_peers(keyed(peer_pairs(list)), region, peer_rows(to)),
{
    let pairs = peer_pairs(list);
    let map = keyed(pairs);
    let all = peer_rows(to);
    let at = choose|at: Seq<int>| #[trigger] arranges(from, to, at);
    assert forall|i: int| 0 <= i < all.len() implies map.dom().contains((#[trigger] all[i]).id)
        && map[all[i].id] == all[i] && (region is Some ==> all[i].region == region) by {
        let k = picks[at[i]];
        assert(to[i] == from[at[i]]);
        assert(all[i] == list[k]@);
        assert(pairs[k] == (all[i].id, all[i]));
        lemma_entry(pairs, k);
    }
    assert forall|i: int, j: int| 0 <= i < j < all.len() implies peer_before(
        #[trigger] all[i],
        #[trigger] all[j],
    ) by {
        let a = picks[at[i]];
        let b = picks[at[j]];
        assert(to[i] == from[at[i]] && to[j] == from[at[j]]);
        assert(at[i] != at[j]);
        assert(a != b) by {
            if at[i] < at[j] {
                assert(picks[at[i]] < picks[at[j]]);
            } else {
                assert(picks[at[j]] < picks[at[i]]);
            }
        }
        assert(pairs[a].0 == all[i].id && pairs[b].0 == all[j].id);
        assert(all[i].id != all[j].id) by {
            if a < b {
                assert(pairs[a].0 != pairs[b].0);
            } else {
                assert(pairs[b].0 != pairs[a].0);
            }
        }
        assert(!to[j].before(to[i]));
        lemma_bytes_order(all[i].id, all[j].id, all[i].id);
    }
    assert forall|id: Seq<u8>| #[trigger]
        map.dom().contains(id) && (region is Some ==> map[id].region
            == region) implies all.contains(map[id]) by {
        let k = place_of_key(pairs, id);
        assert(has_key(pairs, id));
        lemma_entry(pairs, k);
        assert(map[id] == list[k]@);
        assert(in_region(list[k]@, region));
        assert(picks.contains(k));
        let p = picks.index_of(k);
        from.to_multiset_ensures();
        to.to_multiset_ensures();
        assert(from.contains(from[p]));
        assert(from.to_multiset().contains(from[p]));
        assert(to.contains(from[p]));
        let i = to.index_of(from[p]);
        assert(all[i] == map[id]);
    }
}

} // verus!
