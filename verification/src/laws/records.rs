//! Laws of stored records: what a column holds, and how identifiers are made.

use vstd::prelude::*;

use crate::signal::{randomness_of, ulid_of};
use crate::sqlite::{
    column_of, failures_in, number_in, outcome_text, query_arguments, source_text, state_text,
    ArgumentRow,
};
use crate::store::{FilterModel, Outcome, PeerSource};
use crate::synapse::SynapseState;

verus! {

/// A column holds a number as it is, as far as columns go, and none is negative.
/// What is read from a column is not negative either.
pub proof fn lemma_what_a_column_holds(value: u64, column: i64)
    ensures
        value <= i64::MAX ==> column_of(value) == value,
        value > i64::MAX ==> column_of(value) == i64::MAX,
        0 <= column_of(value),
        column >= 0 ==> number_in(column) == column,
        column < 0 ==> number_in(column) == 0,
        0 <= column <= u32::MAX ==> failures_in(column) == column,
        column < 0 ==> failures_in(column) == 0,
        column > u32::MAX ==> failures_in(column) == u32::MAX,
{
}

/// What states, sources and outcomes are stored as.
pub proof fn lemma_stored_names()
    ensures
        state_text(SynapseState::Forming) == "forming"@,
        state_text(SynapseState::Active) == "active"@,
        state_text(SynapseState::Weakening) == "weakening"@,
        state_text(SynapseState::Dormant) == "dormant"@,
        state_text(SynapseState::Pruned) == "pruned"@,
        source_text(PeerSource::Configured) == "configured"@,
        source_text(PeerSource::Bootstrap) == "bootstrap"@,
        source_text(PeerSource::Discovered) == "discovered"@,
        source_text(PeerSource::Observed) == "observed"@,
        outcome_text(Outcome::Pending) == "pending"@,
        outcome_text(Outcome::Delivered) == "delivered"@,
        outcome_text(Outcome::Rejected) == "rejected"@,
        outcome_text(Outcome::TimedOut) == "timed_out"@,
        outcome_text(Outcome::TransportFailure) == "transport_failure"@,
        outcome_text(Outcome::SignatureFailure) == "signature_failure"@,
{
}

/// A query has an argument for each state of its filter, first, and one for each
/// bound that the filter has.
pub proof fn lemma_a_query_has_its_arguments(filter: FilterModel)
    ensures
        query_arguments(filter).len() == filter.states.len() + (if filter.min_weight is Some {
            1int
        } else {
            0
        }) + (if filter.last_active_before_ns is Some {
            1int
        } else {
            0
        }) + (if filter.limit is Some {
            1int
        } else {
            0
        }),
        forall|i: int|
            0 <= i < filter.states.len() ==> #[trigger] query_arguments(filter)[i]
                == ArgumentRow::Text(state_text(filter.states[i])),
        filter.limit matches Some(limit) ==> query_arguments(filter).last() == ArgumentRow::Whole(
            column_of(limit as u64),
        ),
        filter.min_weight matches Some(least) ==> query_arguments(filter)[filter.states.len() as int]
            == ArgumentRow::Real(least),
{
}

/// An identifier begins with its time: of two, the one with the later millisecond
/// is the larger, whatever was drawn, and within a millisecond the second draw
/// and the low bits of the first decide.
pub proof fn lemma_an_identifier_begins_with_its_time(
    earlier_ms: u64,
    later_ms: u64,
    a: u128,
    b: u128,
    first: u64,
    second: u64,
)
    requires
        earlier_ms < later_ms < 0x1_0000_0000_0000,
    ensures
        ulid_of(earlier_ms, a) < ulid_of(later_ms, b),
        ulid_of(earlier_ms, a) / 0x1_0000_0000_0000_0000_0000int == earlier_ms,
        randomness_of(first, second) % 0x1_0000_0000_0000_0000 == second,
        randomness_of(first, second) / 0x1_0000_0000_0000_0000 == first,
{
}

} // verus!
