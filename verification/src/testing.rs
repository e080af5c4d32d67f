//! Fixtures for tests. They are deterministic: no ambient clock and no ambient
//! randomness.

use vstd::prelude::*;

use crate::config::{NodeConfig, NodeSetup};
use crate::curves::Curves;
use crate::delivery::DeliveryClass;
use crate::memory::MemoryStore;
use crate::node::{builds, BuiltNode, NodeBuilder};
use crate::rng::{Rng, SplitMix64};
use crate::scalar::{Scalar, ONE, ZERO};
use crate::signal::{
    randomness_of, ulid_of, NodeId, Signal, SignalDraft, SignalId, SignalModel, SignalType,
    TypeModel,
};
use crate::time::Clock;

verus! {

/// A fixed instant to base test timelines on: 2023-11-14T22:13:20Z.
pub const TEST_EPOCH_NS: u64 = 1_700_000_000_000_000_000;

/// An identity with a recognisable byte pattern.
pub fn test_node_id(id: u8) -> (r: NodeId)
    ensures
        r@ == Seq::new(32, |i: int| id),
{
    let mut bytes: Vec<u8> = Vec::new();
    let mut i: usize = 0;
    while i < 32
        invariant
            i <= 32,
            bytes@ == Seq::new(i as nat, |k: int| id),
        decreases 32 - i,
    {
        bytes.push(id);
        i = i + 1;
        assert(bytes@ =~= Seq::new(i as nat, |k: int| id));
    }
    NodeId(bytes)
}

/// What a test signal of a type is drafted from. A receipt and an
/// application-defined type are drafted as data.
pub open spec fn test_draft(signal_type: TypeModel, weight: Scalar) -> SignalDraft {
    let data = TypeModel { byte: 0, name: Seq::empty() };
    let base = if signal_type.byte == 5 {
        SignalDraft::fresh(signal_type, "discovery"@)
    } else if signal_type.byte == 4 {
        SignalDraft::fresh(signal_type, "heartbeat"@)
    } else if signal_type.byte == 1 || signal_type.byte == 2 || signal_type.byte == 3 {
        SignalDraft::fresh(signal_type, "test"@)
    } else {
        SignalDraft::fresh(data, "test"@)
    };
    SignalDraft { weight: weight.clamped(Scalar::from_bits(ZERO), Scalar::from_bits(ONE)), ..base }
}

/// A deterministic test signal, with a placeholder for a signature.
pub fn test_signal(signal_type: SignalType, weight: Scalar) -> (r: Signal)
    ensures
        r@ == (SignalModel {
            signature: Seq::new(64, |i: int| 0u8),
            ..test_draft(signal_type@, weight).built(
                Seq::new(32, |i: int| 0u8),
                TEST_EPOCH_NS,
                r.id,
            )
        }),
{
    test_signal_from(signal_type, weight, 0)
}

/// A deterministic test signal with a chosen origin.
pub fn test_signal_from(signal_type: SignalType, weight: Scalar, origin: u8) -> (r: Signal)
    ensures
        r@ == (SignalModel {
            signature: Seq::new(64, |i: int| 0u8),
            ..test_draft(signal_type@, weight).built(
                Seq::new(32, |i: int| origin),
                TEST_EPOCH_NS,
                r.id,
            )
        }),
        exists|seeded: SplitMix64|
            seeded@ == origin + 1 && r.id@ == #[trigger] ulid_of(
                (TEST_EPOCH_NS / 1_000_000) as u64,
                randomness_of(seeded.draw(0), seeded.draw(1)),
            ),
{
    let builder = match &signal_type {
        SignalType::Data => Signal::data("test"),
        SignalType::Query => Signal::query("test"),
        SignalType::Event => Signal::event("test"),
        SignalType::Command => Signal::command("test"),
        SignalType::Discovery => Signal::discovery(),
        SignalType::Heartbeat => Signal::heartbeat(),
        SignalType::Receipt | SignalType::Custom(_) => Signal::data("test"),
    };
    let drafted = builder.with_weight(weight);
    let mut rng = SplitMix64::seeded(origin as u64 + 1);
    let ghost seeded = rng;
    let id = SignalId::generate_at(TEST_EPOCH_NS, &mut rng);
    let mut signal = drafted.build_at(test_node_id(origin), TEST_EPOCH_NS, id);
    let mut signature: Vec<u8> = Vec::new();
    let mut i: usize = 0;
    while i < 64
        invariant
            i <= 64,
            signature@ == Seq::new(i as nat, |k: int| 0u8),
        decreases 64 - i,
    {
        signature.push(0u8);
        i = i + 1;
        assert(signature@ =~= Seq::new(i as nat, |k: int| 0u8));
    }
    assert(drafted@ =~= test_draft(signal_type@, weight));
    assert(signature@ =~= Seq::new(64, |k: int| 0u8));
    signal.signature = signature;
    assert(seeded@ == origin + 1);
    assert(signal.id@ == ulid_of(
        (TEST_EPOCH_NS / 1_000_000) as u64,
        randomness_of(seeded.draw(0), seeded.draw(1)),
    ));
    signal
}

/// A deterministic acknowledged test signal.
pub fn test_acknowledged_signal(weight: Scalar) -> (r: Signal)
    ensures
        r@ == (SignalModel {
            signature: Seq::new(64, |i: int| 0u8),
            delivery: DeliveryClass::Acknowledged,
            ..test_draft(TypeModel { byte: 0, name: Seq::empty() }, weight).built(
                Seq::new(32, |i: int| 0u8),
                TEST_EPOCH_NS,
                r.id,
            )
        }),
{
    let mut signal = test_signal(SignalType::Data, weight);
    signal.delivery = DeliveryClass::Acknowledged;
    signal
}

/// A node with a store in memory, a clock that the test controls, and the
/// default configuration.
pub fn test_node<C: Clock, M: Curves>(identity: u8, clock: C, curves: M) -> (r: BuiltNode<
    MemoryStore,
    C,
    SplitMix64,
    M,
>)
    ensures
        r.inv(),
        r.dependable(),
        r.setup() == NodeSetup::defaults(),
        r.me() == Seq::new(32, |i: int| identity),
{
    proof {
        crate::config::lemma_class_defaults_validate(crate::learning::DeploymentClass::Edge);
    }
    test_node_with_config(identity, NodeConfig::default(), clock, curves)
}

/// As [`test_node`], with a given configuration.
pub fn test_node_with_config<C: Clock, M: Curves>(
    identity: u8,
    config: NodeConfig,
    clock: C,
    curves: M,
) -> (r: BuiltNode<MemoryStore, C, SplitMix64, M>)
    requires
        config@.valid(),
    ensures
        r.inv(),
        r.dependable(),
        r.setup() == config@,
        r.me() == Seq::new(32, |i: int| identity),
        builds(
            MemoryStore::empty_model(false),
            config@,
            Some(Seq::new(32, |i: int| identity)),
            r.me(),
            r.kept(),
            r.gate(),
        ),
{
    let builder: NodeBuilder<MemoryStore, C, SplitMix64, M> = NodeBuilder::new(curves);
    let built = builder.with_config(config).with_identity(test_node_id(identity)).with_store(
        MemoryStore::new(),
    ).with_clock(clock).with_rng(SplitMix64::seeded(identity as u64 + 1)).build();
    built.unwrap()
}

} // verus!
