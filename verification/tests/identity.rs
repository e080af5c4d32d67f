use std::collections::BTreeMap;

use ntl::crypto::{node_id_from_public_key, sign_signal, verify_signal, ClassicalModule, Encoder};
use ntl::identity::{Identity, IdentityError};
use ntl::memory::MemoryStore;
use ntl::scalar::Scalar;
use ntl::signal::Signal;
use ntl::store::NodeStore;
use serde_cbor::Value;

fn text(s: &str) -> Value {
    Value::Text(s.to_string())
}

/// Signals as maps in CBOR.
struct Cbor;

impl Encoder for Cbor {
    fn encode(&self, s: &Signal) -> Option<Vec<u8>> {
        let mut map: BTreeMap<Value, Value> = BTreeMap::new();
        map.insert(text("id"), Value::Bytes(s.id.to_bytes().to_vec()));
        map.insert(text("signal_type"), text(&format!("{:?}", s.signal_type)));
        map.insert(text("version"), Value::Integer(i128::from(s.version)));
        map.insert(text("origin"), Value::Bytes(s.origin.0.clone()));
        map.insert(text("signature"), Value::Bytes(s.signature.clone()));
        map.insert(text("timestamp"), Value::Integer(i128::from(s.timestamp)));
        map.insert(text("payload"), text(&s.payload));
        map.insert(text("weight"), Value::Integer(i128::from(s.weight.to_bits())));
        map.insert(text("ttl"), Value::Integer(i128::from(s.ttl)));
        map.insert(text("scope"), text(&format!("{:?}", s.scope)));
        map.insert(text("correlation_id"), text(&format!("{:?}", s.correlation_id)));
        map.insert(
            text("trace"),
            Value::Array(s.trace.iter().map(|n| Value::Bytes(n.0.clone())).collect()),
        );
        map.insert(
            text("tags"),
            Value::Array(s.tags.iter().map(|t| text(t)).collect()),
        );
        map.insert(text("delivery"), Value::Integer(i128::from(s.delivery.to_wire())));
        serde_cbor::to_vec(&Value::Map(map)).ok()
    }
}

#[test]
fn identity_is_stable_across_loads() {
    // A restart must not lose the identity, or the node loses every synapse
    // and relearns from scratch.
    let mut store = MemoryStore::new();
    let first = Identity::load_or_create(&mut store).expect("create");
    let second = Identity::load_or_create(&mut store).expect("load");
    assert_eq!(first.node_id, second.node_id);
    assert_eq!(first.public, second.public);
}

#[test]
fn distinct_stores_yield_distinct_identities() {
    let a = Identity::load_or_create(&mut MemoryStore::new()).expect("a");
    let b = Identity::load_or_create(&mut MemoryStore::new()).expect("b");
    assert_ne!(a.node_id, b.node_id, "identities must not collide");
}

#[test]
fn node_id_is_derived_from_the_public_key() {
    let mut store = MemoryStore::new();
    let identity = Identity::load_or_create(&mut store).expect("create");
    assert_eq!(
        identity.node_id,
        node_id_from_public_key(&identity.public),
        "the node id must be verifiable from the key alone"
    );
}

#[test]
fn a_malformed_seed_is_rejected() {
    assert!(Identity::from_seed(&[0u8; 8]).is_err());
}

#[test]
fn a_malformed_stored_seed_is_reported() {
    let mut store = MemoryStore::new();
    store.put_meta("identity-seed", &vec![1, 2, 3]).expect("put");
    assert!(matches!(
        Identity::load_or_create(&mut store),
        Err(IdentityError::Malformed(3))
    ));
}

#[test]
fn an_adopted_seed_is_stored_with_the_identity() {
    let mut store = MemoryStore::new();
    let identity = Identity::load_or_adopt(&mut store, &vec![3; 32]).expect("adopt");
    assert_eq!(store.get_meta("identity-seed").expect("get"), Some(vec![3; 32]));
    assert_eq!(store.get_meta("node-id").expect("get"), Some(identity.node_id.0.clone()));
    // Whatever is offered later, the stored one stays.
    let again = Identity::load_or_adopt(&mut store, &vec![4; 32]).expect("load");
    assert_eq!(again.node_id, identity.node_id);
}

#[test]
fn identity_can_sign_and_verify_its_own_signals() {
    let mut store = MemoryStore::new();
    let identity = Identity::load_or_create(&mut store).expect("create");
    let mut signal = Signal::data("t")
        .with_weight(Scalar::from_bits(0.5f32.to_bits()))
        .build_unsigned(identity.node_id.clone());

    sign_signal(&ClassicalModule, &Cbor, &mut signal, &identity.private).expect("sign");
    assert!(
        verify_signal(&ClassicalModule, &Cbor, &signal, &identity.public)
            .expect("verify")
    );
}

#[test]
fn short_form_is_stable_and_hex() {
    let mut store = MemoryStore::new();
    let identity = Identity::load_or_create(&mut store).expect("create");
    let short = identity.short();
    assert_eq!(short.len(), 12);
    assert!(short.chars().all(|c| c.is_ascii_hexdigit()));
    assert_eq!(short, identity.short());
}
