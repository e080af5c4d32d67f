use std::collections::BTreeMap;

use ntl::crypto::{
    blake3_hash, default_module, node_id_from_public_key, sign_signal, supported_modules,
    verify_signal, ClassicalModule, CryptoError, CryptoModule, Encoder, PrivateKey, PublicKey,
    Signature,
};
use ntl::delivery::DeliveryClass;
use ntl::error::{Error, SerializationError};
use ntl::scalar::Scalar;
use ntl::signal::{NodeId, Signal};
use serde_cbor::Value;

fn f(x: f32) -> Scalar {
    Scalar::from_bits(x.to_bits())
}

fn text(s: &str) -> Value {
    Value::Text(s.to_string())
}

/// Signals as maps in CBOR.
struct Cbor;

impl Encoder for Cbor {
    fn encode(&self, s: &Signal) -> Option<Vec<u8>> {
        let mut map: BTreeMap<Value, Value> = BTreeMap::new();
        map.insert(text("id"), Value::Bytes(s.id.to_bytes().to_vec()));
        map.insert(text("signal_type"), text(&format!("{:?}", s.signal_type)));
        map.insert(text("version"), Value::Integer(i128::from(s.version)));
        map.insert(text("origin"), Value::Bytes(s.origin.0.clone()));
        map.insert(text("signature"), Value::Bytes(s.signature.clone()));
        map.insert(text("timestamp"), Value::Integer(i128::from(s.timestamp)));
        map.insert(text("payload"), text(&s.payload));
        map.insert(text("weight"), Value::Integer(i128::from(s.weight.to_bits())));
        map.insert(text("ttl"), Value::Integer(i128::from(s.ttl)));
        map.insert(text("scope"), text(&format!("{:?}", s.scope)));
        map.insert(text("correlation_id"), text(&format!("{:?}", s.correlation_id)));
        map.insert(
            text("trace"),
            Value::Array(s.trace.iter().map(|n| Value::Bytes(n.0.clone())).collect()),
        );
        map.insert(
            text("tags"),
            Value::Array(s.tags.iter().map(|t| text(t)).collect()),
        );
        map.insert(text("delivery"), Value::Integer(i128::from(s.delivery.to_wire())));
        serde_cbor::to_vec(&Value::Map(map)).ok()
    }
}

fn keys() -> (PublicKey, PrivateKey) {
    ClassicalModule::keypair_from_seed(&[7u8; 32]).expect("keypair")
}

fn signed() -> (Signal, PublicKey) {
    let (public, private) = keys();
    let origin = node_id_from_public_key(&public);
    let mut signal = Signal::data("test").with_weight(f(0.5)).build_unsigned(origin);
    sign_signal(&ClassicalModule, &Cbor, &mut signal, &private).expect("sign");
    (signal, public)
}

fn verified(signal: &Signal, key: &PublicKey) -> bool {
    verify_signal(&ClassicalModule, &Cbor, signal, key).expect("verify")
}

#[test]
fn blake3_hash_deterministic() {
    let data = b"hello NTL";
    let h1 = blake3_hash(data);
    let h2 = blake3_hash(data);
    assert_eq!(h1, h2);
}

#[test]
fn blake3_hash_different_inputs() {
    let h1 = blake3_hash(b"hello");
    let h2 = blake3_hash(b"world");
    assert_ne!(h1, h2);
}

#[test]
fn the_hash_of_nothing_is_known() {
    assert_eq!(
        blake3_hash(b"").0[..8],
        [0xaf, 0x13, 0x49, 0xb9, 0xf5, 0xf9, 0xa1, 0xa6]
    );
    assert_eq!(ClassicalModule.hash(b""), blake3_hash(b""));
}

#[test]
fn seed_derivation_is_deterministic() {
    let (a_pub, _) = keys();
    let (b_pub, _) = keys();
    assert_eq!(a_pub, b_pub, "the same seed must yield the same key");
}

#[test]
fn distinct_seeds_yield_distinct_keys() {
    let (a, _) = ClassicalModule::keypair_from_seed(&[1u8; 32]).expect("a");
    let (b, _) = ClassicalModule::keypair_from_seed(&[2u8; 32]).expect("b");
    assert_ne!(a, b);
}

#[test]
fn the_public_key_of_a_seed_is_known() {
    let (public, private) = ClassicalModule::keypair_from_seed(&[0u8; 32]).expect("keypair");
    assert_eq!(public.0[..4], [0x3b, 0x6a, 0x27, 0xbc]);
    assert_eq!(private.0, vec![0u8; 32]);
}

#[test]
fn short_seed_is_rejected() {
    assert!(ClassicalModule::keypair_from_seed(&[0u8; 16]).is_err());
}

#[test]
fn generate_keypair_refuses_rather_than_inventing_entropy() {
    assert!(
        ClassicalModule.generate_keypair().is_err(),
        "silently using a weak entropy source would be worse than refusing"
    );
}

#[test]
fn sign_then_verify_succeeds() {
    let (public, private) = keys();
    let sig = ClassicalModule.sign(b"payload", &private).expect("sign");
    assert!(ClassicalModule.verify(b"payload", &sig, &public).expect("verify"));
}

#[test]
fn a_tampered_message_fails_verification() {
    let (public, private) = keys();
    let sig = ClassicalModule.sign(b"payload", &private).expect("sign");
    assert!(!ClassicalModule.verify(b"tampered", &sig, &public).expect("verify"));
}

#[test]
fn a_wrong_key_fails_verification() {
    let (_, private) = keys();
    let (other_public, _) = ClassicalModule::keypair_from_seed(&[9u8; 32]).expect("k");
    let sig = ClassicalModule.sign(b"payload", &private).expect("sign");
    assert!(!ClassicalModule.verify(b"payload", &sig, &other_public).expect("verify"));
}

#[test]
fn a_malformed_signature_is_a_failure_not_an_error() {
    let (public, _) = keys();
    // This is what a forged or truncated signature looks like on the wire.
    for bad in [vec![], vec![0u8; 8], vec![0u8; 63], vec![0u8; 65]] {
        assert!(
            !ClassicalModule
                .verify(b"payload", &Signature(bad.clone()), &public)
                .expect("must not error"),
            "a {}-byte signature should fail cleanly",
            bad.len()
        );
    }
}

#[test]
fn malformed_keys_are_refused() {
    let (public, private) = keys();
    let sig = ClassicalModule.sign(b"payload", &private).expect("sign");
    assert!(matches!(
        ClassicalModule.verify(b"payload", &sig, &PublicKey(vec![1; 31])),
        Err(Error::Crypto(CryptoError::PublicKeyLength(31)))
    ));
    // Two is the least y that is on no point of the curve.
    let mut off_curve = vec![0u8; 32];
    off_curve[0] = 2;
    assert!(matches!(
        ClassicalModule.verify(b"payload", &sig, &PublicKey(off_curve)),
        Err(Error::Crypto(CryptoError::InvalidPublicKey))
    ));
    assert!(matches!(
        ClassicalModule.sign(b"payload", &PrivateKey(vec![1; 5])),
        Err(Error::Crypto(CryptoError::PrivateKeyLength(5)))
    ));
    assert!(matches!(
        ClassicalModule::keypair_from_seed(&[0; 3]),
        Err(Error::Crypto(CryptoError::SeedLength(3)))
    ));
    let _ = public;
}

#[test]
fn what_the_module_cannot_do_it_refuses() {
    let (public, private) = keys();
    assert!(matches!(
        ClassicalModule.encrypt(b"x", &public),
        Err(Error::Crypto(CryptoError::NoEncryption))
    ));
    assert!(matches!(
        ClassicalModule.decrypt(b"x", &private),
        Err(Error::Crypto(CryptoError::NoEncryption))
    ));
    assert!(matches!(
        ClassicalModule.generate_keypair(),
        Err(Error::Crypto(CryptoError::NoEntropy))
    ));
    assert!(CryptoError::NoEntropy.as_str().contains("keypair_from_seed"));
}

#[test]
fn signal_signing_round_trips() {
    let (signal, public) = signed();
    assert!(!signal.signature.is_empty());
    assert!(verified(&signal, &public));
}

#[test]
fn tampering_with_a_signal_field_breaks_its_signature() {
    let (signal, public) = signed();

    // A node on the way must not be able to upgrade the delivery class,
    // retarget the payload, or restamp the origin.
    let mut tampered = signal.clone();
    tampered.delivery = DeliveryClass::Acknowledged;
    assert!(!verified(&tampered, &public));

    let mut tampered = signal.clone();
    tampered.payload = "{\"evil\":true}".to_string();
    assert!(!verified(&tampered, &public));

    let mut tampered = signal.clone();
    tampered.timestamp = 0;
    assert!(!verified(&tampered, &public));

    let mut tampered = signal.clone();
    tampered.origin = NodeId(vec![1u8; 32]);
    assert!(!verified(&tampered, &public));

    let mut tampered = signal.clone();
    tampered.tags = vec!["injected".to_string()];
    assert!(!verified(&tampered, &public));
}

#[test]
fn weight_and_ttl_are_knowingly_unprotected() {
    // Propagation changes weight and hops at every node, so an origin's
    // signature cannot cover them. Asserted so that it stays deliberate.
    let (signal, public) = signed();

    let mut inflated = signal.clone();
    inflated.weight = f(1.0);
    inflated.ttl = 255;
    assert!(
        verified(&inflated, &public),
        "weight and hops are outside the signature by design; a receiving node must enforce its \
         own limits on both"
    );
}

#[test]
fn hops_do_not_invalidate_the_origin_signature() {
    // The trace grows as a signal travels, so it cannot be covered by a
    // signature that must still verify downstream.
    let (mut signal, public) = signed();

    signal.hop(NodeId(vec![42u8; 32]));
    signal.hop(NodeId(vec![43u8; 32]));

    assert!(
        verified(&signal, &public),
        "a signal must still verify after being forwarded"
    );
}

#[test]
fn a_refused_signing_leaves_the_signal_as_it_was() {
    let mut signal = Signal::data("t").build_unsigned(NodeId(vec![1; 32]));
    assert!(sign_signal(&ClassicalModule, &Cbor, &mut signal, &PrivateKey(vec![])).is_err());
    assert!(signal.signature.is_empty());
}

#[test]
fn key_exchange_refuses_to_reuse_signing_keys() {
    let (public, private) = keys();
    assert!(
        ClassicalModule.key_exchange(&private, &public).is_err(),
        "Ed25519 signing keys are not X25519 agreement keys"
    );
}

#[test]
fn node_id_from_key_deterministic() {
    let key = PublicKey(vec![42u8; 32]);
    let id1 = node_id_from_public_key(&key);
    let id2 = node_id_from_public_key(&key);
    assert_eq!(id1, id2);
    assert_eq!(id1.0, blake3_hash(&[42u8; 32]).0);
}

#[test]
fn one_module_is_supported() {
    assert_eq!(supported_modules(), vec!["classical-v1"]);
    assert_eq!(default_module(), Some("classical-v1"));
    assert_eq!(ClassicalModule.module_id(), "classical-v1");
}

/// An encoder that has no bytes for any signal.
struct Mute;

impl Encoder for Mute {
    fn encode(&self, _signal: &Signal) -> Option<Vec<u8>> {
        None
    }
}

#[test]
fn what_has_no_encoding_is_neither_signed_nor_verified() {
    let (signal, public) = signed();
    let (_, private) = keys();
    let mut copy = signal.clone();
    assert!(matches!(
        sign_signal(&ClassicalModule, &Mute, &mut copy, &private),
        Err(Error::Serialization(SerializationError::Encoding))
    ));
    assert_eq!(copy.signature, signal.signature);
    assert!(matches!(
        verify_signal(&ClassicalModule, &Mute, &signal, &public),
        Err(Error::Serialization(SerializationError::Encoding))
    ));
}

/// An encoder that remembers what it was handed.
struct Witness(std::cell::RefCell<Vec<Signal>>);

impl Encoder for Witness {
    fn encode(&self, signal: &Signal) -> Option<Vec<u8>> {
        self.0.borrow_mut().push(signal.clone());
        Some(vec![1, 2, 3])
    }
}

#[test]
fn the_encoder_is_handed_what_the_signature_covers() {
    let (mut signal, public) = signed();
    let (_, private) = keys();
    signal.hop(NodeId(vec![42u8; 32]));
    let witness = Witness(std::cell::RefCell::new(Vec::new()));
    sign_signal(&ClassicalModule, &witness, &mut signal, &private).expect("sign");
    assert!(verify_signal(&ClassicalModule, &witness, &signal, &public).expect("verify"));
    let handed = witness.0.borrow();
    assert_eq!(handed.len(), 2);
    for covered in handed.iter() {
        assert!(covered.signature.is_empty());
        assert!(covered.trace.is_empty());
        assert_eq!(covered.id, signal.id);
        assert_eq!(covered.payload, signal.payload);
    }
    let direct = ClassicalModule.sign(&[1, 2, 3], &private).expect("sign");
    assert_eq!(signal.signature, direct.0);
}
