//! Signatures, hashes and the identities derived from keys.
//!
//! Cryptography is a module that can be exchanged. The one module there is
//! signs with Ed25519 and hashes with BLAKE3.

use vstd::prelude::*;

use crate::error::{Error, SerializationError};
use crate::signal::{NodeId, Signal, SignalModel};
use crate::text::{copy_bytes, copy_slice};

verus! {

/// Length of a seed, a private key and a public key, in bytes.
pub const KEY_LEN: usize = 32;

/// Length of a signature, in bytes.
pub const SIGNATURE_LEN: usize = 64;

/// Why a cryptographic operation was refused.
#[derive(Clone, Copy, Debug, PartialEq, Eq, Structural)]
pub enum CryptoError {
    /// A seed has this many bytes, not as many as a key.
    SeedLength(usize),
    /// A private key has this many bytes.
    PrivateKeyLength(usize),
    /// A public key has this many bytes.
    PublicKeyLength(usize),
    /// The public key is not a point of the curve.
    InvalidPublicKey,
    /// The module has no source of entropy of its own.
    NoEntropy,
    /// The module does not encrypt.
    NoEncryption,
    /// The module's keys sign, and are not fit for key agreement.
    NoKeyAgreement,
}

impl CryptoError {
    /// The refusal for people.
    pub fn as_str(self) -> (r: &'static str)
        ensures
            r@ == (match self {
                CryptoError::SeedLength(_) => "seed must be 32 bytes"@,
                CryptoError::PrivateKeyLength(_) => "private key must be 32 bytes"@,
                CryptoError::PublicKeyLength(_) => "public key must be 32 bytes"@,
                CryptoError::InvalidPublicKey => "invalid public key"@,
                CryptoError::NoEntropy => "use ClassicalModule::keypair_from_seed with 32 cryptographically secure bytes; this module has no ambient entropy source"@,
                CryptoError::NoEncryption => "payload encryption is not implemented in classical-v1"@,
                CryptoError::NoKeyAgreement => "classical-v1 signing keys are Ed25519 and cannot be used for X25519 key exchange; a separate agreement key is required"@,
            }),
    {
        match self {
            CryptoError::SeedLength(_) => "seed must be 32 bytes",
            CryptoError::PrivateKeyLength(_) => "private key must be 32 bytes",
            CryptoError::PublicKeyLength(_) => "public key must be 32 bytes",
            CryptoError::InvalidPublicKey => "invalid public key",
            CryptoError::NoEntropy =>
                "use ClassicalModule::keypair_from_seed with 32 cryptographically secure bytes; this module has no ambient entropy source",
            CryptoError::NoEncryption => "payload encryption is not implemented in classical-v1",
            CryptoError::NoKeyAgreement =>
                "classical-v1 signing keys are Ed25519 and cannot be used for X25519 key exchange; a separate agreement key is required",
        }
    }
}

/// The BLAKE3 digest of data.
pub uninterp spec fn blake3_of(data: Seq<u8>) -> Seq<u8>;

/// The Ed25519 public key of a seed.
pub uninterp spec fn ed25519_public(seed: Seq<u8>) -> Seq<u8>;

/// The Ed25519 signature of data under a seed.
pub uninterp spec fn ed25519_signature(data: Seq<u8>, seed: Seq<u8>) -> Seq<u8>;

/// Whether bytes are an Ed25519 public key.
pub uninterp spec fn ed25519_point(key: Seq<u8>) -> bool;

/// Whether an Ed25519 signature of data verifies under a public key.
pub uninterp spec fn ed25519_accepts(data: Seq<u8>, signature: Seq<u8>, key: Seq<u8>) -> bool;

/// Calls `blake3::hash`. The digest has 32 bytes and depends on the data alone.
#[verifier::external_body]
fn blake3_digest(data: &[u8]) -> (r: Vec<u8>)
    ensures
        r@ == blake3_of(data@),
        r@.len() == 32,
{
    blake3::hash(data).as_bytes().to_vec()
}

/// Calls `ed25519_dalek::SigningKey::from_bytes` and `verifying_key`. The public
/// key has 32 bytes, depends on the seed alone, and is a point of the curve.
#[verifier::external_body]
fn ed25519_public_key(seed: &[u8]) -> (r: Vec<u8>)
    requires
        seed@.len() == KEY_LEN,
    ensures
        r@ == ed25519_public(seed@),
        r@.len() == KEY_LEN,
        ed25519_point(r@),
{
    let mut bytes = [0u8; 32];
    bytes.copy_from_slice(seed);
    ed25519_dalek::SigningKey::from_bytes(&bytes).verifying_key().to_bytes().to_vec()
}

/// Calls `ed25519_dalek::Signer::sign` on a `SigningKey`. The signature has 64
/// bytes, depends on the data and the seed alone, and verifies under the seed's
/// public key.
#[verifier::external_body]
fn ed25519_sign(data: &[u8], seed: &[u8]) -> (r: Vec<u8>)
    requires
        seed@.len() == KEY_LEN,
    ensures
        r@ == ed25519_signature(data@, seed@),
        r@.len() == SIGNATURE_LEN,
        ed25519_accepts(data@, r@, ed25519_public(seed@)),
{
    let mut bytes = [0u8; 32];
    bytes.copy_from_slice(seed);
    let key = ed25519_dalek::SigningKey::from_bytes(&bytes);
    ed25519_dalek::Signer::sign(&key, data).to_bytes().to_vec()
}

/// Calls `ed25519_dalek::VerifyingKey::from_bytes`, which takes exactly the
/// points of the curve.
#[verifier::external_body]
fn ed25519_is_key(key: &[u8]) -> (r: bool)
    requires
        key@.len() == KEY_LEN,
    ensures
        r == ed25519_point(key@),
{
    let mut bytes = [0u8; 32];
    bytes.copy_from_slice(key);
    ed25519_dalek::VerifyingKey::from_bytes(&bytes).is_ok()
}

/// Calls `ed25519_dalek::Verifier::verify` on a `VerifyingKey`. Whether the
/// signature verifies depends on the data, the signature and the key alone.
#[verifier::external_body]
fn ed25519_verify(data: &[u8], signature: &[u8], key: &[u8]) -> (r: bool)
    requires
        key@.len() == KEY_LEN,
        signature@.len() == SIGNATURE_LEN,
        ed25519_point(key@),
    ensures
        r == ed25519_accepts(data@, signature@, key@),
{
    let mut bytes = [0u8; 32];
    bytes.copy_from_slice(key);
    let mut parts = [0u8; 64];
    parts.copy_from_slice(signature);
    let given = ed25519_dalek::Signature::from_bytes(&parts);
    match ed25519_dalek::VerifyingKey::from_bytes(&bytes) {
        Ok(key) => ed25519_dalek::Verifier::verify(&key, data, &given).is_ok(),
        Err(_) => false,
    }
}

/// The identifiers of the crypto modules that this build supports.
///
/// A configuration that names another is refused.
pub fn supported_modules() -> (r: Vec<&'static str>)
    ensures
        r@.len() == 1,
        r@[0]@ == "classical-v1"@,
{
    let mut modules: Vec<&'static str> = Vec::new();
    modules.push("classical-v1");
    modules
}

/// The module that a build uses where the configuration does not say.
pub fn default_module() -> (r: Option<&'static str>)
    ensures
        r is Some,
        r->0@ == "classical-v1"@,
{
    Some("classical-v1")
}

/// Public key bytes.
#[derive(Debug, PartialEq, Eq)]
pub struct PublicKey(pub Vec<u8>);

/// Private key bytes.
#[derive(Debug)]
pub struct PrivateKey(pub Vec<u8>);

/// Signature bytes.
#[derive(Debug)]
pub struct Signature(pub Vec<u8>);

/// A secret shared through key exchange.
#[derive(Debug)]
pub struct SharedSecret(pub Vec<u8>);

/// Hash output bytes.
#[derive(Debug, PartialEq, Eq)]
pub struct Hash(pub Vec<u8>);

impl View for PublicKey {
    type V = Seq<u8>;

    open spec fn view(&self) -> Seq<u8> {
        self.0@
    }
}

impl View for PrivateKey {
    type V = Seq<u8>;

    open spec fn view(&self) -> Seq<u8> {
        self.0@
    }
}

impl View for Signature {
    type V = Seq<u8>;

    open spec fn view(&self) -> Seq<u8> {
        self.0@
    }
}

impl View for Hash {
    type V = Seq<u8>;

    open spec fn view(&self) -> Seq<u8> {
        self.0@
    }
}

impl Clone for PublicKey {
    fn clone(&self) -> (r: Self)
        ensures
            r@ == self@,
    {
        PublicKey(copy_bytes(&self.0))
    }
}

impl Clone for PrivateKey {
    fn clone(&self) -> (r: Self)
        ensures
            r@ == self@,
    {
        PrivateKey(copy_bytes(&self.0))
    }
}

impl Clone for Signature {
    fn clone(&self) -> (r: Self)
        ensures
            r@ == self@,
    {
        Signature(copy_bytes(&self.0))
    }
}

impl Clone for Hash {
    fn clone(&self) -> (r: Self)
        ensures
            r@ == self@,
    {
        Hash(copy_bytes(&self.0))
    }
}

/// A cryptographic module.
pub trait CryptoModule: Sized {
    /// The signature that the module gives to data under a private key, or why
    /// it refuses.
    spec fn signed(&self, data: Seq<u8>, key: Seq<u8>) -> Result<Seq<u8>, CryptoError>;

    /// Whether the module accepts a signature of data under a public key, or
    /// why it refuses the key.
    spec fn judged(&self, data: Seq<u8>, signature: Seq<u8>, key: Seq<u8>) -> Result<
        bool,
        CryptoError,
    >;

    /// The public half of a private key.
    spec fn public(&self, key: Seq<u8>) -> Seq<u8>;

    /// The module's digest of data.
    spec fn digest(&self, data: Seq<u8>) -> Seq<u8>;

    /// The module's identifier.
    fn module_id(&self) -> &'static str;

    /// Generate a new keypair, if the module has a source of entropy.
    fn generate_keypair(&self) -> (r: Result<(PublicKey, PrivateKey), Error>);

    /// Sign data with a private key. What is signed verifies under the key's
    /// public half.
    fn sign(&self, data: &[u8], key: &PrivateKey) -> (r: Result<Signature, Error>)
        ensures
            match self.signed(data@, key@) {
                Ok(signature) => r is Ok && r->Ok_0@ == signature,
                Err(e) => r == Err::<Signature, Error>(Error::Crypto(e)),
            },
            r matches Ok(signature) ==> self.judged(data@, signature@, self.public(key@)) != Ok::<
                bool,
                CryptoError,
            >(false),
    ;

    /// Verify a signature against a public key. A malformed signature does not
    /// verify: that is what a forged one looks like. A malformed key is refused.
    fn verify(&self, data: &[u8], signature: &Signature, key: &PublicKey) -> (r: Result<
        bool,
        Error,
    >)
        ensures
            match self.judged(data@, signature@, key@) {
                Ok(verdict) => r == Ok::<bool, Error>(verdict),
                Err(e) => r == Err::<bool, Error>(Error::Crypto(e)),
            },
    ;

    /// Encrypt data for a recipient's public key, if the module can.
    fn encrypt(&self, data: &[u8], recipient_key: &PublicKey) -> (r: Result<Vec<u8>, Error>);

    /// Decrypt data with a private key, if the module can.
    fn decrypt(&self, data: &[u8], key: &PrivateKey) -> (r: Result<Vec<u8>, Error>);

    /// Derive a shared secret, if the module can.
    fn key_exchange(&self, local_private: &PrivateKey, remote_public: &PublicKey) -> (r: Result<
        SharedSecret,
        Error,
    >);

    /// Compute a hash.
    fn hash(&self, data: &[u8]) -> (r: Hash)
        ensures
            r@ == self.digest(data@),
    ;
}

/// The BLAKE3 hash that every module uses.
pub fn blake3_hash(data: &[u8]) -> (r: Hash)
    ensures
        r@ == blake3_of(data@),
        r@.len() == 32,
{
    Hash(blake3_digest(data))
}

/// Derive a node's identity from its public key: the key's hash.
pub fn node_id_from_public_key(key: &PublicKey) -> (r: NodeId)
    ensures
        r@ == blake3_of(key@),
        r@.len() == 32,
{
    NodeId(blake3_hash(key.0.as_slice()).0)
}

/// Ed25519 signatures and BLAKE3 hashes.
#[derive(Clone, Copy, Debug)]
pub struct ClassicalModule;

impl ClassicalModule {
    /// Derive a keypair from 32 seed bytes.
    ///
    /// The caller must supply cryptographically secure bytes: the generators of
    /// [`crate::rng`] are not adequate here.
    pub fn keypair_from_seed(seed: &[u8]) -> (r: Result<(PublicKey, PrivateKey), Error>)
        ensures
            if seed@.len() == KEY_LEN {
                &&& r is Ok
                &&& r->Ok_0.0@ == ed25519_public(seed@)
                &&& r->Ok_0.0@.len() == KEY_LEN
                &&& ed25519_point(r->Ok_0.0@)
                &&& r->Ok_0.1@ == seed@
            } else {
                r == Err::<(PublicKey, PrivateKey), Error>(
                    Error::Crypto(CryptoError::SeedLength(seed@.len() as usize)),
                )
            },
    {
        if seed.len() != KEY_LEN {
            return Err(Error::Crypto(CryptoError::SeedLength(seed.len())));
        }
        let public = ed25519_public_key(seed);
        Ok((PublicKey(public), PrivateKey(copy_slice(seed))))
    }
}

impl CryptoModule for ClassicalModule {
    open spec fn signed(&self, data: Seq<u8>, key: Seq<u8>) -> Result<Seq<u8>, CryptoError> {
        if key.len() == KEY_LEN {
            Ok(ed25519_signature(data, key))
        } else {
            Err(CryptoError::PrivateKeyLength(key.len() as usize))
        }
    }

    open spec fn judged(&self, data: Seq<u8>, signature: Seq<u8>, key: Seq<u8>) -> Result<
        bool,
        CryptoError,
    > {
        if key.len() != KEY_LEN {
            Err(CryptoError::PublicKeyLength(key.len() as usize))
        } else if !ed25519_point(key) {
            Err(CryptoError::InvalidPublicKey)
        } else {
            Ok(signature.len() == SIGNATURE_LEN && ed25519_accepts(data, signature, key))
        }
    }

    open spec fn public(&self, key: Seq<u8>) -> Seq<u8> {
        ed25519_public(key)
    }

    open spec fn digest(&self, data: Seq<u8>) -> Seq<u8> {
        blake3_of(data)
    }

    fn module_id(&self) -> (r: &'static str)
        ensures
            r@ == "classical-v1"@,
    {
        "classical-v1"
    }

    /// Always refused: the module cannot invent entropy, and a weak source
    /// would be worse than none.
    fn generate_keypair(&self) -> (r: Result<(PublicKey, PrivateKey), Error>)
        ensures
            r == Err::<(PublicKey, PrivateKey), Error>(Error::Crypto(CryptoError::NoEntropy)),
    {
        Err(Error::Crypto(CryptoError::NoEntropy))
    }

    /// What is signed verifies under the key's public half.
    fn sign(&self, data: &[u8], key: &PrivateKey) -> (r: Result<Signature, Error>)
        ensures
            r matches Ok(signature) ==> signature@.len() == SIGNATURE_LEN && ed25519_accepts(
                data@,
                signature@,
                ed25519_public(key@),
            ),
    {
        if key.0.len() != KEY_LEN {
            return Err(Error::Crypto(CryptoError::PrivateKeyLength(key.0.len())));
        }
        Ok(Signature(ed25519_sign(data, key.0.as_slice())))
    }

    fn verify(&self, data: &[u8], signature: &Signature, key: &PublicKey) -> (r: Result<
        bool,
        Error,
    >) {
        if key.0.len() != KEY_LEN {
            return Err(Error::Crypto(CryptoError::PublicKeyLength(key.0.len())));
        }
        if !ed25519_is_key(key.0.as_slice()) {
            return Err(Error::Crypto(CryptoError::InvalidPublicKey));
        }
        if signature.0.len() != SIGNATURE_LEN {
            return Ok(false);
        }
        Ok(ed25519_verify(data, signature.0.as_slice(), key.0.as_slice()))
    }

    fn encrypt(&self, data: &[u8], recipient_key: &PublicKey) -> (r: Result<Vec<u8>, Error>)
        ensures
            r == Err::<Vec<u8>, Error>(Error::Crypto(CryptoError::NoEncryption)),
    {
        Err(Error::Crypto(CryptoError::NoEncryption))
    }

    fn decrypt(&self, data: &[u8], key: &PrivateKey) -> (r: Result<Vec<u8>, Error>)
        ensures
            r == Err::<Vec<u8>, Error>(Error::Crypto(CryptoError::NoEncryption)),
    {
        Err(Error::Crypto(CryptoError::NoEncryption))
    }

    /// Always refused: signing keys are not agreement keys.
    fn key_exchange(&self, local_private: &PrivateKey, remote_public: &PublicKey) -> (r: Result<
        SharedSecret,
        Error,
    >)
        ensures
            r == Err::<SharedSecret, Error>(Error::Crypto(CryptoError::NoKeyAgreement)),
    {
        Err(Error::Crypto(CryptoError::NoKeyAgreement))
    }

    fn hash(&self, data: &[u8]) -> (r: Hash) {
        blake3_hash(data)
    }
}

/// How the host writes a signal in bytes.
pub trait Encoder {
    /// The bytes of a signal, if it has an encoding.
    fn encode(&self, signal: &Signal) -> Option<Vec<u8>>;
}

/// Bytes that may be missing, as a value.
pub open spec fn bytes_of(bytes: Option<Vec<u8>>) -> Option<Seq<u8>> {
    match bytes {
        Some(bytes) => Some(bytes@),
        None => None,
    }
}

/// Whether an encoder may write what it is handed for a signal in these bytes.
pub open spec fn encodes<E: Encoder>(
    encoder: E,
    signal: SignalModel,
    bytes: Option<Seq<u8>>,
) -> bool {
    exists|handed: Signal, out: Option<Vec<u8>>|
        handed@ == signal && #[trigger] call_ensures(E::encode, (&encoder, &handed), out) && bytes
            == bytes_of(out)
}

/// The bytes that a signature of a signal covers: the encoding of its signed
/// form.
pub fn covered_bytes<E: Encoder>(encoder: &E, signal: &Signal) -> (r: Option<Vec<u8>>)
    ensures
        encodes(*encoder, signal@.signing_form(), bytes_of(r)),
{
    let form = signal.signing_bytes();
    let r = encoder.encode(&form);
    assert(call_ensures(E::encode, (encoder, &form), r));
    r
}

/// Whether a verdict on a signature of these bytes is the module's. Where there
/// are none, there is no verdict.
pub open spec fn verdict_on<M: CryptoModule>(
    module: M,
    bytes: Option<Seq<u8>>,
    signature: Seq<u8>,
    key: Seq<u8>,
    r: Result<bool, Error>,
) -> bool {
    match bytes {
        None => r == Err::<bool, Error>(Error::Serialization(SerializationError::Encoding)),
        Some(bytes) => match module.judged(bytes, signature, key) {
            Ok(verdict) => r == Ok::<bool, Error>(verdict),
            Err(e) => r == Err::<bool, Error>(Error::Crypto(e)),
        },
    }
}

/// Verify a signature against a public key, given the bytes that it covers.
pub fn verify_bytes<M: CryptoModule>(
    module: &M,
    bytes: &Option<Vec<u8>>,
    signature: &Vec<u8>,
    public_key: &PublicKey,
) -> (r: Result<bool, Error>)
    ensures
        verdict_on(*module, bytes_of(*bytes), signature@, public_key@, r),
{
    match bytes {
        Some(bytes) => {
            let signature = Signature(copy_bytes(signature));
            module.verify(bytes.as_slice(), &signature, public_key)
        },
        None => Err(Error::Serialization(SerializationError::Encoding)),
    }
}

/// Verify a signal's signature against its origin's public key. The host writes
/// what the signature covers.
pub fn verify_signal<M: CryptoModule, E: Encoder>(
    module: &M,
    encoder: &E,
    signal: &Signal,
    public_key: &PublicKey,
) -> (r: Result<bool, Error>)
    ensures
        exists|bytes: Option<Seq<u8>>| #[trigger]
            encodes(*encoder, signal@.signing_form(), bytes) && verdict_on(
                *module,
                bytes,
                signal@.signature,
                public_key@,
                r,
            ),
{
    let bytes = covered_bytes(encoder, signal);
    verify_bytes(module, &bytes, &signal.signature, public_key)
}

/// Whether a signal was signed over these bytes: it has the module's signature,
/// which verifies under the key's public half, or it is as it was.
pub open spec fn signed_over<M: CryptoModule>(
    module: M,
    bytes: Option<Seq<u8>>,
    before: SignalModel,
    key: Seq<u8>,
    r: Result<(), Error>,
    after: SignalModel,
) -> bool {
    match bytes {
        None => r == Err::<(), Error>(Error::Serialization(SerializationError::Encoding)) && after
            == before,
        Some(bytes) => match module.signed(bytes, key) {
            Ok(signature) => {
                &&& r == Ok::<(), Error>(())
                &&& after == (SignalModel { signature, ..before })
                &&& module.judged(bytes, signature, module.public(key)) != Ok::<bool, CryptoError>(
                    false,
                )
            },
            Err(e) => r == Err::<(), Error>(Error::Crypto(e)) && after == before,
        },
    }
}

/// Sign a signal in place. The host writes what the signature covers.
pub fn sign_signal<M: CryptoModule, E: Encoder>(
    module: &M,
    encoder: &E,
    signal: &mut Signal,
    private_key: &PrivateKey,
) -> (r: Result<(), Error>)
    ensures
        exists|bytes: Option<Seq<u8>>| #[trigger]
            encodes(*encoder, old(signal)@.signing_form(), bytes) && signed_over(
                *module,
                bytes,
                old(signal)@,
                private_key@,
                r,
                final(signal)@,
            ),
{
    let bytes = match covered_bytes(encoder, signal) {
        Some(bytes) => bytes,
        None => return Err(Error::Serialization(SerializationError::Encoding)),
    };
    assert(encodes(*encoder, old(signal)@.signing_form(), Some(bytes@)));
    match module.sign(bytes.as_slice(), private_key) {
        Ok(signature) => {
            signal.signature = signature.0;
            Ok(())
        },
        Err(e) => Err(e),
    }
}

/// Whether an encoder writes one signal always in the same bytes, and no two
/// signals in the same.
pub open spec fn faithful<E: Encoder>(encoder: E) -> bool {
    &&& forall|signal: SignalModel, a: Option<Seq<u8>>, b: Option<Seq<u8>>|
        #[trigger] encodes(encoder, signal, a) && #[trigger] encodes(encoder, signal, b) ==> a == b
    &&& forall|p: SignalModel, q: SignalModel, bytes: Seq<u8>|
        #[trigger] encodes(encoder, p, Some(bytes)) && #[trigger] encodes(encoder, q, Some(bytes))
            ==> p == q
}

/// A signal that was signed, under an encoder that is faithful, verifies under
/// the public half of the key, also after hops and attenuation.
pub proof fn lemma_signed_signals_verify<E: Encoder>(
    encoder: E,
    before: SignalModel,
    bytes: Option<Seq<u8>>,
    private: Seq<u8>,
    signed: Result<(), Error>,
    after: SignalModel,
    node: Seq<u8>,
    weight: crate::scalar::Scalar,
    again: Option<Seq<u8>>,
    verdict: Result<bool, Error>,
)
    requires
        faithful(encoder),
        encodes(encoder, before.signing_form(), bytes),
        signed_over(ClassicalModule, bytes, before, private, signed, after),
        signed is Ok,
        ed25519_public(private).len() == KEY_LEN,
        ed25519_point(ed25519_public(private)),
        encodes(encoder, after.hopped(node).reweighted(weight).signing_form(), again),
        verdict_on(
            ClassicalModule,
            again,
            after.hopped(node).reweighted(weight).signature,
            ed25519_public(private),
            verdict,
        ),
    ensures
        verdict == Ok::<bool, Error>(true),
{
    lemma_hops_keep_the_signature(after, node, weight, after.signature);
    lemma_hops_keep_the_signature(before, node, weight, after.signature);
    lemma_hops_keep_the_signature(after.hopped(node), node, weight, after.signature);
    assert(after.hopped(node).reweighted(weight).signing_form() == before.signing_form());
    assert(again == bytes);
}

/// A signal of which anything was altered that a signature covers is verified,
/// under an encoder that is faithful, over other bytes than it was signed over.
pub proof fn lemma_alterations_change_what_is_verified<E: Encoder>(
    encoder: E,
    signed: SignalModel,
    altered: SignalModel,
    bytes: Seq<u8>,
    other: Option<Seq<u8>>,
)
    requires
        faithful(encoder),
        encodes(encoder, signed.signing_form(), Some(bytes)),
        encodes(encoder, altered.signing_form(), other),
        altered.delivery != signed.delivery || altered.payload != signed.payload
            || altered.timestamp != signed.timestamp || altered.origin != signed.origin
            || altered.tags != signed.tags || altered.id != signed.id || altered.signal_type
            != signed.signal_type || altered.scope != signed.scope || altered.correlation_id
            != signed.correlation_id,
    ensures
        other != Some(bytes),
{
}

/// A signed signal still verifies after hops, attenuation and signing: what a
/// signature covers is what none of them changes.
pub proof fn lemma_hops_keep_the_signature(
    signal: SignalModel,
    node: Seq<u8>,
    weight: crate::scalar::Scalar,
    signature: Seq<u8>,
)
    ensures
        signal.hopped(node).signing_form() == signal.signing_form(),
        signal.hopped(node).signature == signal.signature,
        signal.reweighted(weight).signing_form() == signal.signing_form(),
        (SignalModel { signature, ..signal }).signing_form() == signal.signing_form(),
{
}

/// Signals that a signature cannot tell apart differ only in their signature,
/// trace, hops left and weight: nothing else can be changed on the way.
pub proof fn lemma_signing_covers_the_rest(a: SignalModel, b: SignalModel)
    requires
        a.signing_form() == b.signing_form(),
    ensures
        b == (SignalModel {
            signature: b.signature,
            trace: b.trace,
            ttl: b.ttl,
            weight: b.weight,
            ..a
        }),
{
}

/// What is signed with the private half of a key pair verifies under its public
/// half.
pub proof fn lemma_what_is_signed_verifies(
    seed: &[u8],
    pair: (PublicKey, PrivateKey),
    data: &[u8],
    signature: Signature,
)
    requires
        call_ensures(
            ClassicalModule::keypair_from_seed,
            (seed,),
            Ok::<(PublicKey, PrivateKey), Error>(pair),
        ),
        call_ensures(
            ClassicalModule::sign,
            (&ClassicalModule, data, &pair.1),
            Ok::<Signature, Error>(signature),
        ),
    ensures
        ClassicalModule.signed(data@, pair.1@) == Ok::<Seq<u8>, CryptoError>(signature@),
        ClassicalModule.judged(data@, signature@, pair.0@) == Ok::<bool, CryptoError>(true),
{
}

} // verus!
