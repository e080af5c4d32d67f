//! A node's signing identity.
//!
//! The identity must persist. A node that made a new one on each start would
//! lose every synapse it formed, and its routing model would never converge.

use vstd::prelude::*;

use crate::crypto::{
    blake3_of, ed25519_point, ed25519_public, node_id_from_public_key, ClassicalModule, PrivateKey,
    PublicKey, KEY_LEN,
};
use crate::signal::NodeId;
use crate::store::{NodeStore, StoreError, StoreModel};
use crate::text::{hex_prefix, hex_text};

verus! {

/// A node's signing identity.
#[derive(Debug)]
pub struct Identity {
    /// Public key.
    pub public: PublicKey,
    /// Private key. It never leaves the node.
    pub private: PrivateKey,
    /// Node identifier, derived from the public key.
    pub node_id: NodeId,
}

/// Why an identity could not be established.
#[derive(Debug)]
pub enum IdentityError {
    /// The store could not be read or written.
    Store(StoreError),
    /// The seed has this many bytes, not as many as a key.
    Malformed(usize),
}

/// Calls `rand::rngs::OsRng`'s `fill_bytes`, which fills the buffer with bytes
/// of the operating system's generator. Nothing is claimed of the bytes but
/// how many there are. Where the system has no such generator the program
/// stops: continuing without entropy would hide it.
#[verifier::external_body]
fn os_seed() -> (r: Vec<u8>)
    ensures
        r@.len() == KEY_LEN,
{
    let mut seed = vec![0u8; 32];
    rand::RngCore::fill_bytes(&mut rand::rngs::OsRng, &mut seed);
    seed
}

/// Whether the operating system may give this seed.
pub closed spec fn os_gives(seed: Seq<u8>) -> bool {
    exists|bytes: Vec<u8>| #[trigger] call_ensures(os_seed, (), bytes) && bytes@ == seed
}

/// A seed of the operating system.
pub(crate) fn drawn_seed() -> (r: Vec<u8>)
    ensures
        r@.len() == KEY_LEN,
        os_gives(r@),
{
    let seed = os_seed();
    assert(os_gives(seed@));
    seed
}

impl Identity {
    /// Whether the identity is the one of a seed.
    pub open spec fn of_seed(self, seed: Seq<u8>) -> bool {
        &&& seed.len() == KEY_LEN
        &&& self.public@ == ed25519_public(seed)
        &&& self.private@ == seed
        &&& self.node_id@ == blake3_of(self.public@)
    }

    /// Derive an identity from a seed of 32 bytes.
    pub fn from_seed(seed: &[u8]) -> (r: Result<Identity, IdentityError>)
        ensures
            if seed@.len() == KEY_LEN {
                r is Ok && r->Ok_0.of_seed(seed@) && ed25519_point(r->Ok_0.public@)
            } else {
                r matches Err(IdentityError::Malformed(n)) && n == seed@.len()
            },
    {
        match ClassicalModule::keypair_from_seed(seed) {
            Ok((public, private)) => {
                let node_id = node_id_from_public_key(&public);
                Ok(Identity { public, private, node_id })
            },
            Err(_) => Err(IdentityError::Malformed(seed.len())),
        }
    }

    /// Load the stored identity, or adopt a seed and persist what it gives.
    pub fn load_or_adopt<S: NodeStore>(store: &mut S, seed: &Vec<u8>) -> (r: Result<
        Identity,
        IdentityError,
    >)
        ensures
            r matches Ok(identity) ==> adopts(
                old(store).model(),
                seed@,
                identity,
                final(store).model(),
            ),
            r matches Err(IdentityError::Malformed(n)) ==> n != KEY_LEN && n == (if old(
                store,
            ).model().meta.dom().contains("identity-seed"@) {
                old(store).model().meta["identity-seed"@].len()
            } else {
                seed@.len()
            }),
            old(store).reliable() ==> final(store).reliable() && !(r matches Err(
                IdentityError::Store(_),
            )),
    {
        let stored = match store.get_meta("identity-seed") {
            Ok(found) => found,
            Err(e) => return Err(IdentityError::Store(e)),
        };
        if let Some(known) = stored {
            return Identity::from_seed(known.as_slice());
        }
        let identity = match Identity::from_seed(seed.as_slice()) {
            Ok(identity) => identity,
            Err(e) => return Err(e),
        };
        match store.put_meta("identity-seed", seed) {
            Ok(()) => {},
            Err(e) => return Err(IdentityError::Store(e)),
        }
        match store.put_meta("node-id", &identity.node_id.0) {
            Ok(()) => {},
            Err(e) => return Err(IdentityError::Store(e)),
        }
        match store.flush() {
            Ok(()) => {},
            Err(e) => return Err(IdentityError::Store(e)),
        }
        Ok(identity)
    }

    /// Load the stored identity, or make one from the operating system's
    /// entropy and persist it.
    pub fn load_or_create<S: NodeStore>(store: &mut S) -> (r: Result<Identity, IdentityError>)
        ensures
            r matches Ok(identity) ==> exists|seed: Seq<u8>|
                seed.len() == KEY_LEN && os_gives(seed) && #[trigger] adopts(
                    old(store).model(),
                    seed,
                    identity,
                    final(store).model(),
                ),
            r matches Err(IdentityError::Malformed(n)) ==> n != KEY_LEN && old(
                store,
            ).model().meta.dom().contains("identity-seed"@) && n == old(
                store,
            ).model().meta["identity-seed"@].len(),
            old(store).reliable() ==> final(store).reliable() && !(r matches Err(
                IdentityError::Store(_),
            )),
    {
        let seed = drawn_seed();
        Identity::load_or_adopt(store, &seed)
    }

    /// A short form for people.
    pub fn short(&self) -> (r: String)
        ensures
            r@ == hex_text(
                self.node_id@.take(
                    if 6 < self.node_id@.len() {
                        6
                    } else {
                        self.node_id@.len() as int
                    },
                ),
            ),
    {
        hex_prefix(&self.node_id.0, 6)
    }
}

/// Whether an identity is the stored one, or else that of a seed, now stored
/// where it lasts.
pub open spec fn adopts(
    kept: StoreModel,
    seed: Seq<u8>,
    identity: Identity,
    after: StoreModel,
) -> bool {
    if kept.meta.dom().contains("identity-seed"@) {
        identity.of_seed(kept.meta["identity-seed"@]) && after == kept
    } else {
        identity.of_seed(seed) && after == kept.with_meta("identity-seed"@, seed).with_meta(
            "node-id"@,
            identity.node_id@,
        ).flushed()
    }
}

/// An identity loaded again is the one that was stored, whatever seed is
/// offered then.
pub proof fn lemma_identity_is_stable(
    kept: StoreModel,
    seed: Seq<u8>,
    first: Identity,
    after: StoreModel,
    offered: Seq<u8>,
    second: Identity,
    later: StoreModel,
)
    requires
        adopts(kept, seed, first, after),
        adopts(after, offered, second, later),
    ensures
        second.node_id@ == first.node_id@,
        second.public@ == first.public@,
        second.private@ == first.private@,
        later == after,
{
    reveal_strlit("identity-seed");
    reveal_strlit("node-id");
    assert("identity-seed"@.len() != "node-id"@.len());
}

} // verus!
