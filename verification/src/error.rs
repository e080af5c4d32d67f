//! What can go wrong.

use vstd::prelude::*;

use crate::config::ConfigError;
use crate::crypto::CryptoError;
use crate::scalar::Scalar;
use crate::signal::SignalId;
use crate::store::StoreError;

verus! {

/// What could not be written or read.
#[derive(Debug)]
pub enum SerializationError {
    /// The store failed, or holds what does not read.
    Store(StoreError),
    /// The signal has no encoding.
    Encoding,
}

/// An error of the library.
#[derive(Debug)]
pub enum Error {
    /// The signal's weight lies outside `[0, 1]`.
    WeightOutOfRange(Scalar),
    /// The signal carries no signature.
    MissingSignature,
    /// The signal's encoding has this many bytes, more than a signal may have.
    TooLarge(usize),
    /// The signal has run out of hops.
    TtlExpired(SignalId),
    /// What was to be written or read could not be.
    Serialization(SerializationError),
    /// The configuration is refused, or the store that it names does not serve.
    Config(ConfigError),
    /// The crypto module refused.
    Crypto(CryptoError),
    /// A synapse to this peer was pruned too short a while ago to form again.
    CoolingDown,
    /// An adapter refused.
    Adapter(String),
}

} // verus!
