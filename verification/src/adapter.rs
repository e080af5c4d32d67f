//! Adapters: translation between signals and external protocols.

use std::collections::HashMap;

use vstd::prelude::*;

use crate::error::Error;
use crate::signal::Signal;

verus! {

/// Health of an adapter.
#[derive(Debug, PartialEq, Eq)]
pub enum AdapterHealth {
    /// Operating normally.
    Healthy,
    /// Partial functionality.
    Degraded {
        /// Why the adapter is degraded.
        reason: String,
    },
    /// Not functioning.
    Unhealthy {
        /// Why the adapter is unhealthy.
        reason: String,
    },
}

/// What an adapter can do.
#[derive(Clone, Copy, Debug, PartialEq, Eq, Structural)]
pub struct AdapterCapabilities {
    /// Can receive external data and convert it to signals.
    pub can_ingest: bool,
    /// Can convert signals to the external format.
    pub can_emit: bool,
    /// Supports persistent bidirectional channels.
    pub bidirectional: bool,
    /// Supports request-response correlation.
    pub correlation: bool,
    /// Supports streaming signals.
    pub streaming: bool,
}

/// Data of an external protocol.
#[derive(Debug)]
pub struct ExternalPayload {
    /// Raw payload bytes.
    pub data: Vec<u8>,
    /// MIME content type.
    pub content_type: String,
    /// Protocol-specific metadata.
    pub metadata: HashMap<String, String>,
}

/// An external protocol.
#[derive(Debug, PartialEq, Eq)]
pub enum Protocol {
    /// HTTP and HTTPS.
    Http,
    /// WebSocket.
    WebSocket,
    /// gRPC.
    Grpc,
    /// GraphQL.
    GraphQl,
    /// A blockchain compatible with the EVM.
    EvmChain,
    /// Decentralised identity.
    Did,
    /// Another protocol.
    Custom(String),
}

/// An adapter bridges signals and an external protocol. Whoever owns the
/// transport implements it.
pub trait Adapter: Send + Sync {
    /// Translate an external payload into a signal.
    fn ingest(&self, external: ExternalPayload) -> Result<Signal, Error>;

    /// Translate a signal into an external payload.
    fn emit(&self, signal: Signal) -> Result<ExternalPayload, Error>;

    /// The external protocol that this adapter speaks.
    fn protocol(&self) -> Protocol;

    /// What this adapter can do.
    fn capabilities(&self) -> AdapterCapabilities;

    /// Current health.
    fn health(&self) -> AdapterHealth;
}

} // verus!
