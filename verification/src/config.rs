//! Node configuration.

use vstd::prelude::*;

use crate::activation::{ActivationConfig, NodeClass};
use crate::crypto::default_module;
use crate::delivery::RetryPolicy;
use crate::learning::{DeploymentClass, LearningConfig};
use crate::order::same_text;
use crate::propagation::{PropagationConfig, PropagationSetup};
use crate::scalar::Scalar;
use crate::signal::texts;
use crate::store::StoreError;
use crate::synapse::{SynapseConfig, SynapseSetup};
use crate::text::copy_texts;

verus! {

/// What is wrong with a configuration.
#[derive(Debug)]
pub enum ConfigError {
    /// No signal would be drained per fire.
    FireBatchSize,
    /// The queue would hold no signal.
    MaxQueueDepth,
    /// The base threshold is not positive.
    BaseThreshold(Scalar),
    /// The potential cannot reach the threshold: the ceiling and the threshold.
    MaxPotential(Scalar, Scalar),
    /// The leak rate lies outside `[0, 1]`.
    LeakRate(Scalar),
    /// The latency guard is shorter than the refractory period, both in
    /// milliseconds.
    MaxQueueLatency(u64, u64),
    /// The learning rate lies outside `(0, 1]`.
    LearningRate(Scalar),
    /// The half-life is not positive.
    DecayHalfLife(Scalar),
    /// The temperature floor is not positive.
    MinTemperature,
    /// The weight bounds are not positive and in order.
    WeightBounds(Scalar, Scalar),
    /// The outbound budget does not exceed the weight bound.
    OutboundBudget(Scalar, Scalar),
    /// The influence cap is not positive.
    InfluenceCap,
    /// The signature penalty lies outside `(0, 1]`.
    SignaturePenalty(Scalar),
    /// No synapse would be propagated to.
    MaxFanout,
    /// Signals would start without a hop.
    DefaultTtl,
    /// The propagation weight lies outside `[0, 1)`.
    MinPropagationWeight(Scalar),
    /// The attenuation factor lies outside `[0, 1]`.
    AttenuationFactor(Scalar),
    /// The deduplication window is shorter than the retry deadline, both in
    /// seconds.
    DedupWindow(u64, u64),
    /// The crypto module is not one that this build supports.
    CryptoModule(String),
    /// The synapse weight bound exceeds the learning weight bound.
    SynapseMaxWeight(Scalar, Scalar),
    /// No storage backend was given.
    NoStore,
    /// The storage backend could not be brought up to date.
    Migration(StoreError),
    /// The storage backend failed.
    Store(StoreError),
}

impl ConfigError {
    /// The rule that is broken, with the name of its field. The values are in
    /// the error itself.
    pub fn message(&self) -> (r: &'static str)
        ensures
            r@ == (match self {
                ConfigError::FireBatchSize => "fire_batch_size must be at least 1, or the node can never process anything"@,
                ConfigError::MaxQueueDepth => "max_queue_depth must be at least 1"@,
                ConfigError::BaseThreshold(_) => "base_threshold must be positive"@,
                ConfigError::MaxPotential(_, _) => "max_potential must be at least base_threshold, or the node can never reach its threshold"@,
                ConfigError::LeakRate(_) => "leak_rate must be in [0, 1]"@,
                ConfigError::MaxQueueLatency(_, _) => "max_queue_latency_ms must be at least refractory_period_ms, or the guard can never fire"@,
                ConfigError::LearningRate(_) => "learning_rate must be in (0, 1]"@,
                ConfigError::DecayHalfLife(_) => "decay_half_life_hours must be positive"@,
                ConfigError::MinTemperature => "min_temperature must be positive: a node that stops exploring stops learning"@,
                ConfigError::WeightBounds(_, _) => "require 0 < min_weight < max_weight"@,
                ConfigError::OutboundBudget(_, _) => "max_total_outbound_weight must exceed max_weight, or a single synapse could never reach its bound"@,
                ConfigError::InfluenceCap => "influence_cap_per_peer must be positive"@,
                ConfigError::SignaturePenalty(_) => "signature_failure_penalty must be in (0, 1]"@,
                ConfigError::MaxFanout => "max_fanout must be at least 1"@,
                ConfigError::DefaultTtl => "default_ttl must be at least 1"@,
                ConfigError::MinPropagationWeight(_) => "min_propagation_weight must be in [0, 1)"@,
                ConfigError::AttenuationFactor(_) => "attenuation_factor must be in [0, 1]"@,
                ConfigError::DedupWindow(_, _) => "dedup_cache_seconds must be at least the sender retry deadline, or a late retry is processed as a new signal"@,
                ConfigError::CryptoModule(_) => "crypto_module is not supported by this build. Supported: classical-v1."@,
                ConfigError::SynapseMaxWeight(_, _) => "synapse.max_weight exceeds learning.max_weight"@,
                ConfigError::NoStore => "no storage backend configured"@,
                ConfigError::Migration(_) => "migration failed"@,
                ConfigError::Store(_) => "the storage backend failed"@,
            }),
    {
        match self {
            ConfigError::FireBatchSize => "fire_batch_size must be at least 1, or the node can never process anything",
            ConfigError::MaxQueueDepth => "max_queue_depth must be at least 1",
            ConfigError::BaseThreshold(_) => "base_threshold must be positive",
            ConfigError::MaxPotential(_, _) => "max_potential must be at least base_threshold, or the node can never reach its threshold",
            ConfigError::LeakRate(_) => "leak_rate must be in [0, 1]",
            ConfigError::MaxQueueLatency(_, _) => "max_queue_latency_ms must be at least refractory_period_ms, or the guard can never fire",
            ConfigError::LearningRate(_) => "learning_rate must be in (0, 1]",
            ConfigError::DecayHalfLife(_) => "decay_half_life_hours must be positive",
            ConfigError::MinTemperature => "min_temperature must be positive: a node that stops exploring stops learning",
            ConfigError::WeightBounds(_, _) => "require 0 < min_weight < max_weight",
            ConfigError::OutboundBudget(_, _) => "max_total_outbound_weight must exceed max_weight, or a single synapse could never reach its bound",
            ConfigError::InfluenceCap => "influence_cap_per_peer must be positive",
            ConfigError::SignaturePenalty(_) => "signature_failure_penalty must be in (0, 1]",
            ConfigError::MaxFanout => "max_fanout must be at least 1",
            ConfigError::DefaultTtl => "default_ttl must be at least 1",
            ConfigError::MinPropagationWeight(_) => "min_propagation_weight must be in [0, 1)",
            ConfigError::AttenuationFactor(_) => "attenuation_factor must be in [0, 1]",
            ConfigError::DedupWindow(_, _) => "dedup_cache_seconds must be at least the sender retry deadline, or a late retry is processed as a new signal",
            ConfigError::CryptoModule(_) => "crypto_module is not supported by this build. Supported: classical-v1.",
            ConfigError::SynapseMaxWeight(_, _) => "synapse.max_weight exceeds learning.max_weight",
            ConfigError::NoStore => "no storage backend configured",
            ConfigError::Migration(_) => "migration failed",
            ConfigError::Store(_) => "the storage backend failed",
        }
    }
}

/// Which storage backend a node uses, and how.
#[derive(Debug, PartialEq, Eq)]
pub enum StorageConfig {
    /// One SQLite file: the default.
    Sqlite {
        /// Path to the database file.
        path: String,
        /// Whether to retain signal bodies for replay. Off by default: payloads
        /// are the most sensitive data that a node handles.
        retain_signal_history: bool,
    },
    /// PostgreSQL: planned.
    Postgres {
        /// Connection URL.
        url: String,
        /// Schema to keep the tables in.
        schema: String,
    },
    /// In memory. Nothing survives process exit.
    Memory,
}

/// A storage configuration as a value.
pub enum StorageSetup {
    /// One SQLite file, and whether signal bodies are retained.
    Sqlite(Seq<char>, bool),
    /// PostgreSQL: a URL and a schema.
    Postgres(Seq<char>, Seq<char>),
    /// In memory.
    Memory,
}

impl View for StorageConfig {
    type V = StorageSetup;

    open spec fn view(&self) -> StorageSetup {
        match self {
            StorageConfig::Sqlite { path, retain_signal_history } => StorageSetup::Sqlite(
                path@,
                *retain_signal_history,
            ),
            StorageConfig::Postgres { url, schema } => StorageSetup::Postgres(url@, schema@),
            StorageConfig::Memory => StorageSetup::Memory,
        }
    }
}

impl Clone for StorageConfig {
    fn clone(&self) -> (r: Self)
        ensures
            r@ == self@,
    {
        match self {
            StorageConfig::Sqlite { path, retain_signal_history } => StorageConfig::Sqlite {
                path: path.clone(),
                retain_signal_history: *retain_signal_history,
            },
            StorageConfig::Postgres { url, schema } => StorageConfig::Postgres {
                url: url.clone(),
                schema: schema.clone(),
            },
            StorageConfig::Memory => StorageConfig::Memory,
        }
    }
}

impl Default for StorageConfig {
    fn default() -> (r: Self)
        ensures
            r@ == StorageSetup::Sqlite("~/.ntl/node.db"@, false),
    {
        StorageConfig::Sqlite {
            path: "~/.ntl/node.db".to_string(),
            retain_signal_history: false,
        }
    }
}

/// Network-level configuration.
#[derive(Debug)]
pub struct NetworkConfig {
    /// Bootstrap node addresses.
    pub bootstrap_nodes: Vec<String>,
    /// Address to bind to.
    pub bind_address: String,
    /// Port to listen on.
    pub port: u16,
}

/// A network configuration as a value.
pub struct NetworkSetup {
    /// Bootstrap node addresses.
    pub bootstrap_nodes: Seq<Seq<char>>,
    /// Address to bind to.
    pub bind_address: Seq<char>,
    /// Port to listen on.
    pub port: u16,
}

impl View for NetworkConfig {
    type V = NetworkSetup;

    open spec fn view(&self) -> NetworkSetup {
        NetworkSetup {
            bootstrap_nodes: texts(self.bootstrap_nodes@),
            bind_address: self.bind_address@,
            port: self.port,
        }
    }
}

impl Clone for NetworkConfig {
    fn clone(&self) -> (r: Self)
        ensures
            r@ == self@,
    {
        NetworkConfig {
            bootstrap_nodes: copy_texts(&self.bootstrap_nodes),
            bind_address: self.bind_address.clone(),
            port: self.port,
        }
    }
}

impl NetworkSetup {
    /// The public bootstrap nodes, and the default port on every interface.
    pub open spec fn defaults() -> NetworkSetup {
        NetworkSetup {
            bootstrap_nodes: seq![
                "ntl://bootstrap-1.openntl.org:4433"@,
                "ntl://bootstrap-2.openntl.org:4433"@,
            ],
            bind_address: "0.0.0.0"@,
            port: 4433,
        }
    }
}

impl Default for NetworkConfig {
    fn default() -> (r: Self)
        ensures
            r@ == NetworkSetup::defaults(),
    {
        let mut nodes: Vec<String> = Vec::new();
        nodes.push("ntl://bootstrap-1.openntl.org:4433".to_string());
        nodes.push("ntl://bootstrap-2.openntl.org:4433".to_string());
        let r = NetworkConfig {
            bootstrap_nodes: nodes,
            bind_address: "0.0.0.0".to_string(),
            port: 4433,
        };
        assert(r@.bootstrap_nodes =~= NetworkSetup::defaults().bootstrap_nodes);
        r
    }
}

/// Complete node configuration.
#[derive(Debug)]
pub struct NodeConfig {
    /// Network configuration.
    pub network: NetworkConfig,
    /// Synapse configuration.
    pub synapse: SynapseConfig,
    /// Propagation configuration.
    pub propagation: PropagationConfig,
    /// Activation configuration.
    pub activation: ActivationConfig,
    /// Hyperparameters of the routing model.
    pub learning: LearningConfig,
    /// Sender-side retry policy for acknowledged delivery.
    pub retry: RetryPolicy,
    /// Storage backend configuration.
    pub storage: StorageConfig,
    /// Crypto module to use. It must be one that this build supports.
    pub crypto_module: String,
}

/// A node configuration as a value.
pub struct NodeSetup {
    /// Network configuration.
    pub network: NetworkSetup,
    /// Synapse configuration.
    pub synapse: SynapseSetup,
    /// Propagation configuration.
    pub propagation: PropagationSetup,
    /// Activation configuration.
    pub activation: ActivationConfig,
    /// Hyperparameters of the routing model.
    pub learning: LearningConfig,
    /// Sender-side retry policy.
    pub retry: RetryPolicy,
    /// Storage backend configuration.
    pub storage: StorageSetup,
    /// Crypto module to use.
    pub crypto_module: Seq<char>,
}

impl View for NodeConfig {
    type V = NodeSetup;

    open spec fn view(&self) -> NodeSetup {
        NodeSetup {
            network: self.network@,
            synapse: self.synapse@,
            propagation: self.propagation@,
            activation: self.activation,
            learning: self.learning,
            retry: self.retry,
            storage: self.storage@,
            crypto_module: self.crypto_module@,
        }
    }
}

impl Clone for NodeConfig {
    fn clone(&self) -> (r: Self)
        ensures
            r@ == self@,
    {
        NodeConfig {
            network: self.network.clone(),
            synapse: self.synapse.clone(),
            propagation: self.propagation.clone(),
            activation: self.activation,
            learning: self.learning,
            retry: self.retry,
            storage: self.storage.clone(),
            crypto_module: self.crypto_module.clone(),
        }
    }
}

impl NodeSetup {
    /// The defaults.
    pub open spec fn defaults() -> NodeSetup {
        NodeSetup {
            network: NetworkSetup::defaults(),
            synapse: SynapseSetup::defaults(),
            propagation: PropagationSetup::defaults(),
            activation: ActivationConfig::class_defaults(NodeClass::Edge),
            learning: LearningConfig::class_defaults(DeploymentClass::Edge),
            retry: RetryPolicy {
                base_ms: 1_000,
                cap_ms: 30_000,
                max_attempts: 5,
                total_deadline_secs: 300,
            },
            storage: StorageSetup::Sqlite("~/.ntl/node.db"@, false),
            crypto_module: "classical-v1"@,
        }
    }

    /// The hardware class that goes with a deployment class.
    pub open spec fn hardware(class: DeploymentClass) -> NodeClass {
        match class {
            DeploymentClass::Edge => NodeClass::Edge,
            DeploymentClass::FullNode => NodeClass::Standard,
            DeploymentClass::HighTraffic => NodeClass::Server,
        }
    }

    /// The fanout that goes with a deployment class.
    pub open spec fn fanout(class: DeploymentClass) -> usize {
        match class {
            DeploymentClass::Edge => 3,
            DeploymentClass::FullNode => 5,
            DeploymentClass::HighTraffic => 8,
        }
    }

    /// The defaults of a class: activation, fanout and learning that go
    /// together.
    pub open spec fn class_defaults(class: DeploymentClass) -> NodeSetup {
        NodeSetup {
            activation: ActivationConfig::class_defaults(NodeSetup::hardware(class)),
            propagation: PropagationSetup {
                max_fanout: NodeSetup::fanout(class),
                ..PropagationSetup::defaults()
            },
            learning: LearningConfig::class_defaults(class),
            ..NodeSetup::defaults()
        }
    }

    /// Whether an error is the first inconsistency of the configuration.
    pub open spec fn is_fault(self, e: ConfigError) -> bool {
        if self.activation.fault() is Some {
            Some(e) == self.activation.fault()
        } else if self.learning.fault() is Some {
            Some(e) == self.learning.fault()
        } else if self.propagation.fault(self.retry.total_deadline_secs) is Some {
            Some(e) == self.propagation.fault(self.retry.total_deadline_secs)
        } else if self.crypto_module != "classical-v1"@ {
            e matches ConfigError::CryptoModule(name) && name@ == self.crypto_module
        } else {
            e == ConfigError::SynapseMaxWeight(self.synapse.max_weight, self.learning.max_weight)
        }
    }

    /// Whether the configuration is consistent.
    pub open spec fn valid(self) -> bool {
        &&& self.activation.fault() is None
        &&& self.learning.fault() is None
        &&& self.propagation.fault(self.retry.total_deadline_secs) is None
        &&& self.crypto_module == "classical-v1"@
        &&& !self.learning.max_weight.below(self.synapse.max_weight)
    }
}

impl Default for NodeConfig {
    fn default() -> (r: Self)
        ensures
            r@ == NodeSetup::defaults(),
    {
        let module = match default_module() {
            Some(name) => name,
            None => "classical-v1",
        };
        NodeConfig {
            network: NetworkConfig::default(),
            synapse: SynapseConfig::default(),
            propagation: PropagationConfig::default(),
            activation: ActivationConfig::default(),
            learning: LearningConfig::for_class(DeploymentClass::Edge),
            retry: RetryPolicy::default(),
            storage: StorageConfig::default(),
            crypto_module: module.to_string(),
        }
    }
}

impl NodeConfig {
    /// Defaults for a deployment class, with activation and learning chosen to
    /// go together.
    pub fn for_class(class: DeploymentClass) -> (r: NodeConfig)
        ensures
            r@ == NodeSetup::class_defaults(class),
    {
        let hardware = match class {
            DeploymentClass::Edge => NodeClass::Edge,
            DeploymentClass::FullNode => NodeClass::Standard,
            DeploymentClass::HighTraffic => NodeClass::Server,
        };
        let mut r = NodeConfig::default();
        r.activation = ActivationConfig::for_class(hardware);
        r.propagation.max_fanout = match class {
            DeploymentClass::Edge => 3,
            DeploymentClass::FullNode => 5,
            DeploymentClass::HighTraffic => 8,
        };
        r.learning = LearningConfig::for_class(class);
        r
    }

    /// Validate the whole configuration.
    pub fn validate(&self) -> (r: Result<(), ConfigError>)
        ensures
            r is Ok <==> self@.valid(),
            r matches Err(e) ==> self@.is_fault(e),
    {
        match self.activation.validate() {
            Err(e) => return Err(e),
            Ok(()) => {},
        }
        match self.learning.validate() {
            Err(e) => return Err(e),
            Ok(()) => {},
        }
        match self.propagation.validate(self.retry.required_dedup_secs()) {
            Err(e) => return Err(e),
            Ok(()) => {},
        }
        if !same_text(self.crypto_module.as_str(), "classical-v1") {
            return Err(ConfigError::CryptoModule(self.crypto_module.clone()));
        }
        if self.learning.max_weight.lt(self.synapse.max_weight) {
            return Err(
                ConfigError::SynapseMaxWeight(self.synapse.max_weight, self.learning.max_weight),
            );
        }
        Ok(())
    }
}

/// The defaults of every deployment class are consistent, and so are the
/// defaults without one.
pub proof fn lemma_class_defaults_validate(class: DeploymentClass)
    ensures
        NodeSetup::class_defaults(class).valid(),
        NodeSetup::defaults().valid(),
{
    crate::activation::lemma_class_defaults_validate(NodeSetup::hardware(class));
    crate::activation::lemma_class_defaults_validate(NodeClass::Edge);
    crate::learning::lemma_class_defaults_validate(class);
    crate::learning::lemma_class_defaults_validate(DeploymentClass::Edge);
}

/// A configuration whose deduplication window is shorter than the retry
/// deadline is refused.
pub proof fn lemma_dedup_must_cover_the_retries(setup: NodeSetup)
    requires
        setup.propagation.dedup_cache_seconds < setup.retry.total_deadline_secs,
    ensures
        !setup.valid(),
{
}

} // verus!
