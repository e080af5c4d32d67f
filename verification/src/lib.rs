//! Neural Transfer Layer: signal propagation over synapses that learn which
//! paths deliver.

pub mod activation;
pub mod adapter;
pub mod arith;
pub mod budget;
pub mod cli;
pub mod config;
pub mod crypto;
pub mod csprng;
pub mod curves;
pub mod decay;
pub mod delivery;
pub mod error;
pub mod frame;
pub mod identity;
pub mod keyed;
pub mod laws;
pub mod learning;
pub mod memory;
pub mod node;
pub mod order;
pub mod postgres;
pub mod propagation;
pub mod relay;
pub mod rng;
pub mod scalar;
pub mod session;
pub mod signal;
pub mod sqlite;
pub mod store;
pub mod synapse;
pub mod testing;
pub mod text;
pub mod time;
