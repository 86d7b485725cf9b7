//! Per-chain source configuration.
//!
//! A chain is fed either from a message broker (a topic per record
//! kind) or from a provider endpoint pair (RPC plus push channel).

use vstd::prelude::*;

verus! {

/// A chain fed by a provider: request/response RPC plus a push channel
/// for new block headers.
#[derive(Clone)]
pub struct ProviderChainConfig {
    pub id: u64,
    pub rpc_url: String,
    pub ws_url: String,
    pub index_block: bool,
    pub index_tx: bool,
}

/// A chain fed from the message broker; either topic may be absent.
#[derive(Clone)]
pub struct KafkaChainConfig {
    pub id: u64,
    pub traces_topic: Option<String>,
    pub blocks_topic: Option<String>,
}

/// One configured chain.
#[derive(Clone)]
pub enum Chain {
    Provider(ProviderChainConfig),
    Kafka(KafkaChainConfig),
}

impl Chain {
    /// The numeric chain behind either variant.
    pub open spec fn spec_chain_id(&self) -> u64 {
        match self {
            Chain::Provider(config) => config.id,
            Chain::Kafka(config) => config.id,
        }
    }

    /// The numeric chain behind either variant.
    pub fn chain_id(&self) -> (r: u64)
        ensures
            r == self.spec_chain_id(),
    {
        match self {
            Chain::Provider(config) => config.id,
            Chain::Kafka(config) => config.id,
        }
    }
}

} // verus!
