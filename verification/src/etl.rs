//! The derived records that the pipeline persists.

use vstd::prelude::*;

use crate::ids::{Address, Hash32, Hash8, Sig};
use crate::sets::{AddrSet, SigSet};

verus! {

/// One observed block.
#[derive(Clone)]
pub struct Block {
    pub number: u64,
    pub timestamp: u64,
    pub hash: Hash32,
    pub parent_hash: Hash32,
    pub transaction_count: u32,
    pub nonce: Hash8,
    pub miner: Address,
    pub difficulty: u64,
    pub total_difficulty: u64,
    pub size: u32,
    pub gas_limit: u64,
    pub gas_used: u64,
    pub base_fee_per_gas: u64,
}

impl Block {
    /// Widths of the fixed-width fields are right.
    pub open spec fn wf(&self) -> bool {
        &&& self.hash.wf()
        &&& self.parent_hash.wf()
        &&& self.nonce.wf()
        &&& self.miner.wf()
    }
}

/// A block tagged with the chain it was observed on.
#[derive(Clone)]
pub struct BlockWithChainId {
    pub chain_id: u64,
    pub block: Block,
}

/// One contract in the first- or second-degree neighbourhood of a
/// trigger precompile within one transaction.
#[derive(Clone)]
pub struct Contract {
    pub chain_id: u64,
    pub address: Address,
    /// Every selector this contract was called with.
    pub function_signatures: SigSet,
    /// 0 when the contract called a trigger precompile directly, 1 when
    /// it called such a caller.
    pub degree: u8,
    pub ec_recover_count: u16,
    pub ec_add_count: u16,
    pub ec_mul_count: u16,
    pub ec_pairing_count: u16,
    /// Input widths of this contract's pairing calls, in call order.
    pub ec_pairing_input_sizes: Vec<u32>,
    /// The lower-degree addresses this contract called.
    pub call: AddrSet,
}

/// Gas figures of an emitted transaction.
#[derive(Clone)]
pub struct GasUsed {
    /// Gas offered by the root call.
    pub requested: u64,
    /// Gas spent by the root call.
    pub total: u64,
    /// Gas spent by calls out of first-degree callers.
    pub first_degree: u64,
    /// Gas spent by calls out of second-degree callers.
    pub second_degree: u64,
}

/// The summary of one emitted transaction.
#[derive(Clone)]
pub struct Transaction {
    pub chain_id: u64,
    pub from_address: Address,
    pub to_address: Address,
    /// Second-degree callers when any exist, else first-degree callers.
    pub closest_address: AddrSet,
    pub function_signature: Sig,
    pub transaction_hash: Hash32,
    pub transaction_index: u32,
    pub block_number: u64,
    pub block_timestamp: Option<u64>,
    pub block_hash: Option<Hash32>,
    pub value: u128,
    pub input: Vec<u8>,
    pub gas_used: GasUsed,
    pub ec_recover_count: u16,
    pub ec_add_count: u16,
    pub ec_mul_count: u16,
    pub ec_pairing_count: u16,
    /// Input widths of every pairing call, in call order.
    pub ec_pairing_input_sizes: Vec<u32>,
    /// Addresses recovered by `ecrecover` calls.
    pub ec_recover_addresses: AddrSet,
    pub error: Option<String>,
}

/// One derived record on its way to the stores.
#[derive(Clone)]
pub enum EtlResult {
    BlockWithChainId(BlockWithChainId),
    Contract(Contract),
    Transaction(Transaction),
}

impl EtlResult {
    /// The chain the record belongs to.
    pub open spec fn spec_chain_id(&self) -> u64 {
        match self {
            EtlResult::Contract(contract) => contract.chain_id,
            EtlResult::Transaction(transaction) => transaction.chain_id,
            EtlResult::BlockWithChainId(block) => block.chain_id,
        }
    }

    /// The chain the record belongs to.
    pub fn chain_id(&self) -> (r: u64)
        ensures
            r == self.spec_chain_id(),
    {
        match self {
            EtlResult::Contract(contract) => contract.chain_id,
            EtlResult::Transaction(transaction) => transaction.chain_id,
            EtlResult::BlockWithChainId(block) => block.chain_id,
        }
    }
}

} // verus!
