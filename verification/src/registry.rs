//! The insert registry: groups rendered value tuples by statement
//! template and joins each group into one SQL statement.
//!
//! Blocks get a last-wins pass first: of adjacent observations of the
//! same `(chain_id, number)`, only the last survives, so a later
//! observation within one batch overwrites an earlier one.

use vstd::prelude::*;

use crate::etl::{BlockWithChainId, Contract, EtlResult, Transaction};
use crate::render::{block_value_of, cache_key_of, contract_value_of, transaction_value_of};
use crate::text::{join_of, push_joined, views_of};

verus! {

/// A record kind that renders itself into an insert statement.
pub trait Insertable {
    /// What the record must satisfy to render.
    spec fn insert_wf(&self) -> bool;

    /// The tuple this record renders to.
    spec fn value_of(&self) -> Seq<char>;

    /// The statement template; `{values}` stands for the joined value
    /// tuples.
    fn insert_query(&self) -> &'static str;

    /// This record as one value tuple.
    fn value(&self) -> (r: String)
        requires
            self.insert_wf(),
        ensures
            r@ == self.value_of(),
    ;
}

impl Insertable for Transaction {
    open spec fn insert_wf(&self) -> bool {
        self.wf()
    }

    open spec fn value_of(&self) -> Seq<char> {
        transaction_value_of(*self)
    }

    fn insert_query(&self) -> &'static str {
        "INSERT INTO transactions (chain_id, from_address, to_address, closest_address, function_signature, transaction_hash, transaction_index, block_number, block_timestamp, block_hash, value, input, gas_used_requested, gas_used_total, gas_used_first_degree, gas_used_second_degree, ec_recover_count, ec_add_count, ec_mul_count, ec_pairing_count, ec_pairing_input_sizes, ec_recover_addresses, error) VALUES {values} ON CONFLICT (chain_id, transaction_hash) DO NOTHING"
    }

    fn value(&self) -> (r: String) {
        Transaction::value(self)
    }
}

impl Insertable for Contract {
    open spec fn insert_wf(&self) -> bool {
        self.wf()
    }

    open spec fn value_of(&self) -> Seq<char> {
        contract_value_of(*self)
    }

    fn insert_query(&self) -> &'static str {
        "INSERT INTO contracts (chain_id, address, function_signatures, degree, ec_recover_count, ec_add_count, ec_mul_count, ec_pairing_count, ec_pairing_input_sizes, call) VALUES {values} ON CONFLICT (chain_id, address, function_signatures) DO NOTHING"
    }

    fn value(&self) -> (r: String) {
        Contract::value(self)
    }
}

impl Insertable for BlockWithChainId {
    open spec fn insert_wf(&self) -> bool {
        self.block.wf()
    }

    open spec fn value_of(&self) -> Seq<char> {
        block_value_of(*self)
    }

    fn insert_query(&self) -> &'static str {
        "INSERT INTO blocks (chain_id, number, timestamp, hash, parent_hash, transaction_count, nonce, miner, difficulty, total_difficulty, size, gas_limit, gas_used, base_fee_per_gas) VALUES {values} ON CONFLICT (chain_id, number) DO UPDATE SET timestamp = EXCLUDED.timestamp, hash = EXCLUDED.hash, parent_hash = EXCLUDED.parent_hash, transaction_count = EXCLUDED.transaction_count, nonce = EXCLUDED.nonce, miner = EXCLUDED.miner, difficulty = EXCLUDED.difficulty, total_difficulty = EXCLUDED.total_difficulty, size = EXCLUDED.size, gas_limit = EXCLUDED.gas_limit, gas_used = EXCLUDED.gas_used, base_fee_per_gas = EXCLUDED.base_fee_per_gas"
    }

    fn value(&self) -> (r: String) {
        BlockWithChainId::value(self)
    }
}

/// One buffered block observation: its key and its rendered tuple.
pub struct BlockRow {
    pub chain_id: u64,
    pub number: u64,
    pub rendered: String,
}

/// The tuples that survive the last-wins pass, starting at `i`: of an
/// adjacent run with one `(chain_id, number)`, only the run's last.
pub open spec fn dedup_from(rows: Seq<(u64, u64, Seq<char>)>, i: int) -> Seq<Seq<char>>
    decreases rows.len() - i,
{
    if i < 0 || i >= rows.len() {
        Seq::empty()
    } else if i == rows.len() - 1 {
        seq![rows[i].2]
    } else if rows[i].0 == rows[i + 1].0 && rows[i].1 == rows[i + 1].1 {
        dedup_from(rows, i + 1)
    } else {
        seq![rows[i].2] + dedup_from(rows, i + 1)
    }
}

/// Groups rendered value tuples by record kind.
pub struct InsertTree {
    transactions: Vec<String>,
    contracts: Vec<String>,
    blocks: Vec<BlockRow>,
}

impl InsertTree {
    /// The buffered transaction tuples, in arrival order.
    pub closed spec fn txs_view(&self) -> Seq<Seq<char>> {
        views_of(self.transactions@)
    }

    /// The buffered contract tuples, in arrival order.
    pub closed spec fn contracts_view(&self) -> Seq<Seq<char>> {
        views_of(self.contracts@)
    }

    /// The buffered block observations, in arrival order.
    pub closed spec fn blocks_view(&self) -> Seq<(u64, u64, Seq<char>)> {
        self.blocks@.map_values(|r: BlockRow| (r.chain_id, r.number, r.rendered@))
    }

    /// An empty registry.
    pub fn new() -> (r: InsertTree)
        ensures
            r.txs_view() == Seq::<Seq<char>>::empty(),
            r.contracts_view() == Seq::<Seq<char>>::empty(),
            r.blocks_view() == Seq::<(u64, u64, Seq<char>)>::empty(),
    {
        let r = InsertTree { transactions: Vec::new(), contracts: Vec::new(), blocks: Vec::new() };
        proof {
            assert(r.txs_view() =~= Seq::<Seq<char>>::empty());
            assert(r.contracts_view() =~= Seq::<Seq<char>>::empty());
            assert(r.blocks_view() =~= Seq::<(u64, u64, Seq<char>)>::empty());
        }
        r
    }

    /// Buffers one record's value tuple under its kind.
    pub fn insert(&mut self, result: &EtlResult)
        requires
            result matches EtlResult::Transaction(t) ==> t.wf(),
            result matches EtlResult::Contract(c) ==> c.wf(),
            result matches EtlResult::BlockWithChainId(b) ==> b.block.wf(),
        ensures
            match result {
                EtlResult::Transaction(t) => {
                    &&& final(self).txs_view() == old(self).txs_view().push(
                        transaction_value_of(*t),
                    )
                    &&& final(self).contracts_view() == old(self).contracts_view()
                    &&& final(self).blocks_view() == old(self).blocks_view()
                },
                EtlResult::Contract(c) => {
                    &&& final(self).contracts_view() == old(self).contracts_view().push(
                        contract_value_of(*c),
                    )
                    &&& final(self).txs_view() == old(self).txs_view()
                    &&& final(self).blocks_view() == old(self).blocks_view()
                },
                EtlResult::BlockWithChainId(b) => {
                    &&& final(self).blocks_view() == old(self).blocks_view().push(
                        (b.chain_id, b.block.number, block_value_of(*b)),
                    )
                    &&& final(self).txs_view() == old(self).txs_view()
                    &&& final(self).contracts_view() == old(self).contracts_view()
                },
            },
    {
        match result {
            EtlResult::Transaction(t) => {
                self.transactions.push(t.value());
                proof {
                    assert(self.txs_view() =~= old(self).txs_view().push(
                        transaction_value_of(*t),
                    ));
                    assert(self.contracts_view() =~= old(self).contracts_view());
                    assert(self.blocks_view() =~= old(self).blocks_view());
                }
            },
            EtlResult::Contract(c) => {
                self.contracts.push(c.value());
                proof {
                    assert(self.contracts_view() =~= old(self).contracts_view().push(
                        contract_value_of(*c),
                    ));
                    assert(self.txs_view() =~= old(self).txs_view());
                    assert(self.blocks_view() =~= old(self).blocks_view());
                }
            },
            EtlResult::BlockWithChainId(b) => {
                self.blocks.push(
                    BlockRow { chain_id: b.chain_id, number: b.block.number, rendered: b.value() },
                );
                proof {
                    assert(self.blocks_view() =~= old(self).blocks_view().push(
                        (b.chain_id, b.block.number, block_value_of(*b)),
                    ));
                    assert(self.txs_view() =~= old(self).txs_view());
                    assert(self.contracts_view() =~= old(self).contracts_view());
                }
            },
        }
    }

    /// The block tuples after the last-wins pass, from `i` on.
    fn dedup_blocks_from(&self, i: usize) -> (r: Vec<String>)
        requires
            i <= self.blocks_view().len(),
        ensures
            views_of(r@) == dedup_from(self.blocks_view(), i as int),
        decreases self.blocks_view().len() - i,
    {
        let bs = &self.blocks;
        if i >= bs.len() {
            let r: Vec<String> = Vec::new();
            proof {
                assert(views_of(r@) =~= dedup_from(self.blocks_view(), i as int));
            }
            r
        } else if i == bs.len() - 1 {
            let mut r: Vec<String> = Vec::new();
            r.push(bs[i].rendered.clone());
            proof {
                assert(views_of(r@) =~= dedup_from(self.blocks_view(), i as int));
            }
            r
        } else if bs[i].chain_id == bs[i + 1].chain_id && bs[i].number == bs[i + 1].number {
            self.dedup_blocks_from(i + 1)
        } else {
            let rest = self.dedup_blocks_from(i + 1);
            let mut r: Vec<String> = Vec::new();
            r.push(bs[i].rendered.clone());
            let mut k: usize = 0;
            let ghost rest_views = views_of(rest@);
            while k < rest.len()
                invariant
                    k <= rest@.len(),
                    i < self.blocks_view().len(),
                    rest_views == views_of(rest@),
                    r@.len() == k + 1,
                    r@[0]@ == self.blocks_view()[i as int].2,
                    forall|j: int| 0 <= j < k ==> (#[trigger] r@[j + 1])@ == rest_views[j],
                decreases rest@.len() - k,
            {
                r.push(rest[k].clone());
                k = k + 1;
            }
            proof {
                assert forall|j: int| 0 <= j < r@.len() implies #[trigger] views_of(r@)[j] == (
                seq![self.blocks_view()[i as int].2] + rest_views)[j] by {
                    assert(views_of(r@)[j] == r@[j]@);
                    if j > 0 {
                        assert(r@[(j - 1) + 1]@ == rest_views[j - 1]);
                    }
                }
                assert(views_of(r@) =~= seq![self.blocks_view()[i as int].2] + rest_views);
                assert(views_of(r@) =~= dedup_from(self.blocks_view(), i as int));
            }
            r
        }
    }

    /// The full statements to execute, one per non-empty kind:
    /// transactions, then contracts, then blocks, each `{values}`
    /// replaced by the joined tuples, blocks deduped last-wins.
    pub fn statements(&self) -> (r: Vec<String>)
        ensures
            views_of(r@) == statements_of(
                self.txs_view(),
                self.contracts_view(),
                self.blocks_view(),
            ),
    {
        let mut r: Vec<String> = Vec::new();
        if self.transactions.len() > 0 {
            let mut s = String::new();
            s.append(TX_PREFIX);
            push_joined(&mut s, &self.transactions, ",");
            s.append(TX_SUFFIX);
            r.push(s);
        }
        if self.contracts.len() > 0 {
            let mut s = String::new();
            s.append(CONTRACT_PREFIX);
            push_joined(&mut s, &self.contracts, ",");
            s.append(CONTRACT_SUFFIX);
            r.push(s);
        }
        if self.blocks.len() > 0 {
            let deduped = self.dedup_blocks_from(0);
            let mut s = String::new();
            s.append(BLOCK_PREFIX);
            push_joined(&mut s, &deduped, ",");
            s.append(BLOCK_SUFFIX);
            r.push(s);
        }
        proof {
            assert(views_of(r@) =~= statements_of(
                self.txs_view(),
                self.contracts_view(),
                self.blocks_view(),
            ));
        }
        r
    }
}

pub const TX_PREFIX: &'static str =
    "INSERT INTO transactions (chain_id, from_address, to_address, closest_address, function_signature, transaction_hash, transaction_index, block_number, block_timestamp, block_hash, value, input, gas_used_requested, gas_used_total, gas_used_first_degree, gas_used_second_degree, ec_recover_count, ec_add_count, ec_mul_count, ec_pairing_count, ec_pairing_input_sizes, ec_recover_addresses, error) VALUES ";

pub const TX_SUFFIX: &'static str =
    " ON CONFLICT (chain_id, transaction_hash) DO NOTHING";

pub const CONTRACT_PREFIX: &'static str =
    "INSERT INTO contracts (chain_id, address, function_signatures, degree, ec_recover_count, ec_add_count, ec_mul_count, ec_pairing_count, ec_pairing_input_sizes, call) VALUES ";

pub const CONTRACT_SUFFIX: &'static str =
    " ON CONFLICT (chain_id, address, function_signatures) DO NOTHING";

pub const BLOCK_PREFIX: &'static str =
    "INSERT INTO blocks (chain_id, number, timestamp, hash, parent_hash, transaction_count, nonce, miner, difficulty, total_difficulty, size, gas_limit, gas_used, base_fee_per_gas) VALUES ";

pub const BLOCK_SUFFIX: &'static str =
    " ON CONFLICT (chain_id, number) DO UPDATE SET timestamp = EXCLUDED.timestamp, hash = EXCLUDED.hash, parent_hash = EXCLUDED.parent_hash, transaction_count = EXCLUDED.transaction_count, nonce = EXCLUDED.nonce, miner = EXCLUDED.miner, difficulty = EXCLUDED.difficulty, total_difficulty = EXCLUDED.total_difficulty, size = EXCLUDED.size, gas_limit = EXCLUDED.gas_limit, gas_used = EXCLUDED.gas_used, base_fee_per_gas = EXCLUDED.base_fee_per_gas";

/// The statements a registry with these buffers executes.
pub open spec fn statements_of(
    txs: Seq<Seq<char>>,
    contracts: Seq<Seq<char>>,
    blocks: Seq<(u64, u64, Seq<char>)>,
) -> Seq<Seq<char>> {
    (if txs.len() > 0 {
        seq![TX_PREFIX@ + join_of(txs, ","@) + TX_SUFFIX@]
    } else {
        Seq::<Seq<char>>::empty()
    }) + (if contracts.len() > 0 {
        seq![CONTRACT_PREFIX@ + join_of(contracts, ","@) + CONTRACT_SUFFIX@]
    } else {
        Seq::<Seq<char>>::empty()
    }) + (if blocks.len() > 0 {
        seq![BLOCK_PREFIX@ + join_of(dedup_from(blocks, 0), ","@) + BLOCK_SUFFIX@]
    } else {
        Seq::<Seq<char>>::empty()
    })
}

} // verus!
