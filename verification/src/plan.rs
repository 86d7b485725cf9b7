//! Planning one write cycle: which records reach the SQL store and
//! which cache keys get marked afterwards.
//!
//! The cache lookup itself happens outside; this module takes the
//! presence answers and decides. A `Contract` whose cache key was
//! already present is suppressed; every other record is written.

use vstd::prelude::*;

use crate::etl::EtlResult;
use crate::registry::InsertTree;
use crate::render::{block_value_of, cache_key_of, contract_value_of, transaction_value_of};
use crate::text::views_of;

verus! {

/// Every record of the batch is well formed.
pub open spec fn results_wf(results: Seq<EtlResult>) -> bool {
    forall|i: int| 0 <= i < results.len() ==> match #[trigger] results[i] {
        EtlResult::Transaction(t) => t.wf(),
        EtlResult::Contract(c) => c.wf(),
        EtlResult::BlockWithChainId(b) => b.block.wf(),
    }
}

/// How many contracts the batch holds.
pub open spec fn n_contracts(results: Seq<EtlResult>) -> int
    decreases results.len(),
{
    if results.len() == 0 {
        0
    } else {
        n_contracts(results.drop_last()) + if results.last() is Contract {
            1int
        } else {
            0int
        }
    }
}

/// The cache keys of the batch's contracts, in batch order; the
/// presence of each decides suppression.
pub open spec fn contract_keys(results: Seq<EtlResult>) -> Seq<Seq<char>>
    decreases results.len(),
{
    if results.len() == 0 {
        Seq::empty()
    } else {
        match results.last() {
            EtlResult::Contract(c) => contract_keys(results.drop_last()).push(cache_key_of(c)),
            _ => contract_keys(results.drop_last()),
        }
    }
}

/// The transaction tuples of the batch, in order: never suppressed.
pub open spec fn plan_txs(results: Seq<EtlResult>) -> Seq<Seq<char>>
    decreases results.len(),
{
    if results.len() == 0 {
        Seq::empty()
    } else {
        match results.last() {
            EtlResult::Transaction(t) => plan_txs(results.drop_last()).push(
                transaction_value_of(t),
            ),
            _ => plan_txs(results.drop_last()),
        }
    }
}

/// The block tuples of the batch, in order: never suppressed.
pub open spec fn plan_blocks(results: Seq<EtlResult>) -> Seq<(u64, u64, Seq<char>)>
    decreases results.len(),
{
    if results.len() == 0 {
        Seq::empty()
    } else {
        match results.last() {
            EtlResult::BlockWithChainId(b) => plan_blocks(results.drop_last()).push(
                (b.chain_id, b.block.number, block_value_of(b)),
            ),
            _ => plan_blocks(results.drop_last()),
        }
    }
}

/// The contract tuples that reach the store: the batch's `k`-th
/// contract is written exactly when `present[k]` is false.
pub open spec fn plan_contracts(results: Seq<EtlResult>, present: Seq<bool>) -> Seq<Seq<char>>
    decreases results.len(),
{
    if results.len() == 0 {
        Seq::empty()
    } else {
        match results.last() {
            EtlResult::Contract(c) => if present[n_contracts(results.drop_last())] {
                plan_contracts(results.drop_last(), present)
            } else {
                plan_contracts(results.drop_last(), present).push(contract_value_of(c))
            },
            _ => plan_contracts(results.drop_last(), present),
        }
    }
}

/// The cache keys to mark after a durable write: the keys of exactly
/// the contracts that were written.
pub open spec fn plan_keys(results: Seq<EtlResult>, present: Seq<bool>) -> Seq<Seq<char>>
    decreases results.len(),
{
    if results.len() == 0 {
        Seq::empty()
    } else {
        match results.last() {
            EtlResult::Contract(c) => if present[n_contracts(results.drop_last())] {
                plan_keys(results.drop_last(), present)
            } else {
                plan_keys(results.drop_last(), present).push(cache_key_of(c))
            },
            _ => plan_keys(results.drop_last(), present),
        }
    }
}

/// Contract counts grow along the batch.
pub proof fn lemma_n_contracts_take(results: Seq<EtlResult>, i: int)
    requires
        0 <= i <= results.len(),
    ensures
        0 <= n_contracts(results.take(i)) <= n_contracts(results),
    decreases results.len(),
{
    if results.len() > 0 {
        if i == results.len() {
            assert(results.take(i) =~= results);
            lemma_n_contracts_take(results.drop_last(), results.len() - 1);
            assert(results.drop_last() =~= results.take(results.len() - 1));
        } else {
            lemma_n_contracts_take(results.drop_last(), i);
            assert(results.drop_last().take(i) =~= results.take(i));
        }
    }
}

/// One write cycle: the registry to execute and the keys to mark.
pub struct InsertPlan {
    pub tree: InsertTree,
    pub keys_to_set: Vec<String>,
}

/// The cache keys to look up before planning, one per contract of the
/// batch, in batch order.
pub fn cache_keys(results: &Vec<EtlResult>) -> (r: Vec<String>)
    requires
        results_wf(results@),
    ensures
        views_of(r@) == contract_keys(results@),
{
    let ghost rv = results@;
    let mut r: Vec<String> = Vec::new();
    proof {
        assert(views_of(r@) =~= contract_keys(rv.take(0)));
    }
    let mut i: usize = 0;
    while i < results.len()
        invariant
            i <= rv.len(),
            rv == results@,
            results_wf(rv),
            views_of(r@) == contract_keys(rv.take(i as int)),
        decreases rv.len() - i,
    {
        proof {
            assert(rv.take(i + 1).drop_last() =~= rv.take(i as int));
            assert(rv.take(i + 1).last() == rv[i as int]);
        }
        match &results[i] {
            EtlResult::Contract(c) => {
                let key = c.cache_key();
                r.push(key);
                proof {
                    assert(views_of(r@) =~= contract_keys(rv.take(i + 1)));
                }
            },
            _ => {},
        }
        i = i + 1;
    }
    proof {
        assert(rv.take(rv.len() as int) =~= rv);
    }
    r
}

/// Plans one write cycle from the batch and the cache's presence
/// answers (one per contract, in batch order; all false when no cache
/// is configured). The batch's `k`-th contract is suppressed exactly
/// when `present[k]`; transactions and blocks are always written; the
/// keys to mark are those of the written contracts.
pub fn plan_inserts(results: &Vec<EtlResult>, present: &Vec<bool>) -> (p: InsertPlan)
    requires
        results_wf(results@),
        present@.len() == n_contracts(results@),
    ensures
        p.tree.txs_view() == plan_txs(results@),
        p.tree.contracts_view() == plan_contracts(results@, present@),
        p.tree.blocks_view() == plan_blocks(results@),
        views_of(p.keys_to_set@) == plan_keys(results@, present@),
{
    let ghost rv = results@;
    let mut tree = InsertTree::new();
    let mut keys_to_set: Vec<String> = Vec::new();
    let mut ci: usize = 0;
    proof {
        assert(views_of(keys_to_set@) =~= plan_keys(rv.take(0), present@));
    }
    let mut i: usize = 0;
    while i < results.len()
        invariant
            i <= rv.len(),
            rv == results@,
            results_wf(rv),
            present@.len() == n_contracts(rv),
            ci == n_contracts(rv.take(i as int)),
            tree.txs_view() == plan_txs(rv.take(i as int)),
            tree.contracts_view() == plan_contracts(rv.take(i as int), present@),
            tree.blocks_view() == plan_blocks(rv.take(i as int)),
            views_of(keys_to_set@) == plan_keys(rv.take(i as int), present@),
        decreases rv.len() - i,
    {
        proof {
            assert(rv.take(i + 1).drop_last() =~= rv.take(i as int));
            assert(rv.take(i + 1).last() == rv[i as int]);
            lemma_n_contracts_take(rv, i + 1);
        }
        match &results[i] {
            EtlResult::Contract(c) => {
                let bound = present.len();
                proof {
                    assert(ci + 1 == n_contracts(rv.take(i + 1)));
                    assert(ci < bound);
                }
                if !present[ci] {
                    tree.insert(&results[i]);
                    let key = c.cache_key();
                    keys_to_set.push(key);
                    proof {
                        assert(views_of(keys_to_set@) =~= plan_keys(rv.take(i + 1), present@));
                    }
                }
                ci = ci + 1;
            },
            _ => {
                tree.insert(&results[i]);
            },
        }
        i = i + 1;
    }
    proof {
        assert(rv.take(rv.len() as int) =~= rv);
    }
    InsertPlan { tree, keys_to_set }
}

} // verus!
