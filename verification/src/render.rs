//! Rendering of derived records as SQL value tuples.
//!
//! Each record kind renders to one parenthesised tuple whose exact
//! characters are stated; the insert registry joins the tuples into
//! full statements.

use vstd::prelude::*;

use crate::checksum::{checksum_of, checksum_string};
use crate::etl::{BlockWithChainId, Contract, Transaction};
use crate::sets::{AddrSet, SigSet};
use crate::text::{
    dec_of, hex_of, join_of, push_dec_u128, push_dec_u64, push_hex, push_joined, views_of,
};

verus! {

/// A byte string as `0x` plus lower-case hex.
pub open spec fn hex0x(b: Seq<u8>) -> Seq<char> {
    "0x"@ + hex_of(b)
}

/// Checksummed addresses, each wrapped in double quotes.
pub open spec fn checksum_items(addrs: Seq<Seq<u8>>) -> Seq<Seq<char>> {
    Seq::new(addrs.len(), |i: int| "\""@ + checksum_of(addrs[i]) + "\""@)
}

/// Selectors as quoted `0x`-hex.
pub open spec fn sig_items(sigs: Seq<Seq<u8>>) -> Seq<Seq<char>> {
    Seq::new(sigs.len(), |i: int| "\""@ + hex0x(sigs[i]) + "\""@)
}

/// Selectors as bare `0x`-hex, for the cache key.
pub open spec fn sig_key_items(sigs: Seq<Seq<u8>>) -> Seq<Seq<char>> {
    Seq::new(sigs.len(), |i: int| hex0x(sigs[i]))
}

/// Numbers in decimal.
pub open spec fn dec_items(xs: Seq<u32>) -> Seq<Seq<char>> {
    Seq::new(xs.len(), |i: int| dec_of(xs[i] as nat))
}

/// Appends `0x` plus the hex rendering of `v`.
fn push_hex0x(s: &mut String, v: &Vec<u8>)
    ensures
        final(s)@ == old(s)@ + hex0x(v@),
{
    s.append("0x");
    push_hex(s, v);
}

/// The checksummed members of `addrs`, each double-quoted.
fn checksum_parts(addrs: &AddrSet) -> (parts: Vec<String>)
    requires
        addrs.wf(),
    ensures
        views_of(parts@) == checksum_items(addrs.seq_view()),
{
    let ghost sv = addrs.seq_view();
    let mut parts: Vec<String> = Vec::new();
    let mut i: usize = 0;
    while i < addrs.len()
        invariant
            i <= sv.len(),
            sv == addrs.seq_view(),
            addrs.wf(),
            parts@.len() == i,
            forall|j: int|
                0 <= j < i ==> (#[trigger] parts@[j])@ == "\""@ + checksum_of(sv[j]) + "\""@,
        decreases sv.len() - i,
    {
        let a = addrs.get(i);
        let mut p = String::new();
        p.append("\"");
        let c = checksum_string(a);
        p.append(c.as_str());
        p.append("\"");
        parts.push(p);
        i = i + 1;
    }
    proof {
        assert(views_of(parts@) =~= checksum_items(sv));
    }
    parts
}

/// The members of `sigs` as quoted `0x`-hex.
fn sig_parts(sigs: &SigSet) -> (parts: Vec<String>)
    ensures
        views_of(parts@) == sig_items(sigs.seq_view()),
{
    let ghost sv = sigs.seq_view();
    let mut parts: Vec<String> = Vec::new();
    let mut i: usize = 0;
    while i < sigs.len()
        invariant
            i <= sv.len(),
            sv == sigs.seq_view(),
            parts@.len() == i,
            forall|j: int|
                0 <= j < i ==> (#[trigger] parts@[j])@ == "\""@ + hex0x(sv[j]) + "\""@,
        decreases sv.len() - i,
    {
        let g = sigs.get(i);
        let mut p = String::new();
        p.append("\"");
        push_hex0x(&mut p, g.bytes());
        p.append("\"");
        parts.push(p);
        i = i + 1;
    }
    proof {
        assert(views_of(parts@) =~= sig_items(sv));
    }
    parts
}

/// The members of `sigs` as bare `0x`-hex.
fn sig_key_parts(sigs: &SigSet) -> (parts: Vec<String>)
    ensures
        views_of(parts@) == sig_key_items(sigs.seq_view()),
{
    let ghost sv = sigs.seq_view();
    let mut parts: Vec<String> = Vec::new();
    let mut i: usize = 0;
    while i < sigs.len()
        invariant
            i <= sv.len(),
            sv == sigs.seq_view(),
            parts@.len() == i,
            forall|j: int| 0 <= j < i ==> (#[trigger] parts@[j])@ == hex0x(sv[j]),
        decreases sv.len() - i,
    {
        let g = sigs.get(i);
        let mut p = String::new();
        push_hex0x(&mut p, g.bytes());
        parts.push(p);
        i = i + 1;
    }
    proof {
        assert(views_of(parts@) =~= sig_key_items(sv));
    }
    parts
}

/// The widths as decimal strings.
fn dec_parts(xs: &Vec<u32>) -> (parts: Vec<String>)
    ensures
        views_of(parts@) == dec_items(xs@),
{
    let mut parts: Vec<String> = Vec::new();
    let mut i: usize = 0;
    while i < xs.len()
        invariant
            i <= xs@.len(),
            parts@.len() == i,
            forall|j: int| 0 <= j < i ==> (#[trigger] parts@[j])@ == dec_of(xs@[j] as nat),
        decreases xs@.len() - i,
    {
        let mut p = String::new();
        push_dec_u64(&mut p, xs[i] as u64);
        parts.push(p);
        i = i + 1;
    }
    proof {
        assert(views_of(parts@) =~= dec_items(xs@));
    }
    parts
}

/// The SQL value tuple of one transaction.
pub open spec fn transaction_value_of(tx: Transaction) -> Seq<char> {
    "("@ + dec_of(tx.chain_id as nat) + ",'"@ + checksum_of(tx.from_address@) + "','"@
        + checksum_of(tx.to_address@) + "','{"@ + join_of(
        checksum_items(tx.closest_address.seq_view()),
        ","@,
    ) + "}','"@ + hex0x(tx.function_signature@) + "','"@ + hex0x(tx.transaction_hash@) + "',"@
        + dec_of(tx.transaction_index as nat) + ","@ + dec_of(tx.block_number as nat) + ","@ + (
    match tx.block_timestamp {
        Some(t) => "'"@ + dec_of(t as nat) + "'"@,
        None => "NULL"@,
    }) + ","@ + (match tx.block_hash {
        Some(h) => "'"@ + hex0x(h@) + "'"@,
        None => "NULL"@,
    }) + ","@ + dec_of(tx.value as nat) + ",'"@ + hex0x(tx.input@) + "',"@ + dec_of(
        tx.gas_used.requested as nat,
    ) + ","@ + dec_of(tx.gas_used.total as nat) + ","@ + dec_of(tx.gas_used.first_degree as nat)
        + ","@ + dec_of(tx.gas_used.second_degree as nat) + ","@ + dec_of(
        tx.ec_recover_count as nat,
    ) + ","@ + dec_of(tx.ec_add_count as nat) + ","@ + dec_of(tx.ec_mul_count as nat) + ","@
        + dec_of(tx.ec_pairing_count as nat) + ",'{"@ + join_of(
        dec_items(tx.ec_pairing_input_sizes@),
        ","@,
    ) + "}','{"@ + join_of(checksum_items(tx.ec_recover_addresses.seq_view()), ","@) + "}',"@ + (
    match tx.error {
        Some(e) => "'"@ + e@ + "'"@,
        None => "NULL"@,
    }) + ")"@
}

/// The SQL value tuple of one contract.
pub open spec fn contract_value_of(c: Contract) -> Seq<char> {
    "("@ + dec_of(c.chain_id as nat) + ",'"@ + checksum_of(c.address@) + "','{"@ + join_of(
        sig_items(c.function_signatures.seq_view()),
        ","@,
    ) + "}',"@ + dec_of(c.degree as nat) + ","@ + dec_of(c.ec_recover_count as nat) + ","@
        + dec_of(c.ec_add_count as nat) + ","@ + dec_of(c.ec_mul_count as nat) + ","@ + dec_of(
        c.ec_pairing_count as nat,
    ) + ",'{"@ + join_of(dec_items(c.ec_pairing_input_sizes@), ","@) + "}','{"@ + join_of(
        checksum_items(c.call.seq_view()),
        ","@,
    ) + "}')"@
}

/// The cache key of one contract.
pub open spec fn cache_key_of(c: Contract) -> Seq<char> {
    "c:"@ + dec_of(c.chain_id as nat) + ":"@ + checksum_of(c.address@) + ":"@ + join_of(
        sig_key_items(c.function_signatures.seq_view()),
        "-"@,
    )
}

/// The SQL value tuple of one block observation.
pub open spec fn block_value_of(b: BlockWithChainId) -> Seq<char> {
    "("@ + dec_of(b.chain_id as nat) + ","@ + dec_of(b.block.number as nat) + ","@ + dec_of(
        b.block.timestamp as nat,
    ) + ",'"@ + hex0x(b.block.hash@) + "','"@ + hex0x(b.block.parent_hash@) + "',"@ + dec_of(
        b.block.transaction_count as nat,
    ) + ",'"@ + hex0x(b.block.nonce@) + "','"@ + checksum_of(b.block.miner@) + "',"@ + dec_of(
        b.block.difficulty as nat,
    ) + ","@ + dec_of(b.block.total_difficulty as nat) + ","@ + dec_of(b.block.size as nat)
        + ","@ + dec_of(b.block.gas_limit as nat) + ","@ + dec_of(b.block.gas_used as nat) + ","@
        + dec_of(b.block.base_fee_per_gas as nat) + ")"@
}

impl Transaction {
    /// Every address is address-width.
    pub open spec fn wf(&self) -> bool {
        &&& self.from_address.wf()
        &&& self.to_address.wf()
        &&& self.closest_address.wf()
        &&& self.ec_recover_addresses.wf()
    }

    /// Renders this transaction as one SQL value tuple.
    #[verifier::rlimit(100)]
    pub fn value(&self) -> (r: String)
        requires
            self.wf(),
        ensures
            r@ == transaction_value_of(*self),
    {
        let mut s = String::new();
        s.append("(");
        push_dec_u64(&mut s, self.chain_id);
        s.append(",'");
        let c1 = checksum_string(&self.from_address);
        s.append(c1.as_str());
        s.append("','");
        let c2 = checksum_string(&self.to_address);
        s.append(c2.as_str());
        s.append("','{");
        let closest = checksum_parts(&self.closest_address);
        push_joined(&mut s, &closest, ",");
        s.append("}','");
        push_hex0x(&mut s, self.function_signature.bytes());
        s.append("','");
        push_hex0x(&mut s, self.transaction_hash.bytes());
        s.append("',");
        push_dec_u64(&mut s, self.transaction_index as u64);
        s.append(",");
        push_dec_u64(&mut s, self.block_number);
        s.append(",");
        match self.block_timestamp {
            Some(t) => {
                s.append("'");
                push_dec_u64(&mut s, t);
                s.append("'");
            },
            None => {
                s.append("NULL");
            },
        }
        s.append(",");
        match &self.block_hash {
            Some(h) => {
                s.append("'");
                push_hex0x(&mut s, h.bytes());
                s.append("'");
            },
            None => {
                s.append("NULL");
            },
        }
        s.append(",");
        push_dec_u128(&mut s, self.value);
        s.append(",'");
        push_hex0x(&mut s, &self.input);
        s.append("',");
        push_dec_u64(&mut s, self.gas_used.requested);
        s.append(",");
        push_dec_u64(&mut s, self.gas_used.total);
        s.append(",");
        push_dec_u64(&mut s, self.gas_used.first_degree);
        s.append(",");
        push_dec_u64(&mut s, self.gas_used.second_degree);
        s.append(",");
        push_dec_u64(&mut s, self.ec_recover_count as u64);
        s.append(",");
        push_dec_u64(&mut s, self.ec_add_count as u64);
        s.append(",");
        push_dec_u64(&mut s, self.ec_mul_count as u64);
        s.append(",");
        push_dec_u64(&mut s, self.ec_pairing_count as u64);
        s.append(",'{");
        let sizes = dec_parts(&self.ec_pairing_input_sizes);
        push_joined(&mut s, &sizes, ",");
        s.append("}','{");
        let recs = checksum_parts(&self.ec_recover_addresses);
        push_joined(&mut s, &recs, ",");
        s.append("}',");
        match &self.error {
            Some(e) => {
                s.append("'");
                s.append(e.as_str());
                s.append("'");
            },
            None => {
                s.append("NULL");
            },
        }
        s.append(")");
        proof {
            assert(s@ =~= transaction_value_of(*self));
        }
        s
    }
}

impl Contract {
    /// The address is address-width and the member sets are well
    /// formed.
    pub open spec fn wf(&self) -> bool {
        &&& self.address.wf()
        &&& self.function_signatures.wf()
        &&& self.call.wf()
    }

    /// Renders this contract as one SQL value tuple.
    pub fn value(&self) -> (r: String)
        requires
            self.wf(),
        ensures
            r@ == contract_value_of(*self),
    {
        let mut s = String::new();
        s.append("(");
        push_dec_u64(&mut s, self.chain_id);
        s.append(",'");
        let c1 = checksum_string(&self.address);
        s.append(c1.as_str());
        s.append("','{");
        let sigs = sig_parts(&self.function_signatures);
        push_joined(&mut s, &sigs, ",");
        s.append("}',");
        push_dec_u64(&mut s, self.degree as u64);
        s.append(",");
        push_dec_u64(&mut s, self.ec_recover_count as u64);
        s.append(",");
        push_dec_u64(&mut s, self.ec_add_count as u64);
        s.append(",");
        push_dec_u64(&mut s, self.ec_mul_count as u64);
        s.append(",");
        push_dec_u64(&mut s, self.ec_pairing_count as u64);
        s.append(",'{");
        let sizes = dec_parts(&self.ec_pairing_input_sizes);
        push_joined(&mut s, &sizes, ",");
        s.append("}','{");
        let calls = checksum_parts(&self.call);
        push_joined(&mut s, &calls, ",");
        s.append("}')");
        proof {
            assert(s@ =~= contract_value_of(*self));
        }
        s
    }

    /// The key under which this contract's presence is cached.
    pub fn cache_key(&self) -> (r: String)
        requires
            self.wf(),
        ensures
            r@ == cache_key_of(*self),
    {
        let mut s = String::new();
        s.append("c:");
        push_dec_u64(&mut s, self.chain_id);
        s.append(":");
        let c1 = checksum_string(&self.address);
        s.append(c1.as_str());
        s.append(":");
        let sigs = sig_key_parts(&self.function_signatures);
        push_joined(&mut s, &sigs, "-");
        proof {
            assert(s@ =~= cache_key_of(*self));
        }
        s
    }
}

impl BlockWithChainId {
    /// Renders this block observation as one SQL value tuple.
    pub fn value(&self) -> (r: String)
        requires
            self.block.wf(),
        ensures
            r@ == block_value_of(*self),
    {
        let mut s = String::new();
        s.append("(");
        push_dec_u64(&mut s, self.chain_id);
        s.append(",");
        push_dec_u64(&mut s, self.block.number);
        s.append(",");
        push_dec_u64(&mut s, self.block.timestamp);
        s.append(",'");
        push_hex0x(&mut s, self.block.hash.bytes());
        s.append("','");
        push_hex0x(&mut s, self.block.parent_hash.bytes());
        s.append("',");
        push_dec_u64(&mut s, self.block.transaction_count as u64);
        s.append(",'");
        push_hex0x(&mut s, self.block.nonce.bytes());
        s.append("','");
        let c1 = checksum_string(&self.block.miner);
        s.append(c1.as_str());
        s.append("',");
        push_dec_u64(&mut s, self.block.difficulty);
        s.append(",");
        push_dec_u64(&mut s, self.block.total_difficulty);
        s.append(",");
        push_dec_u64(&mut s, self.block.size as u64);
        s.append(",");
        push_dec_u64(&mut s, self.block.gas_limit);
        s.append(",");
        push_dec_u64(&mut s, self.block.gas_used);
        s.append(",");
        push_dec_u64(&mut s, self.block.base_fee_per_gas);
        s.append(")");
        proof {
            assert(s@ =~= block_value_of(*self));
        }
        s
    }
}

} // verus!
