//! One call frame of a transaction's execution.

use vstd::prelude::*;

use crate::ids::{Address, Hash32};

verus! {

/// The ghost image of a [`Trace`]: every byte-string field as a plain
/// sequence.
pub struct TraceView {
    pub transaction_index: Option<u32>,
    pub from_address: Option<Seq<u8>>,
    pub to_address: Option<Seq<u8>>,
    pub value: Option<u128>,
    pub input: Option<Seq<u8>>,
    pub output: Option<Seq<u8>>,
    pub trace_type: Option<Seq<char>>,
    pub call_type: Option<Seq<char>>,
    pub reward_type: Option<Seq<char>>,
    pub gas: Option<u64>,
    pub gas_used: Option<u64>,
    pub subtraces: u32,
    pub trace_address: Seq<u32>,
    pub error: Option<Seq<char>>,
    pub transaction_hash: Option<Seq<u8>>,
    pub block_number: u64,
    pub block_timestamp: Option<u64>,
    pub block_hash: Option<Seq<u8>>,
}

/// One call frame. Traces of one transaction arrive contiguously in
/// tree pre-order; the root frame has an empty `trace_address`.
#[derive(Clone)]
pub struct Trace {
    pub transaction_index: Option<u32>,
    pub from_address: Option<Address>,
    pub to_address: Option<Address>,
    pub value: Option<u128>,
    pub input: Option<Vec<u8>>,
    pub output: Option<Vec<u8>>,
    pub trace_type: Option<String>,
    pub call_type: Option<String>,
    pub reward_type: Option<String>,
    pub gas: Option<u64>,
    pub gas_used: Option<u64>,
    pub subtraces: u32,
    pub trace_address: Vec<u32>,
    pub error: Option<String>,
    pub transaction_hash: Option<Hash32>,
    pub block_number: u64,
    pub block_timestamp: Option<u64>,
    pub block_hash: Option<Hash32>,
}

pub open spec fn view_addr(a: Option<Address>) -> Option<Seq<u8>> {
    match a {
        Some(x) => Some(x@),
        None => None,
    }
}

pub open spec fn view_hash(h: Option<Hash32>) -> Option<Seq<u8>> {
    match h {
        Some(x) => Some(x@),
        None => None,
    }
}

pub open spec fn view_bytes(b: Option<Vec<u8>>) -> Option<Seq<u8>> {
    match b {
        Some(x) => Some(x@),
        None => None,
    }
}

pub open spec fn view_text(s: Option<String>) -> Option<Seq<char>> {
    match s {
        Some(x) => Some(x@),
        None => None,
    }
}

impl View for Trace {
    type V = TraceView;

    open spec fn view(&self) -> TraceView {
        TraceView {
            transaction_index: self.transaction_index,
            from_address: view_addr(self.from_address),
            to_address: view_addr(self.to_address),
            value: self.value,
            input: view_bytes(self.input),
            output: view_bytes(self.output),
            trace_type: view_text(self.trace_type),
            call_type: view_text(self.call_type),
            reward_type: view_text(self.reward_type),
            gas: self.gas,
            gas_used: self.gas_used,
            subtraces: self.subtraces,
            trace_address: self.trace_address@,
            error: view_text(self.error),
            transaction_hash: view_hash(self.transaction_hash),
            block_number: self.block_number,
            block_timestamp: self.block_timestamp,
            block_hash: view_hash(self.block_hash),
        }
    }
}

impl TraceView {
    /// A root frame carries everything the transaction summary needs.
    pub open spec fn populated(self) -> bool {
        &&& self.transaction_hash is Some
        &&& self.transaction_index is Some
        &&& self.from_address is Some
        &&& self.to_address is Some
    }
}

impl Trace {
    /// Widths of every fixed-width field are right.
    pub open spec fn wf(&self) -> bool {
        &&& (self.from_address matches Some(a) ==> a.wf())
        &&& (self.to_address matches Some(a) ==> a.wf())
        &&& (self.transaction_hash matches Some(h) ==> h.wf())
        &&& (self.block_hash matches Some(h) ==> h.wf())
    }

    /// A faithful copy.
    pub fn dup(&self) -> (r: Trace)
        ensures
            r@ == self@,
            r.wf() == self.wf(),
    {
        Trace {
            transaction_index: self.transaction_index,
            from_address: match &self.from_address {
                Some(a) => Some(a.dup()),
                None => None,
            },
            to_address: match &self.to_address {
                Some(a) => Some(a.dup()),
                None => None,
            },
            value: self.value,
            input: match &self.input {
                Some(b) => Some(crate::ids::bytes_dup(b)),
                None => None,
            },
            output: match &self.output {
                Some(b) => Some(crate::ids::bytes_dup(b)),
                None => None,
            },
            trace_type: match &self.trace_type {
                Some(s) => Some(s.clone()),
                None => None,
            },
            call_type: match &self.call_type {
                Some(s) => Some(s.clone()),
                None => None,
            },
            reward_type: match &self.reward_type {
                Some(s) => Some(s.clone()),
                None => None,
            },
            gas: self.gas,
            gas_used: self.gas_used,
            subtraces: self.subtraces,
            trace_address: dup_u32s(&self.trace_address),
            error: match &self.error {
                Some(s) => Some(s.clone()),
                None => None,
            },
            transaction_hash: match &self.transaction_hash {
                Some(h) => Some(h.dup()),
                None => None,
            },
            block_number: self.block_number,
            block_timestamp: self.block_timestamp,
            block_hash: match &self.block_hash {
                Some(h) => Some(h.dup()),
                None => None,
            },
        }
    }
}

/// A faithful copy of a vector of 32-bit indices.
pub(crate) fn dup_u32s(v: &Vec<u32>) -> (r: Vec<u32>)
    ensures
        r@ == v@,
{
    let r = v.clone();
    proof {
        assert(r@ =~= v@);
    }
    r
}

} // verus!
