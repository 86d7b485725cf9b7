//! The per-chain trace-tree aggregator: per-transaction call indices.
//!
//! One `TraceTree` consumes the contiguous trace stream of one chain.
//! Four flat tables index the current transaction's call graph; the
//! views below expose them as sequences of plain byte strings, and the
//! emission logic is specified over those views.

use vstd::prelude::*;

use crate::emit::{
    add_callers_of, calls_from, called_by_any, fd_calls, is_first_degree, is_second_degree,
    lemma_called_by_any_index, lemma_calls_from_members, sd_calls, DegreeMap,
};
use crate::etl::{Contract, EtlResult, GasUsed, Transaction};
use crate::ids::{
    bytes_slice, ec_add, ec_mul, ec_pairing, ec_recover, is_trigger, zero_sig, Address, Sig,
};
use crate::sets::AddrSet;
use crate::trace::{Trace, TraceView};

verus! {

/// One `(to, from)` pair with how often `from` called `to`.
pub struct CallRow {
    pub to: Address,
    pub from: Address,
    pub count: u16,
}

/// One `(from, to)` pair with the gas those calls used.
pub struct GasRow {
    pub from: Address,
    pub to: Address,
    pub gas_used: u64,
}

/// One selector observed on a call into `to`.
pub struct SigRow {
    pub to: Address,
    pub sig: Sig,
}

/// The input width of one pairing call made by `from`.
pub struct SizeRow {
    pub from: Address,
    pub size: u32,
}

/// The call table as plain values: `(to, from, count)` per row.
pub open spec fn call_view(rows: Seq<CallRow>) -> Seq<(Seq<u8>, Seq<u8>, u16)> {
    rows.map_values(|r: CallRow| (r.to@, r.from@, r.count))
}

/// The gas table as plain values: `(from, to, gas)` per row.
pub open spec fn gas_view(rows: Seq<GasRow>) -> Seq<(Seq<u8>, Seq<u8>, u64)> {
    rows.map_values(|r: GasRow| (r.from@, r.to@, r.gas_used))
}

/// The selector table as plain values: `(to, selector)` per row.
pub open spec fn sig_view(rows: Seq<SigRow>) -> Seq<(Seq<u8>, Seq<u8>)> {
    rows.map_values(|r: SigRow| (r.to@, r.sig@))
}

/// The pairing-input table as plain values: `(from, width)` per row.
pub open spec fn size_view(rows: Seq<SizeRow>) -> Seq<(Seq<u8>, u32)> {
    rows.map_values(|r: SizeRow| (r.from@, r.size))
}

/// True when the call table holds a `from -> to` edge.
pub open spec fn has_call(cs: Seq<(Seq<u8>, Seq<u8>, u16)>, to: Seq<u8>, from: Seq<u8>) -> bool
    decreases cs.len(),
{
    if cs.len() == 0 {
        false
    } else {
        (cs.last().0 == to && cs.last().1 == from) || has_call(cs.drop_last(), to, from)
    }
}

/// How often `from` called `to`; zero without such an edge.
pub open spec fn call_count(cs: Seq<(Seq<u8>, Seq<u8>, u16)>, to: Seq<u8>, from: Seq<u8>) -> u16
    decreases cs.len(),
{
    if cs.len() == 0 {
        0u16
    } else if cs.last().0 == to && cs.last().1 == from {
        cs.last().2
    } else {
        call_count(cs.drop_last(), to, from)
    }
}

/// True when anything called `to`.
pub open spec fn has_callee(cs: Seq<(Seq<u8>, Seq<u8>, u16)>, to: Seq<u8>) -> bool
    decreases cs.len(),
{
    if cs.len() == 0 {
        false
    } else {
        cs.last().0 == to || has_callee(cs.drop_last(), to)
    }
}

/// The call counts into `to`, summed over all callers.
pub open spec fn count_sum_to(cs: Seq<(Seq<u8>, Seq<u8>, u16)>, to: Seq<u8>) -> int
    decreases cs.len(),
{
    if cs.len() == 0 {
        0
    } else {
        count_sum_to(cs.drop_last(), to) + if cs.last().0 == to {
            cs.last().2 as int
        } else {
            0
        }
    }
}

/// True when the gas table holds a `from -> to` edge.
pub open spec fn has_gas(gs: Seq<(Seq<u8>, Seq<u8>, u64)>, from: Seq<u8>, to: Seq<u8>) -> bool
    decreases gs.len(),
{
    if gs.len() == 0 {
        false
    } else {
        (gs.last().0 == from && gs.last().1 == to) || has_gas(gs.drop_last(), from, to)
    }
}

/// True when a selector was already recorded for `to`.
pub open spec fn has_sig(ss: Seq<(Seq<u8>, Seq<u8>)>, to: Seq<u8>, sig: Seq<u8>) -> bool
    decreases ss.len(),
{
    if ss.len() == 0 {
        false
    } else {
        (ss.last().0 == to && ss.last().1 == sig) || has_sig(ss.drop_last(), to, sig)
    }
}

/// Every selector recorded for `to`.
pub open spec fn sigs_for(ss: Seq<(Seq<u8>, Seq<u8>)>, to: Seq<u8>) -> Set<Seq<u8>>
    decreases ss.len(),
{
    if ss.len() == 0 {
        Set::empty()
    } else if ss.last().0 == to {
        sigs_for(ss.drop_last(), to).insert(ss.last().1)
    } else {
        sigs_for(ss.drop_last(), to)
    }
}

/// The pairing-input widths recorded for `from`, in call order.
pub open spec fn sizes_for(zs: Seq<(Seq<u8>, u32)>, from: Seq<u8>) -> Seq<u32>
    decreases zs.len(),
{
    if zs.len() == 0 {
        Seq::empty()
    } else if zs.last().0 == from {
        sizes_for(zs.drop_last(), from).push(zs.last().1)
    } else {
        sizes_for(zs.drop_last(), from)
    }
}

/// Every recorded pairing-input width, in call order.
pub open spec fn all_sizes(zs: Seq<(Seq<u8>, u32)>) -> Seq<u32>
    decreases zs.len(),
{
    if zs.len() == 0 {
        Seq::empty()
    } else {
        all_sizes(zs.drop_last()).push(zs.last().1)
    }
}

/// The selector of a call input: its first four bytes when longer than
/// four bytes, else all zeros.
pub open spec fn sig_of(b: Seq<u8>) -> Seq<u8> {
    if b.len() > 4 {
        b.take(4)
    } else {
        zero_sig()
    }
}

/// The selector recorded during indexing: forced to zero for calls
/// into the trigger precompiles, whose inputs carry no selector.
pub open spec fn sig_of_with_to(b: Seq<u8>, to: Seq<u8>) -> Seq<u8> {
    if is_trigger(to) {
        zero_sig()
    } else {
        sig_of(b)
    }
}

/// The selector a trace contributes: zero when it has no input.
pub open spec fn trace_sig(t: TraceView) -> Seq<u8> {
    match t.input {
        Some(b) => sig_of_with_to(b, t.to_address.unwrap()),
        None => zero_sig(),
    }
}

/// The pairing-input width a trace contributes: its input length,
/// truncated to 32 bits, zero when it has no input.
pub open spec fn trace_size(t: TraceView) -> u32 {
    match t.input {
        Some(b) => (b.len() % 0x1_0000_0000) as u32,
        None => 0u32,
    }
}

/// `c` counted one up, stuck at the 16-bit bound.
pub open spec fn sat_inc16(c: u16) -> u16 {
    if c == 0xffffu16 {
        c
    } else {
        (c + 1) as u16
    }
}

/// `a + b`, stuck at the 64-bit bound.
pub open spec fn sat_add64(a: u64, b: u64) -> u64 {
    if a + b > u64::MAX {
        u64::MAX
    } else {
        (a + b) as u64
    }
}

/// Unique `(to, from)` keys, address-width entries.
pub open spec fn calls_wf(cs: Seq<(Seq<u8>, Seq<u8>, u16)>) -> bool {
    &&& forall|i: int|
        0 <= i < cs.len() ==> (#[trigger] cs[i]).0.len() == 20 && cs[i].1.len() == 20
    &&& forall|i: int, j: int|
        0 <= i < j < cs.len() ==> !(cs[i].0 == cs[j].0 && cs[i].1 == cs[j].1)
}

/// Unique `(from, to)` keys, address-width entries.
pub open spec fn gases_wf(gs: Seq<(Seq<u8>, Seq<u8>, u64)>) -> bool {
    &&& forall|i: int|
        0 <= i < gs.len() ==> (#[trigger] gs[i]).0.len() == 20 && gs[i].1.len() == 20
    &&& forall|i: int, j: int|
        0 <= i < j < gs.len() ==> !(gs[i].0 == gs[j].0 && gs[i].1 == gs[j].1)
}

/// Address-width callers.
pub open spec fn sizes_wf(zs: Seq<(Seq<u8>, u32)>) -> bool {
    forall|i: int| 0 <= i < zs.len() ==> (#[trigger] zs[i]).0.len() == 20
}

/// Unique `(to, selector)` pairs with the right widths.
pub open spec fn sigs_wf(ss: Seq<(Seq<u8>, Seq<u8>)>) -> bool {
    &&& forall|i: int|
        0 <= i < ss.len() ==> (#[trigger] ss[i]).0.len() == 20 && ss[i].1.len() == 4
    &&& forall|i: int, j: int| 0 <= i < j < ss.len() ==> ss[i] != ss[j]
}

/// `has_call` holds exactly when some row carries the pair.
pub proof fn lemma_has_call_index(cs: Seq<(Seq<u8>, Seq<u8>, u16)>, to: Seq<u8>, from: Seq<u8>)
    ensures
        has_call(cs, to, from) <==> exists|i: int|
            0 <= i < cs.len() && (#[trigger] cs[i]).0 == to && cs[i].1 == from,
    decreases cs.len(),
{
    if cs.len() > 0 {
        lemma_has_call_index(cs.drop_last(), to, from);
        if cs.last().0 == to && cs.last().1 == from {
            assert(cs[cs.len() - 1].0 == to && cs[cs.len() - 1].1 == from);
        } else if has_call(cs.drop_last(), to, from) {
            let i = choose|i: int|
                0 <= i < cs.drop_last().len() && (#[trigger] cs.drop_last()[i]).0 == to
                    && cs.drop_last()[i].1 == from;
            assert(cs[i].0 == to && cs[i].1 == from);
        } else {
            assert forall|i: int| 0 <= i < cs.len() implies
                !((#[trigger] cs[i]).0 == to && cs[i].1 == from) by {
                if i < cs.len() - 1 {
                    assert(cs.drop_last()[i] == cs[i]);
                }
            }
        }
    }
}

/// changes nothing.
pub open spec fn indexes(pre: TraceTree, post: TraceTree, t: TraceView) -> bool {
    &&& !(t.from_address is Some && t.to_address is Some) ==> {
        &&& post.calls() == pre.calls()
        &&& post.gases() == pre.gases()
        &&& post.sigs() == pre.sigs()
        &&& post.sizes() == pre.sizes()
        &&& post.recovered() == pre.recovered()
    }
    &&& (t.from_address is Some && t.to_address is Some) ==> {
        let from = t.from_address.unwrap();
        let to = t.to_address.unwrap();
        let sig = trace_sig(t);
        &&& (if has_sig(pre.sigs(), to, sig) {
            post.sigs() == pre.sigs()
        } else {
            post.sigs() == pre.sigs().push((to, sig))
        })
        &&& (if has_call(pre.calls(), to, from) {
            exists|k: int|
                0 <= k < pre.calls().len() && (#[trigger] pre.calls()[k]).0 == to
                    && pre.calls()[k].1 == from && post.calls() == pre.calls().update(
                    k,
                    (to, from, sat_inc16(pre.calls()[k].2)),
                )
        } else {
            post.calls() == pre.calls().push((to, from, 1u16))
        })
        &&& (if has_gas(pre.gases(), from, to) {
            exists|k: int|
                0 <= k < pre.gases().len() && (#[trigger] pre.gases()[k]).0 == from
                    && pre.gases()[k].1 == to && post.gases() == pre.gases().update(
                    k,
                    (from, to, sat_add64(pre.gases()[k].2, trace_gas(t))),
                )
        } else {
            post.gases() == pre.gases().push((from, to, trace_gas(t)))
        })
        &&& (if to == ec_pairing() {
            post.sizes() == pre.sizes().push((from, trace_size(t)))
        } else {
            post.sizes() == pre.sizes()
        })
        &&& (if to == ec_recover() && (t.output matches Some(out) && out.len() >= 32) {
            let rec = t.output.unwrap().subrange(12, 32);
            if pre.recovered().contains(rec) {
                post.recovered() == pre.recovered()
            } else {
                post.recovered() == pre.recovered().push(rec)
            }
        } else {
            post.recovered() == pre.recovered()
        })
    }
}

/// The tables of a tree that was reset and then indexed `t` alone.
pub open spec fn indexes_fresh(post: TraceTree, t: TraceView) -> bool {
    if t.from_address is Some && t.to_address is Some {
        let from = t.from_address.unwrap();
        let to = t.to_address.unwrap();
        &&& post.sigs() == seq![(to, trace_sig(t))]
        &&& post.calls() == seq![(to, from, 1u16)]
        &&& post.gases() == seq![(from, to, trace_gas(t))]
        &&& post.sizes() == (if to == ec_pairing() {
            seq![(from, trace_size(t))]
        } else {
            Seq::<(Seq<u8>, u32)>::empty()
        })
        &&& post.recovered() == (if to == ec_recover() && (t.output matches Some(out)
            && out.len() >= 32) {
            seq![t.output.unwrap().subrange(12, 32)]
        } else {
            Seq::<Seq<u8>>::empty()
        })
    } else {
        &&& post.calls() == Seq::<(Seq<u8>, Seq<u8>, u16)>::empty()
        &&& post.gases() == Seq::<(Seq<u8>, Seq<u8>, u64)>::empty()
        &&& post.sigs() == Seq::<(Seq<u8>, Seq<u8>)>::empty()
        &&& post.sizes() == Seq::<(Seq<u8>, u32)>::empty()
        &&& post.recovered() == Seq::<Seq<u8>>::empty()
    }
}

/// The per-chain aggregator state for the transaction being read.
pub struct TraceTree {
    chain_id: u64,
    call_rows: Vec<CallRow>,
    gas_rows: Vec<GasRow>,
    sig_rows: Vec<SigRow>,
    size_rows: Vec<SizeRow>,
    ec_recover_addresses: AddrSet,
    first_trace: Option<Trace>,
}

impl TraceTree {
    /// The chain this aggregator serves.
    pub closed spec fn spec_chain_id(&self) -> u64 {
        self.chain_id
    }

    /// The chain this aggregator serves.
    pub fn chain_id(&self) -> (r: u64)
        ensures
            r == self.spec_chain_id(),
    {
        self.chain_id
    }

    /// The call table: who called whom how often.
    pub closed spec fn calls(&self) -> Seq<(Seq<u8>, Seq<u8>, u16)> {
        call_view(self.call_rows@)
    }

    /// The gas table: gas used per caller/callee pair.
    pub closed spec fn gases(&self) -> Seq<(Seq<u8>, Seq<u8>, u64)> {
        gas_view(self.gas_rows@)
    }

    /// The selector table.
    pub closed spec fn sigs(&self) -> Seq<(Seq<u8>, Seq<u8>)> {
        sig_view(self.sig_rows@)
    }

    /// The pairing-input table.
    pub closed spec fn sizes(&self) -> Seq<(Seq<u8>, u32)> {
        size_view(self.size_rows@)
    }

    /// Addresses recovered by `ecrecover` calls, in first-seen order.
    pub closed spec fn recovered(&self) -> Seq<Seq<u8>> {
        self.ec_recover_addresses.seq_view()
    }

    /// The root trace of the transaction being read, if one arrived.
    pub closed spec fn first(&self) -> Option<TraceView> {
        match self.first_trace {
            Some(t) => Some(t@),
            None => None,
        }
    }

    /// Tables hold well-formed unique keys.
    pub open spec fn wf(&self) -> bool {
        &&& calls_wf(self.calls())
        &&& gases_wf(self.gases())
        &&& sigs_wf(self.sigs())
        &&& sizes_wf(self.sizes())
        &&& self.recovered_set_wf()
    }

    /// The recovered-address set is well formed.
    pub closed spec fn recovered_set_wf(&self) -> bool {
        self.ec_recover_addresses.wf()
    }

    /// A fresh aggregator with empty tables.
    pub fn new(chain_id: u64) -> (r: TraceTree)
        ensures
            r.spec_chain_id() == chain_id,
            r.calls() == Seq::<(Seq<u8>, Seq<u8>, u16)>::empty(),
            r.gases() == Seq::<(Seq<u8>, Seq<u8>, u64)>::empty(),
            r.sigs() == Seq::<(Seq<u8>, Seq<u8>)>::empty(),
            r.sizes() == Seq::<(Seq<u8>, u32)>::empty(),
            r.recovered() == Seq::<Seq<u8>>::empty(),
            r.first() is None,
            r.wf(),
    {
        let r = TraceTree {
            chain_id,
            call_rows: Vec::new(),
            gas_rows: Vec::new(),
            sig_rows: Vec::new(),
            size_rows: Vec::new(),
            ec_recover_addresses: AddrSet::new(),
            first_trace: None,
        };
        proof {
            assert(r.calls() =~= Seq::<(Seq<u8>, Seq<u8>, u16)>::empty());
            assert(r.gases() =~= Seq::<(Seq<u8>, Seq<u8>, u64)>::empty());
            assert(r.sigs() =~= Seq::<(Seq<u8>, Seq<u8>)>::empty());
            assert(r.sizes() =~= Seq::<(Seq<u8>, u32)>::empty());
        }
        r
    }

    /// The selector of a call input: the first four bytes when longer
    /// than four bytes, else zeros.
    pub fn construct_signature(b: &Vec<u8>) -> (r: Sig)
        ensures
            r@ == sig_of(b@),
            r.wf(),
    {
        if b.len() > 4 {
            Sig::from_front(b)
        } else {
            Sig::zero()
        }
    }

    /// The selector recorded while indexing: forced to zero when the
    /// callee is a trigger precompile.
    pub fn construct_signature_with_to(b: (&Vec<u8>, &Address)) -> (r: Sig)
        ensures
            r@ == sig_of_with_to(b.0@, b.1@),
            r.wf(),
    {
        let (input, to) = b;
        let pairing = Address::precompile(8);
        let recover = Address::precompile(1);
        if to.eq_addr(&pairing) || to.eq_addr(&recover) {
            Sig::zero()
        } else {
            Self::construct_signature(input)
        }
    }

    /// True when the current transaction called a trigger precompile.
    pub fn commit_filter(&self) -> (r: bool)
        ensures
            r == (has_callee(self.calls(), ec_recover()) || has_callee(
                self.calls(),
                ec_pairing(),
            )),
    {
        let recover = Address::precompile(1);
        let pairing = Address::precompile(8);
        self.has_callee_exec(&recover) || self.has_callee_exec(&pairing)
    }

    /// True when anything called `to` in this transaction.
    fn has_callee_exec(&self, to: &Address) -> (r: bool)
        ensures
            r == has_callee(self.calls(), to@),
    {
        let ghost cs = self.calls();
        let mut i: usize = self.call_rows.len();
        proof {
            assert(cs.take(i as int) =~= cs);
        }
        while i > 0
            invariant
                i <= self.call_rows.len(),
                cs == self.calls(),
                has_callee(cs, to@) == has_callee(cs.take(i as int), to@),
            decreases i,
        {
            i = i - 1;
            if self.call_rows[i].to.eq_addr(to) {
                assert(cs.take(i + 1).last().0 == to@);
                return true;
            }
            proof {
                assert(cs.take(i + 1).drop_last() =~= cs.take(i as int));
            }
        }
        false
    }

    /// Starts a new transaction: clears every table and keeps a copy of
    /// its root trace.
    pub fn reset(&mut self, first_trace: &Trace)
        requires
            first_trace.wf(),
        ensures
            final(self).spec_chain_id() == old(self).spec_chain_id(),
            final(self).calls() == Seq::<(Seq<u8>, Seq<u8>, u16)>::empty(),
            final(self).gases() == Seq::<(Seq<u8>, Seq<u8>, u64)>::empty(),
            final(self).sigs() == Seq::<(Seq<u8>, Seq<u8>)>::empty(),
            final(self).sizes() == Seq::<(Seq<u8>, u32)>::empty(),
            final(self).recovered() == Seq::<Seq<u8>>::empty(),
            final(self).first() == Some(first_trace@),
            final(self).wf(),
    {
        self.call_rows = Vec::new();
        self.gas_rows = Vec::new();
        self.sig_rows = Vec::new();
        self.size_rows = Vec::new();
        self.ec_recover_addresses = AddrSet::new();
        self.first_trace = Some(first_trace.dup());
        proof {
            assert(self.calls() =~= Seq::<(Seq<u8>, Seq<u8>, u16)>::empty());
            assert(self.gases() =~= Seq::<(Seq<u8>, Seq<u8>, u64)>::empty());
            assert(self.sigs() =~= Seq::<(Seq<u8>, Seq<u8>)>::empty());
            assert(self.sizes() =~= Seq::<(Seq<u8>, u32)>::empty());
        }
    }

    /// Indexes one trace. A trace missing either endpoint is ignored.
    pub fn add_trace(&mut self, trace: &Trace)
        requires
            old(self).wf(),
            trace.wf(),
        ensures
            final(self).wf(),
            final(self).spec_chain_id() == old(self).spec_chain_id(),
            final(self).first() == old(self).first(),
            indexes(*old(self), *final(self), trace@),
    {
        let (from, to) = match (&trace.from_address, &trace.to_address) {
            (Some(f), Some(t)) => (f, t),
            _ => {
                return ;
            },
        };
        let sig = match &trace.input {
            Some(b) => Self::construct_signature_with_to((b, to)),
            None => Sig::zero(),
        };
        assert(sig@ == trace_sig(trace@));
        upsert_sig(&mut self.sig_rows, to, &sig);
        upsert_call(&mut self.call_rows, to, from);
        let g = match trace.gas_used {
            Some(g) => g,
            None => 0,
        };
        assert(g == trace_gas(trace@));
        upsert_gas(&mut self.gas_rows, from, to, g);
        let pairing = Address::precompile(8);
        if to.eq_addr(&pairing) {
            let sz: u32 = match &trace.input {
                Some(b) => {
                    let w: u64 = b.len() as u64;
                    (w % 0x1_0000_0000) as u32
                },
                None => 0,
            };
            assert(sz == trace_size(trace@));
            let ghost before = self.sizes();
            self.size_rows.push(SizeRow { from: from.dup(), size: sz });
            proof {
                assert(self.sizes() =~= before.push((from@, sz)));
                assert(before == old(self).sizes());
                assert forall|i: int| 0 <= i < self.sizes().len() implies (#[trigger] self.sizes()[i]).0.len()
                    == 20 by {
                    if i < before.len() {
                        assert(self.sizes()[i] == old(self).sizes()[i]);
                    } else {
                        assert(self.sizes()[i] == (from@, sz));
                    }
                }
                assert(sizes_wf(self.sizes()));
            }
        }
        let recover = Address::precompile(1);
        if to.eq_addr(&recover) {
            if let Some(out) = &trace.output {
                if out.len() >= 32 {
                    let rec_bytes = bytes_slice(out, 12, 32);
                    if let Some(rec) = Address::from_bytes(rec_bytes) {
                        self.ec_recover_addresses.insert(&rec);
                    }
                }
            }
        }
    }
}

/// The gas a trace contributes: zero when unreported.
pub open spec fn trace_gas(t: TraceView) -> u64 {
    match t.gas_used {
        Some(g) => g,
        None => 0u64,
    }
}

/// Records `sig` for `to` unless that pair is already present.
fn upsert_sig(rows: &mut Vec<SigRow>, to: &Address, sig: &Sig)
    requires
        sigs_wf(sig_view(old(rows)@)),
        to.wf(),
        sig.wf(),
    ensures
        sigs_wf(sig_view(final(rows)@)),
        has_sig(sig_view(old(rows)@), to@, sig@) ==> sig_view(final(rows)@) == sig_view(
            old(rows)@,
        ),
        !has_sig(sig_view(old(rows)@), to@, sig@) ==> sig_view(final(rows)@) == sig_view(
            old(rows)@,
        ).push((to@, sig@)),
{
    let ghost ss = sig_view(rows@);
    let mut i: usize = rows.len();
    proof {
        assert(ss.take(i as int) =~= ss);
    }
    while i > 0
        invariant
            i <= rows.len(),
            rows@ == old(rows)@,
            ss == sig_view(rows@),
            sigs_wf(ss),
            has_sig(ss, to@, sig@) == has_sig(ss.take(i as int), to@, sig@),
        decreases i,
    {
        i = i - 1;
        if rows[i].to.eq_addr(to) && rows[i].sig.eq_sig(sig) {
            proof {
                assert(ss.take(i + 1).last() == ss[i as int]);
                assert(ss[i as int] == (to@, sig@));
                assert(has_sig(ss.take(i + 1), to@, sig@));
            }
            return ;
        }
        proof {
            assert(ss.take(i + 1).drop_last() =~= ss.take(i as int));
        }
    }
    assert(!has_sig(ss, to@, sig@));
    rows.push(SigRow { to: to.dup(), sig: sig.dup() });
    proof {
        assert(sig_view(rows@) =~= ss.push((to@, sig@)));
        lemma_has_sig_index(ss, to@, sig@);
        assert forall|a: int, b: int|
            0 <= a < b < sig_view(rows@).len() implies sig_view(rows@)[a] != sig_view(
            rows@,
        )[b] by {
            if b < ss.len() {
            } else {
                assert(sig_view(rows@)[a] == ss[a]);
            }
        }
    }
}

/// `has_sig` holds exactly when some row carries the pair.
pub proof fn lemma_has_sig_index(ss: Seq<(Seq<u8>, Seq<u8>)>, to: Seq<u8>, sig: Seq<u8>)
    ensures
        has_sig(ss, to, sig) <==> exists|i: int|
            0 <= i < ss.len() && (#[trigger] ss[i]).0 == to && ss[i].1 == sig,
    decreases ss.len(),
{
    if ss.len() > 0 {
        lemma_has_sig_index(ss.drop_last(), to, sig);
        if ss.last().0 == to && ss.last().1 == sig {
            assert(ss[ss.len() - 1].0 == to && ss[ss.len() - 1].1 == sig);
        } else if has_sig(ss.drop_last(), to, sig) {
            let i = choose|i: int|
                0 <= i < ss.drop_last().len() && (#[trigger] ss.drop_last()[i]).0 == to
                    && ss.drop_last()[i].1 == sig;
            assert(ss[i].0 == to && ss[i].1 == sig);
        } else {
            assert forall|i: int| 0 <= i < ss.len() implies
                !((#[trigger] ss[i]).0 == to && ss[i].1 == sig) by {
                if i < ss.len() - 1 {
                    assert(ss.drop_last()[i] == ss[i]);
                }
            }
        }
    }
}

/// Counts one more `from -> to` call, inserting the pair at one when
/// absent; an existing count sticks at the 16-bit bound.
fn upsert_call(rows: &mut Vec<CallRow>, to: &Address, from: &Address)
    requires
        calls_wf(call_view(old(rows)@)),
        to.wf(),
        from.wf(),
    ensures
        calls_wf(call_view(final(rows)@)),
        has_call(call_view(old(rows)@), to@, from@) ==> exists|k: int|
            0 <= k < call_view(old(rows)@).len()
                && (#[trigger] call_view(old(rows)@)[k]).0 == to@
                && call_view(old(rows)@)[k].1 == from@ && call_view(final(rows)@) == call_view(
                old(rows)@,
            ).update(k, (to@, from@, sat_inc16(call_view(old(rows)@)[k].2))),
        !has_call(call_view(old(rows)@), to@, from@) ==> call_view(final(rows)@) == call_view(
            old(rows)@,
        ).push((to@, from@, 1u16)),
{
    let ghost cs = call_view(rows@);
    let mut i: usize = rows.len();
    proof {
        assert(cs.take(i as int) =~= cs);
    }
    while i > 0
        invariant
            i <= rows.len(),
            rows@ == old(rows)@,
            cs == call_view(rows@),
            calls_wf(cs),
            has_call(cs, to@, from@) == has_call(cs.take(i as int), to@, from@),
        decreases i,
    {
        i = i - 1;
        if rows[i].to.eq_addr(to) && rows[i].from.eq_addr(from) {
            proof {
                assert(cs.take(i + 1).last() == cs[i as int]);
                assert(cs[i as int].0 == to@ && cs[i as int].1 == from@);
                assert(has_call(cs.take(i + 1), to@, from@));
            }
            let c = rows[i].count;
            let new_count = if c == 0xffff {
                c
            } else {
                c + 1
            };
            assert(c == cs[i as int].2);
            let updated = CallRow { to: to.dup(), from: from.dup(), count: new_count };
            rows.set(i, updated);
            proof {
                let new_cs = call_view(rows@);
                assert(new_cs =~= cs.update(i as int, (to@, from@, sat_inc16(c))));
                assert forall|j: int| 0 <= j < new_cs.len() implies (#[trigger] new_cs[j]).0
                    == cs[j].0 && new_cs[j].1 == cs[j].1 by {}
                assert(calls_wf(new_cs));
            }
            return ;
        }
        proof {
            assert(cs.take(i + 1).drop_last() =~= cs.take(i as int));
        }
    }
    assert(!has_call(cs, to@, from@));
    rows.push(CallRow { to: to.dup(), from: from.dup(), count: 1 });
    proof {
        assert(call_view(rows@) =~= cs.push((to@, from@, 1u16)));
        lemma_has_call_index(cs, to@, from@);
        assert forall|a: int, b: int|
            0 <= a < b < call_view(rows@).len() implies !((#[trigger] call_view(rows@)[a]).0
            == (#[trigger] call_view(rows@)[b]).0 && call_view(rows@)[a].1
            == call_view(rows@)[b].1) by {
            if b < cs.len() {
            } else {
                assert(call_view(rows@)[a] == cs[a]);
            }
        }
    }
}

/// Adds `gas` onto the `from -> to` edge, inserting it when absent; an
/// existing figure sticks at the 64-bit bound.
fn upsert_gas(rows: &mut Vec<GasRow>, from: &Address, to: &Address, gas: u64)
    requires
        gases_wf(gas_view(old(rows)@)),
        to.wf(),
        from.wf(),
    ensures
        gases_wf(gas_view(final(rows)@)),
        has_gas(gas_view(old(rows)@), from@, to@) ==> exists|k: int|
            0 <= k < gas_view(old(rows)@).len() && (#[trigger] gas_view(old(rows)@)[k]).0
                == from@ && gas_view(old(rows)@)[k].1 == to@ && gas_view(final(rows)@)
                == gas_view(old(rows)@).update(
                k,
                (from@, to@, sat_add64(gas_view(old(rows)@)[k].2, gas)),
            ),
        !has_gas(gas_view(old(rows)@), from@, to@) ==> gas_view(final(rows)@) == gas_view(
            old(rows)@,
        ).push((from@, to@, gas)),
{
    let ghost gs = gas_view(rows@);
    let mut i: usize = rows.len();
    proof {
        assert(gs.take(i as int) =~= gs);
    }
    while i > 0
        invariant
            i <= rows.len(),
            rows@ == old(rows)@,
            gs == gas_view(rows@),
            gases_wf(gs),
            has_gas(gs, from@, to@) == has_gas(gs.take(i as int), from@, to@),
        decreases i,
    {
        i = i - 1;
        if rows[i].from.eq_addr(from) && rows[i].to.eq_addr(to) {
            proof {
                assert(gs.take(i + 1).last() == gs[i as int]);
                assert(gs[i as int].0 == from@ && gs[i as int].1 == to@);
                assert(has_gas(gs.take(i + 1), from@, to@));
            }
            let g = rows[i].gas_used;
            let new_gas = if gas > u64::MAX - g {
                u64::MAX
            } else {
                g + gas
            };
            assert(g == gs[i as int].2);
            let updated = GasRow { from: from.dup(), to: to.dup(), gas_used: new_gas };
            rows.set(i, updated);
            proof {
                let new_gs = gas_view(rows@);
                assert(new_gs =~= gs.update(i as int, (from@, to@, sat_add64(g, gas))));
                assert forall|j: int| 0 <= j < new_gs.len() implies (#[trigger] new_gs[j]).0
                    == gs[j].0 && new_gs[j].1 == gs[j].1 by {}
                assert(gases_wf(new_gs));
            }
            return ;
        }
        proof {
            assert(gs.take(i + 1).drop_last() =~= gs.take(i as int));
        }
    }
    assert(!has_gas(gs, from@, to@));
    rows.push(GasRow { from: from.dup(), to: to.dup(), gas_used: gas });
    proof {
        assert(gas_view(rows@) =~= gs.push((from@, to@, gas)));
        lemma_has_gas_index(gs, from@, to@);
        assert forall|a: int, b: int|
            0 <= a < b < gas_view(rows@).len() implies !((#[trigger] gas_view(rows@)[a]).0
            == (#[trigger] gas_view(rows@)[b]).0 && gas_view(rows@)[a].1
            == gas_view(rows@)[b].1) by {
            if b < gs.len() {
            } else {
                assert(gas_view(rows@)[a] == gs[a]);
            }
        }
    }
}

/// `has_gas` holds exactly when some row carries the pair.
pub proof fn lemma_has_gas_index(gs: Seq<(Seq<u8>, Seq<u8>, u64)>, from: Seq<u8>, to: Seq<u8>)
    ensures
        has_gas(gs, from, to) <==> exists|i: int|
            0 <= i < gs.len() && (#[trigger] gs[i]).0 == from && gs[i].1 == to,
    decreases gs.len(),
{
    if gs.len() > 0 {
        lemma_has_gas_index(gs.drop_last(), from, to);
        if gs.last().0 == from && gs.last().1 == to {
            assert(gs[gs.len() - 1].0 == from && gs[gs.len() - 1].1 == to);
        } else if has_gas(gs.drop_last(), from, to) {
            let i = choose|i: int|
                0 <= i < gs.drop_last().len() && (#[trigger] gs.drop_last()[i]).0 == from
                    && gs.drop_last()[i].1 == to;
            assert(gs[i].0 == from && gs[i].1 == to);
        } else {
            assert forall|i: int| 0 <= i < gs.len() implies
                !((#[trigger] gs[i]).0 == from && gs[i].1 == to) by {
                if i < gs.len() - 1 {
                    assert(gs.drop_last()[i] == gs[i]);
                }
            }
        }
    }
}

/// `n` clamped into the 16-bit range.
pub open spec fn cap16(n: int) -> u16 {
    if n > 0xffff {
        0xffffu16
    } else if n < 0 {
        0u16
    } else {
        n as u16
    }
}

/// `n` clamped into the 64-bit range.
pub open spec fn cap64(n: int) -> u64 {
    if n > u64::MAX {
        u64::MAX
    } else if n < 0 {
        0u64
    } else {
        n as u64
    }
}

/// The gas figures of rows whose caller lies in `dom`, summed.
pub open spec fn gas_sum_in(gs: Seq<(Seq<u8>, Seq<u8>, u64)>, dom: Set<Seq<u8>>) -> int
    decreases gs.len(),
{
    if gs.len() == 0 {
        0
    } else {
        gas_sum_in(gs.drop_last(), dom) + if dom.contains(gs.last().0) {
            gs.last().2 as int
        } else {
            0
        }
    }
}

/// The count `from` made into `to`, zero when the pair is absent.
pub(crate) fn count_of(rows: &Vec<CallRow>, to: &Address, from: &Address) -> (r: u16)
    ensures
        r == call_count(call_view(rows@), to@, from@),
{
    let ghost cs = call_view(rows@);
    let mut i: usize = rows.len();
    proof {
        assert(cs.take(i as int) =~= cs);
    }
    while i > 0
        invariant
            i <= rows.len(),
            cs == call_view(rows@),
            call_count(cs, to@, from@) == call_count(cs.take(i as int), to@, from@),
        decreases i,
    {
        i = i - 1;
        if rows[i].to.eq_addr(to) && rows[i].from.eq_addr(from) {
            proof {
                assert(cs.take(i + 1).last() == cs[i as int]);
            }
            return rows[i].count;
        }
        proof {
            assert(cs.take(i + 1).drop_last() =~= cs.take(i as int));
        }
    }
    0
}

/// The counts into `to` summed over all callers, clamped at the
/// 16-bit bound.
pub(crate) fn count_sum(rows: &Vec<CallRow>, to: &Address) -> (r: u16)
    ensures
        r == cap16(count_sum_to(call_view(rows@), to@)),
{
    let ghost cs = call_view(rows@);
    let mut acc: u16 = 0;
    let mut i: usize = 0;
    while i < rows.len()
        invariant
            i <= rows.len(),
            cs == call_view(rows@),
            count_sum_to(cs.take(i as int), to@) >= 0,
            acc == cap16(count_sum_to(cs.take(i as int), to@)),
        decreases rows.len() - i,
    {
        proof {
            assert(cs.take(i + 1).drop_last() =~= cs.take(i as int));
            assert(cs.take(i + 1).last() == cs[i as int]);
        }
        if rows[i].to.eq_addr(to) {
            let c = rows[i].count;
            acc = if c > 0xffff - acc {
                0xffff
            } else {
                acc + c
            };
        }
        i = i + 1;
    }
    proof {
        assert(cs.take(rows@.len() as int) =~= cs);
    }
    acc
}

/// The gas spent by callers with an entry in `dm`, clamped at the
/// 64-bit bound.
pub(crate) fn gas_sum_for(rows: &Vec<GasRow>, dm: &crate::emit::DegreeMap) -> (r: u64)
    ensures
        r == cap64(gas_sum_in(gas_view(rows@), Set::new(|k: Seq<u8>| dm.contains(k)))),
{
    let ghost gs = gas_view(rows@);
    let ghost dom = Set::new(|k: Seq<u8>| dm.contains(k));
    let mut acc: u64 = 0;
    let mut i: usize = 0;
    while i < rows.len()
        invariant
            i <= rows.len(),
            gs == gas_view(rows@),
            dom == Set::new(|k: Seq<u8>| dm.contains(k)),
            gas_sum_in(gs.take(i as int), dom) >= 0,
            acc == cap64(gas_sum_in(gs.take(i as int), dom)),
        decreases rows.len() - i,
    {
        proof {
            assert(gs.take(i + 1).drop_last() =~= gs.take(i as int));
            assert(gs.take(i + 1).last() == gs[i as int]);
        }
        if dm.contains_exec(&rows[i].from) {
            assert(dom.contains(gs[i as int].0));
            let g = rows[i].gas_used;
            acc = if g > u64::MAX - acc {
                u64::MAX
            } else {
                acc + g
            };
        } else {
            assert(!dom.contains(gs[i as int].0));
        }
        i = i + 1;
    }
    proof {
        assert(gs.take(rows@.len() as int) =~= gs);
    }
    acc
}

/// Every selector recorded for `a`, as a set in first-seen order.
pub(crate) fn sigs_of(rows: &Vec<SigRow>, a: &Address) -> (r: crate::sets::SigSet)
    requires
        sigs_wf(sig_view(rows@)),
    ensures
        r.wf(),
        r.set_view() == sigs_for(sig_view(rows@), a@),
{
    let ghost ss = sig_view(rows@);
    let mut r = crate::sets::SigSet::new();
    proof {
        assert(r.set_view() =~= sigs_for(ss.take(0), a@));
    }
    let mut i: usize = 0;
    while i < rows.len()
        invariant
            i <= rows.len(),
            ss == sig_view(rows@),
            sigs_wf(ss),
            r.wf(),
            r.set_view() == sigs_for(ss.take(i as int), a@),
        decreases rows.len() - i,
    {
        proof {
            assert(ss.take(i + 1).drop_last() =~= ss.take(i as int));
            assert(ss.take(i + 1).last() == ss[i as int]);
        }
        if rows[i].to.eq_addr(a) {
            proof {
                assert(ss[i as int].1.len() == 4);
                assert(rows@[i as int].sig.wf());
            }
            r.insert(&rows[i].sig);
        }
        i = i + 1;
    }
    proof {
        assert(ss.take(rows@.len() as int) =~= ss);
    }
    r
}

/// The pairing-input widths recorded for `a`, in call order.
pub(crate) fn sizes_of(rows: &Vec<SizeRow>, a: &Address) -> (r: Vec<u32>)
    ensures
        r@ == sizes_for(size_view(rows@), a@),
{
    let ghost zs = size_view(rows@);
    let mut r: Vec<u32> = Vec::new();
    proof {
        assert(r@ =~= sizes_for(zs.take(0), a@));
    }
    let mut i: usize = 0;
    while i < rows.len()
        invariant
            i <= rows.len(),
            zs == size_view(rows@),
            r@ == sizes_for(zs.take(i as int), a@),
        decreases rows.len() - i,
    {
        proof {
            assert(zs.take(i + 1).drop_last() =~= zs.take(i as int));
            assert(zs.take(i + 1).last() == zs[i as int]);
        }
        if rows[i].from.eq_addr(a) {
            r.push(rows[i].size);
        }
        i = i + 1;
    }
    proof {
        assert(zs.take(rows@.len() as int) =~= zs);
    }
    r
}

/// Every recorded pairing-input width, in call order.
pub(crate) fn sizes_all(rows: &Vec<SizeRow>) -> (r: Vec<u32>)
    ensures
        r@ == all_sizes(size_view(rows@)),
{
    let ghost zs = size_view(rows@);
    let mut r: Vec<u32> = Vec::new();
    proof {
        assert(r@ =~= all_sizes(zs.take(0)));
    }
    let mut i: usize = 0;
    while i < rows.len()
        invariant
            i <= rows.len(),
            zs == size_view(rows@),
            r@ == all_sizes(zs.take(i as int)),
        decreases rows.len() - i,
    {
        proof {
            assert(zs.take(i + 1).drop_last() =~= zs.take(i as int));
            assert(zs.take(i + 1).last() == zs[i as int]);
        }
        r.push(rows[i].size);
        i = i + 1;
    }
    proof {
        assert(zs.take(rows@.len() as int) =~= zs);
    }
    r
}

/// The keys of a degree map as an address set, in entry order.
pub(crate) fn keys_set(dm: &crate::emit::DegreeMap) -> (r: AddrSet)
    requires
        dm.wf(),
    ensures
        r.wf(),
        r.seq_view() == dm.keys(),
        r.set_view() == Set::new(|k: Seq<u8>| dm.contains(k)),
{
    let mut r = AddrSet::new();
    let mut i: usize = 0;
    while i < dm.len()
        invariant
            i <= dm.keys().len(),
            dm.wf(),
            r.wf(),
            r.seq_view() == dm.keys().take(i as int),
        decreases dm.keys().len() - i,
    {
        let e = dm.get(i);
        proof {
            if r.seq_view().contains(e.addr@) {
                let j = choose|j: int|
                    0 <= j < r.seq_view().len() && r.seq_view()[j] == e.addr@;
                assert(dm.keys()[j] == e.addr@);
                assert(dm.keys()[j] != dm.keys()[i as int]);
                assert(false);
            }
        }
        r.insert(&e.addr);
        proof {
            assert(r.seq_view() =~= dm.keys().take(i + 1));
        }
        i = i + 1;
    }
    proof {
        assert(dm.keys().take(dm.keys().len() as int) =~= dm.keys());
        assert forall|k: Seq<u8>| r.set_view().contains(k) == dm.contains(k) by {}
        assert(r.set_view() =~= Set::new(|k: Seq<u8>| dm.contains(k)));
    }
    r
}


/// The contract record at `i`; meaningful only where `rs[i]` is one.
pub open spec fn contract_at(rs: Seq<EtlResult>, i: int) -> Contract {
    match rs[i] {
        EtlResult::Contract(c) => c,
        _ => arbitrary(),
    }
}

/// The address of the contract record at `i`.
pub open spec fn contract_addr_at(rs: Seq<EtlResult>, i: int) -> Seq<u8> {
    contract_at(rs, i).address@
}

/// The transaction's closest addresses: the second-degree callers when
/// any exist, else the first-degree callers.
pub open spec fn closest_of(cs: Seq<(Seq<u8>, Seq<u8>, u16)>, eoa: Seq<u8>) -> Set<Seq<u8>> {
    if exists|k: Seq<u8>| is_second_degree(cs, k, eoa) {
        Set::new(|k: Seq<u8>| is_second_degree(cs, k, eoa))
    } else {
        Set::new(|k: Seq<u8>| is_first_degree(cs, k))
    }
}

/// What every emitted `Contract` satisfies: fields are the table
/// lookups for its address, and its degree names the map it came from.
pub open spec fn contract_ok(t: &TraceTree, eoa: Seq<u8>, c: Contract) -> bool {
    let cs = t.calls();
    &&& c.chain_id == t.spec_chain_id()
    &&& c.address.wf()
    &&& is_first_degree(cs, c.address@) || is_second_degree(cs, c.address@, eoa)
    &&& c.degree == (if is_first_degree(cs, c.address@) {
        0u8
    } else {
        1u8
    })
    &&& c.function_signatures.set_view() == sigs_for(t.sigs(), c.address@)
    &&& c.ec_recover_count == call_count(cs, ec_recover(), c.address@)
    &&& c.ec_add_count == call_count(cs, ec_add(), c.address@)
    &&& c.ec_mul_count == call_count(cs, ec_mul(), c.address@)
    &&& c.ec_pairing_count == call_count(cs, ec_pairing(), c.address@)
    &&& c.ec_pairing_input_sizes@ == sizes_for(t.sizes(), c.address@)
    &&& c.call.set_view() == (if is_first_degree(cs, c.address@) {
        fd_calls(cs, c.address@)
    } else {
        sd_calls(cs, c.address@)
    })
}

/// What the emitted `Transaction` satisfies: root-trace identifiers,
/// clamped per-precompile totals, and degree-filtered gas sums.
pub open spec fn transaction_ok(t: &TraceTree, tx: Transaction) -> bool {
    let ft = t.first().unwrap();
    let eoa = ft.from_address.unwrap();
    let cs = t.calls();
    &&& tx.chain_id == t.spec_chain_id()
    &&& tx.from_address@ == eoa
    &&& tx.to_address@ == ft.to_address.unwrap()
    &&& tx.closest_address.set_view() == closest_of(cs, eoa)
    &&& tx.function_signature@ == (match ft.input {
        Some(b) => sig_of(b),
        None => zero_sig(),
    })
    &&& tx.transaction_hash@ == ft.transaction_hash.unwrap()
    &&& tx.transaction_index == ft.transaction_index.unwrap()
    &&& tx.block_number == ft.block_number
    &&& tx.block_timestamp == ft.block_timestamp
    &&& crate::trace::view_hash(tx.block_hash) == ft.block_hash
    &&& tx.value == (match ft.value {
        Some(v) => v,
        None => 0u128,
    })
    &&& tx.input@ == (match ft.input {
        Some(b) => b,
        None => Seq::<u8>::empty(),
    })
    &&& tx.gas_used.requested == (match ft.gas {
        Some(g) => g,
        None => 0u64,
    })
    &&& tx.gas_used.total == (match ft.gas_used {
        Some(g) => g,
        None => 0u64,
    })
    &&& tx.gas_used.first_degree == cap64(
        gas_sum_in(t.gases(), Set::new(|k: Seq<u8>| is_first_degree(cs, k))),
    )
    &&& tx.gas_used.second_degree == cap64(
        gas_sum_in(t.gases(), Set::new(|k: Seq<u8>| is_second_degree(cs, k, eoa))),
    )
    &&& tx.ec_recover_count == cap16(count_sum_to(cs, ec_recover()))
    &&& tx.ec_add_count == cap16(count_sum_to(cs, ec_add()))
    &&& tx.ec_mul_count == cap16(count_sum_to(cs, ec_mul()))
    &&& tx.ec_pairing_count == cap16(count_sum_to(cs, ec_pairing()))
    &&& tx.ec_pairing_input_sizes@ == all_sizes(t.sizes())
    &&& tx.ec_recover_addresses.seq_view() == t.recovered()
    &&& crate::trace::view_text(tx.error) == ft.error
}

/// What a committed batch satisfies: one contract per caller in the
/// first- or second-degree neighbourhood (first degree winning a tie),
/// each pinned by `contract_ok`, and the transaction summary last.
pub open spec fn commit_post(t: &TraceTree, rs: Seq<EtlResult>) -> bool {
    let ft = t.first().unwrap();
    let eoa = ft.from_address.unwrap();
    let cs = t.calls();
    &&& rs.len() >= 1
    &&& (rs.last() matches EtlResult::Transaction(tx) && transaction_ok(t, tx))
    &&& forall|i: int| 0 <= i < rs.len() - 1 ==> (#[trigger] rs[i]) is Contract
    &&& forall|i: int|
        0 <= i < rs.len() - 1 ==> contract_ok(t, eoa, #[trigger] contract_at(rs, i))
    &&& forall|i: int, j: int|
        0 <= i < j < rs.len() - 1 ==> #[trigger] contract_addr_at(rs, i)
            != #[trigger] contract_addr_at(rs, j)
    &&& forall|k: Seq<u8>| #[trigger] is_first_degree(cs, k) ==> exists|i: int|
        0 <= i < rs.len() - 1 && #[trigger] contract_addr_at(rs, i) == k
    &&& forall|k: Seq<u8>| #[trigger] is_second_degree(cs, k, eoa) ==> exists|i: int|
        0 <= i < rs.len() - 1 && #[trigger] contract_addr_at(rs, i) == k
}

/// The originating account is never a second-degree caller of its own
/// transaction, so no emitted contract carries it at degree one.
pub proof fn lemma_eoa_not_second_degree(t: &TraceTree, rs: Seq<EtlResult>, i: int)
    requires
        commit_post(t, rs),
        t.first() matches Some(ft) && ft.populated(),
        0 <= i < rs.len() - 1,
        contract_at(rs, i).degree == 1,
    ensures
        contract_addr_at(rs, i) != t.first().unwrap().from_address.unwrap(),
{
    let eoa = t.first().unwrap().from_address.unwrap();
    let c = contract_at(rs, i);
    assert(contract_ok(t, eoa, c));
    assert(!is_first_degree(t.calls(), c.address@));
    assert(is_second_degree(t.calls(), c.address@, eoa));
}

impl TraceTree {
    /// True when the root trace arrived with every identifier the
    /// summary needs and the transaction touched a trigger precompile.
    pub open spec fn emits(&self) -> bool {
        &&& (self.first() matches Some(t) && t.populated())
        &&& (has_callee(self.calls(), ec_recover()) || has_callee(self.calls(), ec_pairing()))
    }

    /// The callers of the trigger precompiles, each with the triggers
    /// it called.
    fn first_degree_callers(&self) -> (fd: DegreeMap)
        requires
            self.wf(),
        ensures
            fd.wf(),
            forall|k: Seq<u8>| #[trigger] fd.contains(k) == is_first_degree(self.calls(), k),
            forall|k: Seq<u8>| #[trigger] fd.val_of(k) == fd_calls(self.calls(), k),
    {
        let ghost cs = self.calls();
        let mut fd = DegreeMap::new();
        let pairing = Address::precompile(8);
        add_callers_of(&mut fd, &self.call_rows, &pairing, None);
        let ghost mid = fd;
        let recover = Address::precompile(1);
        add_callers_of(&mut fd, &self.call_rows, &recover, None);
        proof {
            assert(ec_pairing() != ec_recover()) by {
                assert(ec_pairing()[19] == 8u8);
                assert(ec_recover()[19] == 1u8);
            }
            assert forall|k: Seq<u8>| #[trigger] fd.contains(k) == is_first_degree(cs, k) by {}
            assert forall|k: Seq<u8>| #[trigger] fd.val_of(k) == fd_calls(cs, k) by {
                assert forall|a: Seq<u8>| fd.val_of(k).contains(a) == fd_calls(cs, k).contains(
                    a,
                ) by {
                    assert(mid.val_of(k) == if has_call(cs, ec_pairing(), k) {
                        Set::<Seq<u8>>::empty().insert(ec_pairing())
                    } else {
                        Set::<Seq<u8>>::empty()
                    });
                }
                assert(fd.val_of(k) =~= fd_calls(cs, k));
            }
        }
        fd
    }

    /// The callers of the first-degree callers, without the
    /// originating account, each with the first-degree callers it
    /// called.
    fn second_degree_callers(&self, fd: &DegreeMap, eoa: &Address) -> (sd: DegreeMap)
        requires
            self.wf(),
            fd.wf(),
            forall|k: Seq<u8>| #[trigger] fd.contains(k) == is_first_degree(self.calls(), k),
        ensures
            sd.wf(),
            forall|k: Seq<u8>| #[trigger] sd.contains(k) == is_second_degree(
                self.calls(),
                k,
                eoa@,
            ),
            forall|k: Seq<u8>| #[trigger] sd.contains(k) ==> sd.val_of(k) == sd_calls(
                self.calls(),
                k,
            ),
    {
        let ghost cs = self.calls();
        let mut sd = DegreeMap::new();
        proof {
            assert(fd.keys().take(0) =~= Seq::<Seq<u8>>::empty());
        }
        let mut j: usize = 0;
        while j < fd.len()
            invariant
                j <= fd.keys().len(),
                cs == self.calls(),
                self.wf(),
                fd.wf(),
                forall|k: Seq<u8>| #[trigger] fd.contains(k) == is_first_degree(cs, k),
                sd.wf(),
                forall|k: Seq<u8>| #[trigger] sd.contains(k) == (k != eoa@ && called_by_any(
                    cs,
                    fd.keys().take(j as int),
                    k,
                )),
                forall|k: Seq<u8>| k != eoa@ ==> #[trigger] sd.val_of(k) == calls_from(
                    cs,
                    fd.keys().take(j as int),
                    k,
                ),
            decreases fd.keys().len() - j,
        {
            let e = fd.get(j);
            let ghost pre = sd;
            add_callers_of(&mut sd, &self.call_rows, &e.addr, Some(eoa));
            proof {
                let tk1 = fd.keys().take(j + 1);
                assert(tk1.drop_last() =~= fd.keys().take(j as int));
                assert(tk1.last() == fd.keys()[j as int]);
                assert forall|k: Seq<u8>| #[trigger] sd.contains(k) == (k != eoa@
                    && called_by_any(cs, tk1, k)) by {}
                assert forall|k: Seq<u8>| k != eoa@ implies #[trigger] sd.val_of(k) == calls_from(
                    cs,
                    tk1,
                    k,
                ) by {}
            }
            j = j + 1;
        }
        proof {
            assert(fd.keys().take(fd.keys().len() as int) =~= fd.keys());
            assert forall|k: Seq<u8>| #[trigger] sd.contains(k) == is_second_degree(
                cs,
                k,
                eoa@,
            ) by {
                lemma_called_by_any_index(cs, fd.keys(), k);
                if k != eoa@ && called_by_any(cs, fd.keys(), k) {
                    let i = choose|i: int|
                        0 <= i < fd.keys().len() && has_call(cs, #[trigger] fd.keys()[i], k);
                    assert(fd.keys().contains(fd.keys()[i]));
                    assert(fd.contains(fd.keys()[i]));
                    assert(is_first_degree(cs, fd.keys()[i]));
                }
                if is_second_degree(cs, k, eoa@) {
                    let a = choose|a: Seq<u8>|
                        #[trigger] is_first_degree(cs, a) && has_call(cs, a, k);
                    assert(fd.contains(a));
                    let i = choose|i: int| 0 <= i < fd.keys().len() && #[trigger] fd.keys()[i] == a;
                    assert(has_call(cs, fd.keys()[i], k));
                }
            }
            assert forall|k: Seq<u8>| #[trigger] sd.contains(k) implies sd.val_of(k) == sd_calls(
                cs,
                k,
            ) by {
                assert(k != eoa@);
                assert forall|a: Seq<u8>| sd.val_of(k).contains(a) == sd_calls(cs, k).contains(
                    a,
                ) by {
                    lemma_calls_from_members(cs, fd.keys(), k, a);
                    if fd.keys().contains(a) {
                        assert(fd.contains(a));
                    }
                    if is_first_degree(cs, a) {
                        assert(fd.contains(a));
                    }
                }
                assert(sd.val_of(k) =~= sd_calls(cs, k));
            }
        }
        sd
    }

    /// One contract record: every field the table lookup for `a`.
    fn build_contract(
        &self,
        a: &Address,
        called: &AddrSet,
        degree: u8,
        eoa: Ghost<Seq<u8>>,
    ) -> (c: Contract)
        requires
            self.wf(),
            a.wf(),
            degree == 0 ==> is_first_degree(self.calls(), a@) && called.set_view() == fd_calls(
                self.calls(),
                a@,
            ),
            degree == 1 ==> !is_first_degree(self.calls(), a@) && is_second_degree(
                self.calls(),
                a@,
                eoa@,
            ) && called.set_view() == sd_calls(self.calls(), a@),
            degree == 0 || degree == 1,
        ensures
            contract_ok(self, eoa@, c),
            c.address@ == a@,
    {
        let recover_a = Address::precompile(1);
        let add_a = Address::precompile(6);
        let mul_a = Address::precompile(7);
        let pairing_a = Address::precompile(8);
        Contract {
            chain_id: self.chain_id,
            address: a.dup(),
            function_signatures: sigs_of(&self.sig_rows, a),
            degree,
            ec_recover_count: count_of(&self.call_rows, &recover_a, a),
            ec_add_count: count_of(&self.call_rows, &add_a, a),
            ec_mul_count: count_of(&self.call_rows, &mul_a, a),
            ec_pairing_count: count_of(&self.call_rows, &pairing_a, a),
            ec_pairing_input_sizes: sizes_of(&self.size_rows, a),
            call: called.dup(),
        }
    }

    /// Summarises the finished transaction, emitting one contract per
    /// caller in the trigger neighbourhood and one transaction record,
    /// or nothing when the root trace is incomplete or no trigger
    /// precompile was called.
    pub fn commit(&self) -> (r: Option<Vec<EtlResult>>)
        requires
            self.wf(),
        ensures
            r is Some <==> self.emits(),
            r matches Some(rs) ==> commit_post(self, rs@),
    {
        let ft = match &self.first_trace {
            Some(t) => t,
            None => {
                return None;
            },
        };
        let (tx_hash, tx_index, from_addr, to_addr) = match (
            &ft.transaction_hash,
            &ft.transaction_index,
            &ft.from_address,
            &ft.to_address,
        ) {
            (Some(h), Some(ix), Some(f), Some(t)) => (h, *ix, f, t),
            _ => {
                return None;
            },
        };
        if !self.commit_filter() {
            return None;
        }
        let ghost cs = self.calls();
        let ghost eoa = from_addr@;
        let fd = self.first_degree_callers();
        let sd = self.second_degree_callers(&fd, from_addr);
        let mut results: Vec<EtlResult> = Vec::new();
        let mut j: usize = 0;
        while j < fd.len()
            invariant
                j <= fd.keys().len(),
                cs == self.calls(),
                eoa == from_addr@,
                self.wf(),
                fd.wf(),
                forall|k: Seq<u8>| #[trigger] fd.contains(k) == is_first_degree(cs, k),
                forall|k: Seq<u8>| #[trigger] fd.val_of(k) == fd_calls(cs, k),
                results@.len() == j,
                forall|idx: int| 0 <= idx < j ==> (#[trigger] results@[idx]) is Contract,
                forall|idx: int|
                    0 <= idx < j ==> #[trigger] contract_addr_at(results@, idx) == fd.keys()[idx],
                forall|idx: int|
                    0 <= idx < j ==> contract_ok(self, eoa, #[trigger] contract_at(results@, idx)),
            decreases fd.keys().len() - j,
        {
            let e = fd.get(j);
            proof {
                assert(fd.keys().contains(fd.keys()[j as int]));
                assert(fd.contains(e.addr@));
                assert(e.addr.wf());
            }
            let ghost before = results@;
            let c = self.build_contract(&e.addr, &e.called, 0, Ghost(eoa));
            results.push(EtlResult::Contract(c));
            proof {
                assert forall|idx: int| 0 <= idx < j + 1 implies (#[trigger] results@[idx])
                    is Contract && contract_addr_at(results@, idx) == fd.keys()[idx]
                    && contract_ok(self, eoa, contract_at(results@, idx)) by {
                    if idx < j {
                        assert(results@[idx] == before[idx]);
                        assert(contract_at(results@, idx) == contract_at(before, idx));
                        assert(contract_addr_at(results@, idx) == contract_addr_at(before, idx));
                    } else {
                        assert(results@[idx] == EtlResult::Contract(c));
                        assert(contract_at(results@, idx) == c);
                        assert(c.address@ == fd.keys()[idx]);
                    }
                }
            }
            j = j + 1;
        }
        let ghost nfd = fd.keys().len() as int;
        let mut m: usize = 0;
        while m < sd.len()
            invariant
                m <= sd.keys().len(),
                cs == self.calls(),
                eoa == from_addr@,
                self.wf(),
                fd.wf(),
                sd.wf(),
                forall|k: Seq<u8>| #[trigger] fd.contains(k) == is_first_degree(cs, k),
                forall|k: Seq<u8>| #[trigger] fd.val_of(k) == fd_calls(cs, k),
                forall|k: Seq<u8>| #[trigger] sd.contains(k) == is_second_degree(cs, k, eoa),
                forall|k: Seq<u8>| #[trigger] sd.contains(k) ==> sd.val_of(k) == sd_calls(cs, k),
                nfd == fd.keys().len() as int,
                results@.len() >= nfd,
                forall|idx: int|
                    0 <= idx < results@.len() ==> (#[trigger] results@[idx]) is Contract,
                forall|idx: int|
                    0 <= idx < nfd ==> #[trigger] contract_addr_at(results@, idx)
                        == fd.keys()[idx],
                forall|idx: int|
                    0 <= idx < results@.len() ==> contract_ok(
                        self,
                        eoa,
                        #[trigger] contract_at(results@, idx),
                    ),
                forall|idx: int|
                    0 <= idx < results@.len() ==> fd.keys().contains(
                        #[trigger] contract_addr_at(results@, idx),
                    ) || sd.keys().take(m as int).contains(contract_addr_at(results@, idx)),
                forall|i1: int, i2: int|
                    0 <= i1 < i2 < results@.len() ==> #[trigger] contract_addr_at(results@, i1)
                        != #[trigger] contract_addr_at(results@, i2),
                forall|k: Seq<u8>|
                    sd.keys().take(m as int).contains(k) && !fd.contains(k) ==> exists|idx: int|
                        0 <= idx < results@.len() && #[trigger] contract_addr_at(results@, idx)
                            == k,
            decreases sd.keys().len() - m,
        {
            let e = sd.get(m);
            proof {
                assert(sd.keys().contains(sd.keys()[m as int]));
                assert(sd.contains(e.addr@));
                assert(e.addr.wf());
            }
            let ghost before = results@;
            if !fd.contains_exec(&e.addr) {
                let c = self.build_contract(&e.addr, &e.called, 1, Ghost(eoa));
                results.push(EtlResult::Contract(c));
                proof {
                    assert forall|idx: int| 0 <= idx < results@.len() implies (
                    #[trigger] results@[idx]) is Contract && contract_ok(
                        self,
                        eoa,
                        contract_at(results@, idx),
                    ) by {
                        if idx < before.len() {
                            assert(results@[idx] == before[idx]);
                            assert(contract_at(results@, idx) == contract_at(before, idx));
                        assert(contract_addr_at(results@, idx) == contract_addr_at(before, idx));
                        } else {
                            assert(results@[idx] == EtlResult::Contract(c));
                            assert(contract_at(results@, idx) == c);
                        }
                    }
                    assert forall|idx: int| 0 <= idx < nfd implies
                        #[trigger] contract_addr_at(results@, idx) == fd.keys()[idx] by {
                        assert(results@[idx] == before[idx]);
                        assert(contract_at(results@, idx) == contract_at(before, idx));
                        assert(contract_addr_at(results@, idx) == contract_addr_at(before, idx));
                    }
                    assert forall|idx: int| 0 <= idx < results@.len() implies fd.keys().contains(
                        #[trigger] contract_addr_at(results@, idx),
                    ) || sd.keys().take(m + 1).contains(contract_addr_at(results@, idx)) by {
                        if idx < before.len() {
                            assert(results@[idx] == before[idx]);
                            assert(contract_at(results@, idx) == contract_at(before, idx));
                            assert(contract_addr_at(results@, idx) == contract_addr_at(
                                before,
                                idx,
                            ));
                            if sd.keys().take(m as int).contains(
                                contract_addr_at(results@, idx),
                            ) {
                                let w = choose|w: int|
                                    0 <= w < m && #[trigger] sd.keys().take(m as int)[w]
                                        == contract_addr_at(results@, idx);
                                assert(sd.keys().take(m + 1)[w] == contract_addr_at(
                                    results@,
                                    idx,
                                ));
                            }
                        } else {
                            assert(contract_addr_at(results@, idx) == e.addr@);
                            assert(sd.keys().take(m + 1)[m as int] == e.addr@);
                        }
                    }
                    assert forall|i1: int, i2: int|
                        0 <= i1 < i2 < results@.len() implies #[trigger] contract_addr_at(
                        results@,
                        i1,
                    ) != #[trigger] contract_addr_at(results@, i2) by {
                        if i2 == results@.len() - 1 {
                            assert(results@[i1] == before[i1]);
                            assert(contract_at(results@, i1) == contract_at(before, i1));
                            assert(contract_addr_at(results@, i1) == contract_addr_at(
                                before,
                                i1,
                            ));
                            assert(contract_addr_at(results@, i2) == e.addr@);
                            if fd.keys().contains(contract_addr_at(results@, i1)) {
                                assert(fd.contains(contract_addr_at(results@, i1)));
                            } else {
                                assert(sd.keys().take(m as int).contains(
                                    contract_addr_at(results@, i1),
                                ));
                                let w = choose|w: int|
                                    0 <= w < m && #[trigger] sd.keys().take(m as int)[w]
                                        == contract_addr_at(results@, i1);
                                assert(sd.keys()[w] == contract_addr_at(results@, i1));
                                if contract_addr_at(results@, i1) == e.addr@ {
                                    assert(sd.keys()[w] == sd.keys()[m as int]);
                                    assert(false);
                                }
                            }
                        } else {
                            assert(results@[i1] == before[i1]);
                            assert(results@[i2] == before[i2]);
                            assert(contract_at(results@, i1) == contract_at(before, i1));
                            assert(contract_at(results@, i2) == contract_at(before, i2));
                            assert(contract_addr_at(results@, i1) == contract_addr_at(
                                before,
                                i1,
                            ));
                            assert(contract_addr_at(results@, i2) == contract_addr_at(
                                before,
                                i2,
                            ));
                        }
                    }
                    assert forall|k: Seq<u8>|
                        sd.keys().take(m + 1).contains(k) && !fd.contains(k) implies exists|
                        idx: int,
                    |
                        0 <= idx < results@.len() && #[trigger] contract_addr_at(results@, idx)
                            == k by {
                        let w = choose|w: int| 0 <= w < m + 1 && #[trigger] sd.keys().take(m + 1)[w] == k;
                        if w < m {
                            assert(sd.keys().take(m as int)[w] == k);
                            let idx = choose|idx: int|
                                0 <= idx < before.len() && #[trigger] contract_addr_at(
                                    before,
                                    idx,
                                ) == k;
                            assert(results@[idx] == before[idx]);
                            assert(contract_at(results@, idx) == contract_at(before, idx));
                            assert(contract_addr_at(results@, idx) == k);
                        } else {
                            assert(k == e.addr@);
                            assert(contract_addr_at(results@, results@.len() - 1) == k);
                        }
                    }
                }
            } else {
                proof {
                    assert forall|k: Seq<u8>|
                        sd.keys().take(m + 1).contains(k) && !fd.contains(k) implies exists|
                        idx: int,
                    |
                        0 <= idx < results@.len() && #[trigger] contract_addr_at(results@, idx)
                            == k by {
                        let w = choose|w: int| 0 <= w < m + 1 && #[trigger] sd.keys().take(m + 1)[w] == k;
                        assert(w < m) by {
                            if w == m {
                                assert(k == sd.keys()[m as int]);
                            }
                        }
                        assert(sd.keys().take(m as int)[w] == k);
                    }
                    assert forall|idx: int| 0 <= idx < results@.len() implies fd.keys().contains(
                        #[trigger] contract_addr_at(results@, idx),
                    ) || sd.keys().take(m + 1).contains(contract_addr_at(results@, idx)) by {
                        if sd.keys().take(m as int).contains(contract_addr_at(results@, idx)) {
                            let w = choose|w: int|
                                0 <= w < m && #[trigger] sd.keys().take(m as int)[w]
                                    == contract_addr_at(results@, idx);
                            assert(sd.keys().take(m + 1)[w] == contract_addr_at(results@, idx));
                        }
                    }
                }
            }
            m = m + 1;
        }
        let ghost ncontracts = results@.len() as int;
        let closest = if sd.len() > 0 {
            keys_set(&sd)
        } else {
            keys_set(&fd)
        };
        proof {
            if sd.keys().len() > 0 {
                assert(sd.keys().contains(sd.keys()[0]));
                assert(sd.contains(sd.keys()[0]));
                assert(is_second_degree(cs, sd.keys()[0], eoa));
                assert(closest.set_view() =~= closest_of(cs, eoa));
            } else {
                assert forall|k: Seq<u8>| !is_second_degree(cs, k, eoa) by {
                    if sd.contains(k) {
                        let w = choose|w: int| 0 <= w < sd.keys().len() && #[trigger] sd.keys()[w] == k;
                        assert(false);
                    }
                }
                assert(closest.set_view() =~= closest_of(cs, eoa));
            }
        }
        let function_signature = match &ft.input {
            Some(b) => Self::construct_signature(b),
            None => Sig::zero(),
        };
        let recover_a = Address::precompile(1);
        let add_a = Address::precompile(6);
        let mul_a = Address::precompile(7);
        let pairing_a = Address::precompile(8);
        let first_degree_gas = gas_sum_for(&self.gas_rows, &fd);
        let second_degree_gas = gas_sum_for(&self.gas_rows, &sd);
        proof {
            assert(Set::new(|k: Seq<u8>| fd.contains(k)) =~= Set::new(
                |k: Seq<u8>| is_first_degree(cs, k),
            ));
            assert(Set::new(|k: Seq<u8>| sd.contains(k)) =~= Set::new(
                |k: Seq<u8>| is_second_degree(cs, k, eoa),
            ));
        }
        let tx = Transaction {
            chain_id: self.chain_id,
            from_address: from_addr.dup(),
            to_address: to_addr.dup(),
            closest_address: closest,
            function_signature,
            transaction_hash: tx_hash.dup(),
            transaction_index: tx_index,
            block_number: ft.block_number,
            block_timestamp: ft.block_timestamp,
            block_hash: match &ft.block_hash {
                Some(h) => Some(h.dup()),
                None => None,
            },
            value: match ft.value {
                Some(v) => v,
                None => 0,
            },
            input: match &ft.input {
                Some(b) => crate::ids::bytes_dup(b),
                None => Vec::new(),
            },
            gas_used: GasUsed {
                requested: match ft.gas {
                    Some(g) => g,
                    None => 0,
                },
                total: match ft.gas_used {
                    Some(g) => g,
                    None => 0,
                },
                first_degree: first_degree_gas,
                second_degree: second_degree_gas,
            },
            ec_recover_count: count_sum(&self.call_rows, &recover_a),
            ec_add_count: count_sum(&self.call_rows, &add_a),
            ec_mul_count: count_sum(&self.call_rows, &mul_a),
            ec_pairing_count: count_sum(&self.call_rows, &pairing_a),
            ec_pairing_input_sizes: sizes_all(&self.size_rows),
            ec_recover_addresses: self.ec_recover_addresses.dup(),
            error: match &ft.error {
                Some(e) => Some(e.clone()),
                None => None,
            },
        };
        proof {
            assert(transaction_ok(self, tx));
        }
        let ghost contracts_part = results@;
        results.push(EtlResult::Transaction(tx));
        proof {
            let rs = results@;
            assert(rs.len() == ncontracts + 1);
            assert(rs.last() == EtlResult::Transaction(tx));
            assert forall|i: int| 0 <= i < rs.len() - 1 implies (#[trigger] rs[i]) is Contract
                && contract_ok(self, eoa, contract_at(rs, i)) by {
                assert(rs[i] == contracts_part[i]);
                assert(contract_at(rs, i) == contract_at(contracts_part, i));
            }
            assert forall|i1: int, i2: int| 0 <= i1 < i2 < rs.len() - 1 implies
                #[trigger] contract_addr_at(rs, i1) != #[trigger] contract_addr_at(rs, i2) by {
                assert(rs[i1] == contracts_part[i1]);
                assert(rs[i2] == contracts_part[i2]);
                assert(contract_at(rs, i1) == contract_at(contracts_part, i1));
                assert(contract_at(rs, i2) == contract_at(contracts_part, i2));
                assert(contract_addr_at(rs, i1) == contract_addr_at(contracts_part, i1));
                assert(contract_addr_at(rs, i2) == contract_addr_at(contracts_part, i2));
            }
            assert(sd.keys().take(sd.keys().len() as int) =~= sd.keys());
            assert forall|k: Seq<u8>| #[trigger] is_first_degree(cs, k) implies exists|i: int|
                0 <= i < rs.len() - 1 && #[trigger] contract_addr_at(rs, i) == k by {
                assert(fd.contains(k));
                let w = choose|w: int| 0 <= w < fd.keys().len() && #[trigger] fd.keys()[w] == k;
                assert(contract_addr_at(contracts_part, w) == k);
                assert(rs[w] == contracts_part[w]);
                assert(contract_at(rs, w) == contract_at(contracts_part, w));
                assert(contract_addr_at(rs, w) == k);
            }
            assert forall|k: Seq<u8>| #[trigger] is_second_degree(cs, k, eoa) implies exists|
                i: int,
            | 0 <= i < rs.len() - 1 && #[trigger] contract_addr_at(rs, i) == k by {
                if is_first_degree(cs, k) {
                    assert(fd.contains(k));
                    let w = choose|w: int| 0 <= w < fd.keys().len() && #[trigger] fd.keys()[w] == k;
                    assert(contract_addr_at(contracts_part, w) == k);
                    assert(rs[w] == contracts_part[w]);
                    assert(contract_at(rs, w) == contract_at(contracts_part, w));
                    assert(contract_addr_at(rs, w) == k);
                } else {
                    assert(sd.contains(k));
                    let w = choose|w: int| 0 <= w < sd.keys().len() && #[trigger] sd.keys()[w] == k;
                    assert(sd.keys().take(sd.keys().len() as int).contains(k)) by {
                        assert(sd.keys().take(sd.keys().len() as int)[w] == k);
                    }
                    assert(!fd.contains(k));
                    let idx = choose|idx: int|
                        0 <= idx < contracts_part.len() && #[trigger] contract_addr_at(
                            contracts_part,
                            idx,
                        ) == k;
                    assert(rs[idx] == contracts_part[idx]);
                    assert(contract_at(rs, idx) == contract_at(contracts_part, idx));
                    assert(contract_addr_at(rs, idx) == k);
                }
            }
            assert(commit_post(self, rs));
        }
        Some(results)
    }
}


impl TraceTree {
    /// Drives one incoming trace. At a transaction boundary (an empty
    /// `trace_address`) it first summarises the previous transaction,
    /// returning its records, and starts the new one with this root;
    /// it then indexes the trace itself.
    pub fn on_trace(&mut self, trace: &Trace) -> (r: Option<Vec<EtlResult>>)
        requires
            old(self).wf(),
            trace.wf(),
        ensures
            final(self).wf(),
            final(self).spec_chain_id() == old(self).spec_chain_id(),
            trace@.trace_address.len() == 0 ==> {
                &&& (r is Some <==> old(self).emits())
                &&& (r matches Some(rs) ==> commit_post(old(self), rs@))
                &&& final(self).first() == Some(trace@)
                &&& indexes_fresh(*final(self), trace@)
            },
            trace@.trace_address.len() != 0 ==> {
                &&& r is None
                &&& final(self).first() == old(self).first()
                &&& indexes(*old(self), *final(self), trace@)
            },
    {
        let mut out: Option<Vec<EtlResult>> = None;
        if trace.trace_address.len() == 0 {
            out = self.commit();
            self.reset(trace);
            let ghost cleared = *self;
            self.add_trace(trace);
            proof {
                if trace@.from_address is Some && trace@.to_address is Some {
                    let from = trace@.from_address.unwrap();
                    let to = trace@.to_address.unwrap();
                    assert(!has_sig(cleared.sigs(), to, trace_sig(trace@)));
                    assert(!has_call(cleared.calls(), to, from));
                    assert(!has_gas(cleared.gases(), from, to));
                    assert(self.sigs() =~= seq![(to, trace_sig(trace@))]);
                    assert(self.calls() =~= seq![(to, from, 1u16)]);
                    assert(self.gases() =~= seq![(from, to, trace_gas(trace@))]);
                    if to == ec_pairing() {
                        assert(self.sizes() =~= seq![(from, trace_size(trace@))]);
                    }
                    if to == ec_recover() && (trace@.output matches Some(out2) && out2.len()
                        >= 32) {
                        let rec = trace@.output.unwrap().subrange(12, 32);
                        assert(!cleared.recovered().contains(rec));
                        assert(self.recovered() =~= seq![rec]);
                    }
                }
            }
        } else {
            self.add_trace(trace);
        }
        out
    }
}


} // verus!
