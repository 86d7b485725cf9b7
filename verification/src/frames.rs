//! Flattening a provider's call-frame tree into the flat trace shape.
//!
//! The tracer hands back one nested frame per transaction; the
//! aggregator consumes a flat pre-order list whose `trace_address`
//! paths name each frame's position under the root.

use vstd::prelude::*;

use crate::ids::{Address, Hash32};
use crate::trace::Trace;

verus! {

/// One call frame as the tracer reports it, children nested.
pub struct CallFrame {
    pub from: Address,
    pub to: Option<Address>,
    pub value: Option<u128>,
    pub gas: u64,
    pub gas_used: u64,
    pub input: Vec<u8>,
    pub output: Option<Vec<u8>>,
    pub error: Option<String>,
    /// The tracer's call kind, as reported (for example `CALL`).
    pub typ: String,
    pub calls: Vec<CallFrame>,
}

/// One flattened frame: its own fields, its direct-child count, and
/// its path of child indices from the root.
pub struct FlatFrame {
    pub from: Address,
    pub to: Option<Address>,
    pub value: Option<u128>,
    pub gas: u64,
    pub gas_used: u64,
    pub input: Vec<u8>,
    pub output: Option<Vec<u8>>,
    pub error: Option<String>,
    pub typ: String,
    pub subtraces: u32,
    pub trace_address: Vec<u32>,
}

impl FlatFrame {
    /// True when this row flattens `f` at position `path`.
    pub open spec fn of(&self, f: CallFrame, path: Seq<u32>) -> bool {
        &&& self.from@ == f.from@
        &&& crate::trace::view_addr(self.to) == crate::trace::view_addr(f.to)
        &&& self.value == f.value
        &&& self.gas == f.gas
        &&& self.gas_used == f.gas_used
        &&& self.input@ == f.input@
        &&& crate::trace::view_bytes(self.output) == crate::trace::view_bytes(f.output)
        &&& crate::trace::view_text(self.error) == crate::trace::view_text(f.error)
        &&& self.typ@ == f.typ@
        &&& self.subtraces == f.calls@.len() % 0x1_0000_0000
        &&& self.trace_address@ == path
    }
}

/// How many rows the flattening of `f` produces: the frame itself and
/// every descendant.
pub open spec fn frame_size(f: CallFrame) -> nat
    decreases f, 0nat,
{
    1 + frames_size(f.calls@, f.calls@.len() as int)
}

/// How many rows the first `n` frames of a sibling list contribute.
pub open spec fn frames_size(cs: Seq<CallFrame>, n: int) -> nat
    decreases cs, n,
{
    if n <= 0 || n > cs.len() {
        0nat
    } else {
        frames_size(cs, n - 1) + frame_size(cs[n - 1])
    }
}

/// A pre-order flattening of `f` at `path`: `f`'s own row first, then
/// each child's flattening in order, the `i`-th child at
/// `path + [i]`.
pub open spec fn flattens(rows: Seq<FlatFrame>, f: CallFrame, path: Seq<u32>) -> bool
    decreases f, 0nat,
{
    &&& rows.len() == frame_size(f)
    &&& rows[0].of(f, path)
    &&& children_flatten(rows.skip(1), f.calls@, f.calls@.len() as int, path)
}

/// The first `n` children of a sibling list flatten to `rows`,
/// concatenated in order, the `i`-th child at `path + [i]`.
pub open spec fn children_flatten(
    rows: Seq<FlatFrame>,
    cs: Seq<CallFrame>,
    n: int,
    path: Seq<u32>,
) -> bool
    decreases cs, n,
{
    if n <= 0 {
        rows.len() == 0
    } else {
        &&& n <= cs.len()
        &&& rows.len() == frames_size(cs, n)
        &&& {
            let head = rows.len() - frame_size(cs[n - 1]);
            &&& head >= 0
            &&& children_flatten(rows.take(head), cs, n - 1, path)
            &&& flattens(rows.skip(head), cs[n - 1], path.push(((n - 1) as u32)))
        }
    }
}

/// The lower-case folding of a string, as the standard library
/// computes it; a function of the characters alone.
pub uninterp spec fn lower_of(s: Seq<char>) -> Seq<char>;

/// Relies on `str::to_lowercase`: the lower-case folding, a function
/// of the characters alone.
#[verifier::external_body]
pub(crate) fn lowercase(s: &str) -> (r: String)
    ensures
        r@ == lower_of(s@),
{
    s.to_lowercase()
}

impl CallFrame {
    /// Every address in the tree is address-width.
    pub open spec fn wf(&self) -> bool
        decreases *self, 0nat,
    {
        &&& self.from.wf()
        &&& (self.to matches Some(a) ==> a.wf())
        &&& frames_wf(self.calls@, self.calls@.len() as int)
    }

    /// Flattens this frame's call tree in pre-order: the frame itself
    /// first, then each child's subtree, the `i`-th child's path being
    /// this frame's path plus `i`.
    pub fn flatten_frame(&self) -> (rows: Vec<FlatFrame>)
        ensures
            flattens(rows@, *self, Seq::<u32>::empty()),
        decreases *self,
    {
        let mut rows: Vec<FlatFrame> = Vec::new();
        let path: Vec<u32> = Vec::new();
        self.flatten_into(&path, &mut rows);
        proof {
            assert(rows@.skip(0) =~= rows@);
        }
        rows
    }

    /// Appends this frame's pre-order flattening at `path` to `out`.
    fn flatten_into(&self, path: &Vec<u32>, out: &mut Vec<FlatFrame>)
        ensures
            final(out)@.len() == old(out)@.len() + frame_size(*self),
            final(out)@.take(old(out)@.len() as int) == old(out)@,
            flattens(final(out)@.skip(old(out)@.len() as int), *self, path@),
        decreases *self,
    {
        let ghost base = out@.len() as int;
        let row = FlatFrame {
            from: self.from.dup(),
            to: match &self.to {
                Some(a) => Some(a.dup()),
                None => None,
            },
            value: self.value,
            gas: self.gas,
            gas_used: self.gas_used,
            input: crate::ids::bytes_dup(&self.input),
            output: match &self.output {
                Some(b) => Some(crate::ids::bytes_dup(b)),
                None => None,
            },
            error: match &self.error {
                Some(e) => Some(e.clone()),
                None => None,
            },
            typ: self.typ.clone(),
            subtraces: ((self.calls.len() as u64) % 0x1_0000_0000) as u32,
            trace_address: crate::trace::dup_u32s(path),
        };
        assert(row.of(*self, path@));
        out.push(row);
        let ghost cs = self.calls@;
        let mut i: usize = 0;
        proof {
            assert(out@.skip(base + 1) =~= Seq::<FlatFrame>::empty());
        }
        while i < self.calls.len()
            invariant
                i <= cs.len(),
                cs == self.calls@,
                base == old(out)@.len() as int,
                out@.len() == base + 1 + frames_size(cs, i as int),
                out@.take(base) == old(out)@,
                out@[base].of(*self, path@),
                children_flatten(out@.skip(base + 1), cs, i as int, path@),
            decreases cs.len() - i,
        {
            let mut child_path = crate::trace::dup_u32s(path);
            child_path.push(#[verifier::truncate] (i as u32));
            let ghost pre = out@;
            let child = &self.calls[i];
            child.flatten_into(&child_path, out);
            proof {
                assert(child_path@ == path@.push((i as int) as u32));
                let rows = out@.skip(base + 1);
                let head = rows.len() - frame_size(cs[i as int]);
                assert(rows.len() == frames_size(cs, i + 1)) by {
                    assert(frames_size(cs, i + 1) == frames_size(cs, i as int) + frame_size(
                        cs[i as int],
                    ));
                }
                assert(rows.take(head) =~= pre.skip(base + 1)) by {
                    assert(out@.take(pre.len() as int) == pre);
                }
                assert(rows.skip(head) =~= out@.skip(pre.len() as int));
                assert(out@.take(base) =~= old(out)@);
                assert(out@[base] == pre[base]);
                assert(children_flatten(out@.skip(base + 1), cs, i + 1, path@));
            }
            i = i + 1;
        }
        proof {
            assert(out@.skip(base).skip(1) =~= out@.skip(base + 1));
            assert(out@.skip(base)[0] == out@[base]);
            assert(flattens(out@.skip(base), *self, path@));
            assert(out@.take(base) =~= old(out)@);
        }
    }
}

/// Every frame among the first `n` of a sibling list is well formed.
pub open spec fn frames_wf(cs: Seq<CallFrame>, n: int) -> bool
    decreases cs, n,
{
    if n <= 0 || n > cs.len() {
        true
    } else {
        frames_wf(cs, n - 1) && cs[n - 1].wf()
    }
}

impl FlatFrame {
    /// This row as a flat trace of the given transaction: the tracer's
    /// kind carries over lower-cased, and block timestamp and hash
    /// stay unknown.
    pub fn into_trace(
        &self,
        transaction_index: u32,
        transaction_hash: &Hash32,
        block_number: u64,
    ) -> (t: Trace)
        ensures
            t@.transaction_index == Some(transaction_index),
            t@.from_address == Some(self.from@),
            t@.to_address == crate::trace::view_addr(self.to),
            t@.value == self.value,
            t@.input == Some(self.input@),
            t@.output == crate::trace::view_bytes(self.output),
            t@.trace_type == Some("call"@),
            t@.call_type == Some(lower_of(self.typ@)),
            t@.reward_type is None,
            t@.gas == Some(self.gas),
            t@.gas_used == Some(self.gas_used),
            t@.subtraces == self.subtraces,
            t@.trace_address == self.trace_address@,
            t@.error == crate::trace::view_text(self.error),
            t@.transaction_hash == Some(transaction_hash@),
            t@.block_number == block_number,
            t@.block_timestamp is None,
            t@.block_hash is None,
            self.from.wf() && (self.to matches Some(a) ==> a.wf()) && transaction_hash.wf()
                ==> t.wf(),
    {
        Trace {
            transaction_index: Some(transaction_index),
            from_address: Some(self.from.dup()),
            to_address: match &self.to {
                Some(a) => Some(a.dup()),
                None => None,
            },
            value: self.value,
            input: Some(crate::ids::bytes_dup(&self.input)),
            output: match &self.output {
                Some(b) => Some(crate::ids::bytes_dup(b)),
                None => None,
            },
            trace_type: Some(String::from_str("call")),
            call_type: Some(lowercase(self.typ.as_str())),
            reward_type: None,
            gas: Some(self.gas),
            gas_used: Some(self.gas_used),
            subtraces: self.subtraces,
            trace_address: crate::trace::dup_u32s(&self.trace_address),
            error: match &self.error {
                Some(e) => Some(e.clone()),
                None => None,
            },
            transaction_hash: Some(transaction_hash.dup()),
            block_number,
            block_timestamp: None,
            block_hash: None,
        }
    }
}


} // verus!
