//! Fixed-width byte identifiers: addresses, call selectors and hashes.
//!
//! Each type wraps its bytes and exposes them as a `Seq<u8>` view; the
//! well-formedness predicate fixes the width. The four precompile
//! addresses the aggregator cares about are built here.

use vstd::prelude::*;

verus! {

/// True when `b` is a faithful copy of `a`, element for element.
pub(crate) fn bytes_eq(a: &Vec<u8>, b: &Vec<u8>) -> (r: bool)
    ensures
        r == (a@ == b@),
{
    if a.len() != b.len() {
        assert(a@ != b@);
        return false;
    }
    let mut i: usize = 0;
    while i < a.len()
        invariant
            i <= a.len(),
            a@.len() == b@.len(),
            forall|j: int| 0 <= j < i ==> a@[j] == b@[j],
        decreases a.len() - i,
    {
        if a[i] != b[i] {
            return false;
        }
        i = i + 1;
    }
    proof {
        assert(a@ =~= b@);
    }
    true
}

/// The bytes of `v` from `start` (inclusive) to `end` (exclusive).
pub(crate) fn bytes_slice(v: &Vec<u8>, start: usize, end: usize) -> (r: Vec<u8>)
    requires
        start <= end,
        end <= v@.len(),
    ensures
        r@ == v@.subrange(start as int, end as int),
{
    let mut r: Vec<u8> = Vec::new();
    let mut i: usize = start;
    while i < end
        invariant
            start <= i <= end,
            end <= v@.len(),
            r@ == v@.subrange(start as int, i as int),
        decreases end - i,
    {
        r.push(v[i]);
        proof {
            assert(v@.subrange(start as int, i + 1) =~= v@.subrange(
                start as int,
                i as int,
            ).push(v@[i as int]));
        }
        i = i + 1;
    }
    r
}

/// A faithful copy of a byte vector.
pub(crate) fn bytes_dup(v: &Vec<u8>) -> (r: Vec<u8>)
    ensures
        r@ == v@,
{
    let r = v.clone();
    proof {
        assert(r@ =~= v@);
    }
    r
}

/// A 20-byte account or contract address.
#[derive(Clone)]
pub struct Address {
    bytes: Vec<u8>,
}

impl View for Address {
    type V = Seq<u8>;

    closed spec fn view(&self) -> Seq<u8> {
        self.bytes@
    }
}

/// The address of the precompile with the given one-byte number:
/// nineteen zero bytes followed by the number.
pub open spec fn precompile_addr(n: u8) -> Seq<u8> {
    Seq::new(20, |i: int| if i == 19 { n } else { 0u8 })
}

/// The `ecrecover` precompile address (number 1), one of the two
/// trigger addresses.
pub open spec fn ec_recover() -> Seq<u8> {
    precompile_addr(1)
}

/// The BN254 addition precompile address (number 6).
pub open spec fn ec_add() -> Seq<u8> {
    precompile_addr(6)
}

/// The BN254 scalar-multiplication precompile address (number 7).
pub open spec fn ec_mul() -> Seq<u8> {
    precompile_addr(7)
}

/// The BN254 pairing precompile address (number 8), one of the two
/// trigger addresses.
pub open spec fn ec_pairing() -> Seq<u8> {
    precompile_addr(8)
}

/// True for the two precompile addresses whose presence as a callee
/// makes a transaction worth emitting.
pub open spec fn is_trigger(a: Seq<u8>) -> bool {
    a == ec_pairing() || a == ec_recover()
}

impl Address {
    /// Exactly twenty bytes.
    pub open spec fn wf(&self) -> bool {
        self@.len() == 20
    }

    /// Wraps `bytes` when they have address width.
    pub fn from_bytes(bytes: Vec<u8>) -> (r: Option<Address>)
        ensures
            bytes@.len() == 20 ==> (r matches Some(a) && a@ == bytes@),
            bytes@.len() != 20 ==> r is None,
    {
        if bytes.len() == 20 {
            Some(Address { bytes })
        } else {
            None
        }
    }

    /// The address bytes.
    pub fn bytes(&self) -> (r: &Vec<u8>)
        ensures
            r@ == self@,
    {
        &self.bytes
    }

    /// True when both addresses hold the same bytes.
    pub fn eq_addr(&self, other: &Address) -> (r: bool)
        ensures
            r == (self@ == other@),
    {
        bytes_eq(&self.bytes, &other.bytes)
    }

    /// A faithful copy.
    pub fn dup(&self) -> (r: Address)
        ensures
            r@ == self@,
    {
        Address { bytes: bytes_dup(&self.bytes) }
    }

    /// The precompile address with the given number.
    pub fn precompile(n: u8) -> (r: Address)
        ensures
            r@ == precompile_addr(n),
            r.wf(),
    {
        let mut bytes: Vec<u8> = Vec::new();
        let mut i: usize = 0;
        while i < 19
            invariant
                i <= 19,
                bytes@.len() == i,
                forall|j: int| 0 <= j < i ==> bytes@[j] == 0u8,
            decreases 19 - i,
        {
            bytes.push(0u8);
            i = i + 1;
        }
        bytes.push(n);
        proof {
            assert(bytes@ =~= precompile_addr(n));
        }
        Address { bytes }
    }
}

/// A 4-byte call selector taken from the front of a call's input.
#[derive(Clone)]
pub struct Sig {
    bytes: Vec<u8>,
}

impl View for Sig {
    type V = Seq<u8>;

    closed spec fn view(&self) -> Seq<u8> {
        self.bytes@
    }
}

/// The all-zero selector, recorded for short inputs and for calls into
/// the trigger precompiles.
pub open spec fn zero_sig() -> Seq<u8> {
    Seq::new(4, |i: int| 0u8)
}

impl Sig {
    /// Exactly four bytes.
    pub open spec fn wf(&self) -> bool {
        self@.len() == 4
    }

    /// The all-zero selector.
    pub fn zero() -> (r: Sig)
        ensures
            r@ == zero_sig(),
            r.wf(),
    {
        let bytes = vec![0u8, 0u8, 0u8, 0u8];
        proof {
            assert(bytes@ =~= zero_sig());
        }
        Sig { bytes }
    }

    /// The first four bytes of `input`.
    pub fn from_front(input: &Vec<u8>) -> (r: Sig)
        requires
            input@.len() >= 4,
        ensures
            r@ == input@.take(4),
            r.wf(),
    {
        let bytes = vec![input[0], input[1], input[2], input[3]];
        proof {
            assert(bytes@ =~= input@.take(4));
        }
        Sig { bytes }
    }

    /// The selector bytes.
    pub fn bytes(&self) -> (r: &Vec<u8>)
        ensures
            r@ == self@,
    {
        &self.bytes
    }

    /// True when both selectors hold the same bytes.
    pub fn eq_sig(&self, other: &Sig) -> (r: bool)
        ensures
            r == (self@ == other@),
    {
        bytes_eq(&self.bytes, &other.bytes)
    }

    /// A faithful copy.
    pub fn dup(&self) -> (r: Sig)
        ensures
            r@ == self@,
    {
        Sig { bytes: bytes_dup(&self.bytes) }
    }
}

/// A 32-byte hash: a transaction hash or a block hash.
#[derive(Clone)]
pub struct Hash32 {
    bytes: Vec<u8>,
}

impl View for Hash32 {
    type V = Seq<u8>;

    closed spec fn view(&self) -> Seq<u8> {
        self.bytes@
    }
}

impl Hash32 {
    /// Exactly thirty-two bytes.
    pub open spec fn wf(&self) -> bool {
        self@.len() == 32
    }

    /// Wraps `bytes` when they have hash width.
    pub fn from_bytes(bytes: Vec<u8>) -> (r: Option<Hash32>)
        ensures
            bytes@.len() == 32 ==> (r matches Some(h) && h@ == bytes@),
            bytes@.len() != 32 ==> r is None,
    {
        if bytes.len() == 32 {
            Some(Hash32 { bytes })
        } else {
            None
        }
    }

    /// The hash bytes.
    pub fn bytes(&self) -> (r: &Vec<u8>)
        ensures
            r@ == self@,
    {
        &self.bytes
    }

    /// A faithful copy.
    pub fn dup(&self) -> (r: Hash32)
        ensures
            r@ == self@,
    {
        Hash32 { bytes: bytes_dup(&self.bytes) }
    }
}

/// An 8-byte block nonce.
#[derive(Clone)]
pub struct Hash8 {
    bytes: Vec<u8>,
}

impl View for Hash8 {
    type V = Seq<u8>;

    closed spec fn view(&self) -> Seq<u8> {
        self.bytes@
    }
}

impl Hash8 {
    /// Exactly eight bytes.
    pub open spec fn wf(&self) -> bool {
        self@.len() == 8
    }

    /// Wraps `bytes` when they have nonce width.
    pub fn from_bytes(bytes: Vec<u8>) -> (r: Option<Hash8>)
        ensures
            bytes@.len() == 8 ==> (r matches Some(h) && h@ == bytes@),
            bytes@.len() != 8 ==> r is None,
    {
        if bytes.len() == 8 {
            Some(Hash8 { bytes })
        } else {
            None
        }
    }

    /// The nonce bytes.
    pub fn bytes(&self) -> (r: &Vec<u8>)
        ensures
            r@ == self@,
    {
        &self.bytes
    }

    /// A faithful copy.
    pub fn dup(&self) -> (r: Hash8)
        ensures
            r@ == self@,
    {
        Hash8 { bytes: bytes_dup(&self.bytes) }
    }
}

} // verus!
