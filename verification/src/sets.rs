//! Small ordered sets of addresses and selectors.
//!
//! Backed by vectors that keep first-insertion order, so emitted
//! records and rendered SQL are deterministic; the view is the set of
//! byte strings held.

use vstd::prelude::*;

use crate::ids::{Address, Sig};

verus! {

/// A set of addresses in first-insertion order.
#[derive(Clone)]
pub struct AddrSet {
    items: Vec<Address>,
}

impl AddrSet {
    /// The members in insertion order.
    pub closed spec fn seq_view(&self) -> Seq<Seq<u8>> {
        self.items@.map_values(|a: Address| a@)
    }

    /// The members as a set.
    pub open spec fn set_view(&self) -> Set<Seq<u8>> {
        Set::new(|s: Seq<u8>| self.seq_view().contains(s))
    }

    /// Members are addresses and appear once each.
    pub open spec fn wf(&self) -> bool {
        &&& forall|i: int|
            0 <= i < self.seq_view().len() ==> (#[trigger] self.seq_view()[i]).len() == 20
        &&& forall|i: int, j: int|
            0 <= i < j < self.seq_view().len() ==> self.seq_view()[i] != self.seq_view()[j]
    }

    /// The empty set.
    pub fn new() -> (r: AddrSet)
        ensures
            r.seq_view() == Seq::<Seq<u8>>::empty(),
            r.wf(),
    {
        let r = AddrSet { items: Vec::new() };
        proof {
            assert(r.seq_view() =~= Seq::<Seq<u8>>::empty());
        }
        r
    }

    /// How many members.
    pub fn len(&self) -> (r: usize)
        ensures
            r == self.seq_view().len(),
    {
        self.items.len()
    }

    /// The member at `i`, in insertion order.
    pub fn get(&self, i: usize) -> (r: &Address)
        requires
            i < self.seq_view().len(),
        ensures
            r@ == self.seq_view()[i as int],
    {
        &self.items[i]
    }

    /// True when `a` is a member.
    pub fn contains(&self, a: &Address) -> (r: bool)
        ensures
            r == self.seq_view().contains(a@),
    {
        let mut i: usize = 0;
        while i < self.items.len()
            invariant
                i <= self.items.len(),
                forall|j: int| 0 <= j < i ==> self.seq_view()[j] != a@,
            decreases self.items.len() - i,
        {
            if self.items[i].eq_addr(a) {
                assert(self.seq_view()[i as int] == a@);
                return true;
            }
            i = i + 1;
        }
        assert(!self.seq_view().contains(a@));
        false
    }

    /// Adds `a` unless already a member.
    pub fn insert(&mut self, a: &Address)
        requires
            old(self).wf(),
            a.wf(),
        ensures
            final(self).wf(),
            old(self).seq_view().contains(a@) ==> final(self).seq_view()
                == old(self).seq_view(),
            !old(self).seq_view().contains(a@) ==> final(self).seq_view()
                == old(self).seq_view().push(a@),
            final(self).set_view() == old(self).set_view().insert(a@),
    {
        if !self.contains(a) {
            self.items.push(a.dup());
            proof {
                assert(self.seq_view() =~= old(self).seq_view().push(a@));
                assert forall|s: Seq<u8>| self.seq_view().contains(s)
                    <==> (old(self).seq_view().contains(s) || s == a@) by {
                    if old(self).seq_view().contains(s) {
                        let k = choose|k: int|
                            0 <= k < old(self).seq_view().len() && old(self).seq_view()[k] == s;
                        assert(self.seq_view()[k] == s);
                    }
                    if s == a@ {
                        assert(self.seq_view().last() == a@);
                    }
                    if self.seq_view().contains(s) {
                        let k = choose|k: int|
                            0 <= k < self.seq_view().len()
                                && self.seq_view()[k] == s;
                        if k < old(self).seq_view().len() {
                            assert(old(self).seq_view()[k] == s);
                        }
                    }
                }
                assert(self.set_view() =~= old(self).set_view().insert(a@));
            }
        } else {
            proof {
                assert(self.set_view() =~= old(self).set_view().insert(a@));
            }
        }
    }

    /// A faithful copy.
    pub fn dup(&self) -> (r: AddrSet)
        ensures
            r.seq_view() == self.seq_view(),
    {
        let mut items: Vec<Address> = Vec::new();
        let mut i: usize = 0;
        while i < self.items.len()
            invariant
                i <= self.items.len(),
                items@.len() == i,
                forall|j: int| 0 <= j < i ==> (#[trigger] items@[j])@ == self.seq_view()[j],
            decreases self.items.len() - i,
        {
            items.push(self.items[i].dup());
            i = i + 1;
        }
        let r = AddrSet { items };
        proof {
            assert(r.seq_view() =~= self.seq_view());
        }
        r
    }
}

/// A set of call selectors in first-insertion order.
#[derive(Clone)]
pub struct SigSet {
    items: Vec<Sig>,
}

impl SigSet {
    /// The members in insertion order.
    pub closed spec fn seq_view(&self) -> Seq<Seq<u8>> {
        self.items@.map_values(|s: Sig| s@)
    }

    /// The members as a set.
    pub open spec fn set_view(&self) -> Set<Seq<u8>> {
        Set::new(|s: Seq<u8>| self.seq_view().contains(s))
    }

    /// Members are selectors and appear once each.
    pub open spec fn wf(&self) -> bool {
        &&& forall|i: int|
            0 <= i < self.seq_view().len() ==> (#[trigger] self.seq_view()[i]).len() == 4
        &&& forall|i: int, j: int|
            0 <= i < j < self.seq_view().len() ==> self.seq_view()[i] != self.seq_view()[j]
    }

    /// The empty set.
    pub fn new() -> (r: SigSet)
        ensures
            r.seq_view() == Seq::<Seq<u8>>::empty(),
            r.wf(),
    {
        let r = SigSet { items: Vec::new() };
        proof {
            assert(r.seq_view() =~= Seq::<Seq<u8>>::empty());
        }
        r
    }

    /// How many members.
    pub fn len(&self) -> (r: usize)
        ensures
            r == self.seq_view().len(),
    {
        self.items.len()
    }

    /// The member at `i`, in insertion order.
    pub fn get(&self, i: usize) -> (r: &Sig)
        requires
            i < self.seq_view().len(),
        ensures
            r@ == self.seq_view()[i as int],
    {
        &self.items[i]
    }

    /// True when `s` is a member.
    pub fn contains(&self, s: &Sig) -> (r: bool)
        ensures
            r == self.seq_view().contains(s@),
    {
        let mut i: usize = 0;
        while i < self.items.len()
            invariant
                i <= self.items.len(),
                forall|j: int| 0 <= j < i ==> self.seq_view()[j] != s@,
            decreases self.items.len() - i,
        {
            if self.items[i].eq_sig(s) {
                assert(self.seq_view()[i as int] == s@);
                return true;
            }
            i = i + 1;
        }
        assert(!self.seq_view().contains(s@));
        false
    }

    /// Adds `s` unless already a member.
    pub fn insert(&mut self, s: &Sig)
        requires
            old(self).wf(),
            s.wf(),
        ensures
            final(self).wf(),
            old(self).seq_view().contains(s@) ==> final(self).seq_view()
                == old(self).seq_view(),
            !old(self).seq_view().contains(s@) ==> final(self).seq_view()
                == old(self).seq_view().push(s@),
            final(self).set_view() == old(self).set_view().insert(s@),
    {
        if !self.contains(s) {
            self.items.push(s.dup());
            proof {
                assert(self.seq_view() =~= old(self).seq_view().push(s@));
                assert forall|x: Seq<u8>| self.seq_view().contains(x)
                    <==> (old(self).seq_view().contains(x) || x == s@) by {
                    if old(self).seq_view().contains(x) {
                        let k = choose|k: int|
                            0 <= k < old(self).seq_view().len() && old(self).seq_view()[k] == x;
                        assert(self.seq_view()[k] == x);
                    }
                    if x == s@ {
                        assert(self.seq_view().last() == s@);
                    }
                    if self.seq_view().contains(x) {
                        let k = choose|k: int|
                            0 <= k < self.seq_view().len()
                                && self.seq_view()[k] == x;
                        if k < old(self).seq_view().len() {
                            assert(old(self).seq_view()[k] == x);
                        }
                    }
                }
                assert(self.set_view() =~= old(self).set_view().insert(s@));
            }
        } else {
            proof {
                assert(self.set_view() =~= old(self).set_view().insert(s@));
            }
        }
    }

    /// A faithful copy.
    pub fn dup(&self) -> (r: SigSet)
        ensures
            r.seq_view() == self.seq_view(),
    {
        let mut items: Vec<Sig> = Vec::new();
        let mut i: usize = 0;
        while i < self.items.len()
            invariant
                i <= self.items.len(),
                items@.len() == i,
                forall|j: int| 0 <= j < i ==> (#[trigger] items@[j])@ == self.seq_view()[j],
            decreases self.items.len() - i,
        {
            items.push(self.items[i].dup());
            i = i + 1;
        }
        let r = SigSet { items };
        proof {
            assert(r.seq_view() =~= self.seq_view());
        }
        r
    }
}

} // verus!
