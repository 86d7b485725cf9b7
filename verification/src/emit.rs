//! Degree maps: who called the trigger precompiles, and who called
//! those callers.
//!
//! A `DegreeMap` keys callers by address and carries, per caller, the
//! set of lower-degree addresses it called. Emission walks these maps.

use vstd::prelude::*;

use crate::ids::{is_trigger, Address};
use crate::sets::AddrSet;
use crate::tree::{has_call, CallRow};

verus! {

/// One caller with the lower-degree addresses it called.
pub struct DegreeEntry {
    pub addr: Address,
    pub called: AddrSet,
}

/// Callers of one degree, keyed by address, in first-seen order.
pub struct DegreeMap {
    entries: Vec<DegreeEntry>,
}

/// The call set recorded for `k`, empty when `k` has no entry.
pub open spec fn lookup(es: Seq<DegreeEntry>, k: Seq<u8>) -> Set<Seq<u8>>
    decreases es.len(),
{
    if es.len() == 0 {
        Set::empty()
    } else if es.last().addr@ == k {
        es.last().called.set_view()
    } else {
        lookup(es.drop_last(), k)
    }
}

impl DegreeMap {
    /// The raw entries.
    pub closed spec fn entries_view(&self) -> Seq<DegreeEntry> {
        self.entries@
    }

    /// The keys, in first-seen order.
    pub open spec fn keys(&self) -> Seq<Seq<u8>> {
        Seq::new(self.entries_view().len(), |i: int| self.entries_view()[i].addr@)
    }

    /// True when `k` has an entry.
    pub open spec fn contains(&self, k: Seq<u8>) -> bool {
        self.keys().contains(k)
    }

    /// The call set recorded for `k`, empty when absent.
    pub open spec fn val_of(&self, k: Seq<u8>) -> Set<Seq<u8>> {
        lookup(self.entries_view(), k)
    }

    /// Keys are addresses and unique; call sets are well formed.
    pub open spec fn wf(&self) -> bool {
        &&& forall|i: int|
            0 <= i < self.keys().len() ==> (#[trigger] self.keys()[i]).len() == 20
        &&& forall|i: int, j: int|
            0 <= i < j < self.keys().len() ==> self.keys()[i] != self.keys()[j]
        &&& forall|i: int|
            0 <= i < self.entries_view().len() ==> (#[trigger] self.entries_view()[i]).called.wf()
    }

    /// The empty map.
    pub fn new() -> (r: DegreeMap)
        ensures
            r.keys() == Seq::<Seq<u8>>::empty(),
            r.wf(),
            forall|k: Seq<u8>| #[trigger] r.val_of(k) == Set::<Seq<u8>>::empty(),
    {
        let r = DegreeMap { entries: Vec::new() };
        proof {
            assert(r.keys() =~= Seq::<Seq<u8>>::empty());
        }
        r
    }

    /// How many entries.
    pub fn len(&self) -> (r: usize)
        ensures
            r == self.keys().len(),
    {
        self.entries.len()
    }

    /// The entry at `i`, in first-seen order.
    pub fn get(&self, i: usize) -> (r: &DegreeEntry)
        requires
            self.wf(),
            i < self.keys().len(),
        ensures
            r.addr@ == self.keys()[i as int],
            r.called.set_view() == self.val_of(self.keys()[i as int]),
            r.called.wf(),
    {
        proof {
            lemma_entries_unique(self);
            lemma_lookup_at(self.entries_view(), i as int);
            assert(self.entries_view()[i as int].called.wf());
        }
        &self.entries[i]
    }

    /// True when `k` has an entry.
    pub fn contains_exec(&self, k: &Address) -> (r: bool)
        ensures
            r == self.contains(k@),
    {
        let mut i: usize = 0;
        while i < self.entries.len()
            invariant
                i <= self.entries.len(),
                forall|j: int| 0 <= j < i ==> self.keys()[j] != k@,
            decreases self.entries.len() - i,
        {
            if self.entries[i].addr.eq_addr(k) {
                assert(self.keys()[i as int] == k@);
                return true;
            }
            i = i + 1;
        }
        assert(!self.keys().contains(k@));
        false
    }

    /// Adds `v` to the call set of `k`, creating the entry if absent.
    pub fn upsert(&mut self, k: &Address, v: &Address)
        requires
            old(self).wf(),
            k.wf(),
            v.wf(),
        ensures
            final(self).wf(),
            !old(self).contains(k@) ==> final(self).keys() == old(self).keys().push(k@),
            old(self).contains(k@) ==> final(self).keys() == old(self).keys(),
            forall|k2: Seq<u8>| #[trigger] final(self).contains(k2)
                == (old(self).contains(k2) || k2 == k@),
            forall|k2: Seq<u8>| #[trigger] final(self).val_of(k2) == if k2 == k@ {
                old(self).val_of(k2).insert(v@)
            } else {
                old(self).val_of(k2)
            },
    {
        let ghost es0 = self.entries_view();
        let mut i: usize = 0;
        while i < self.entries.len()
            invariant
                i <= self.entries.len(),
                self.entries_view() == es0,
                old(self).entries_view() == es0,
                old(self).wf(),
                k.wf(),
                v.wf(),
                forall|j: int| 0 <= j < i ==> old(self).keys()[j] != k@,
            decreases self.entries.len() - i,
        {
            if self.entries[i].addr.eq_addr(k) {
                assert(old(self).keys()[i as int] == k@);
                assert(old(self).contains(k@));
                let mut called = self.entries[i].called.dup();
                proof {
                    lemma_entries_unique(old(self));
                    lemma_lookup_at(es0, i as int);
                    assert(es0[i as int].called.wf());
                    assert(called.set_view() =~= es0[i as int].called.set_view());
                    assert(called.wf());
                }
                called.insert(v);
                let addr = self.entries[i].addr.dup();
                let entry = DegreeEntry { addr, called };
                self.entries.set(i, entry);
                proof {
                    let es1 = self.entries_view();
                    assert(es1 == es0.update(i as int, es1[i as int]));
                    assert(es1[i as int].addr@ == k@);
                    assert(es1[i as int].called.set_view() =~= lookup(es0, k@).insert(v@));
                    assert(final(self).keys() =~= old(self).keys());
                    lemma_lookup_update(es0, es1, i as int, v@);
                    assert forall|k2: Seq<u8>| #[trigger] self.contains(k2) == (old(self).contains(
                        k2,
                    ) || k2 == k@) by {
                        assert(self.keys() =~= old(self).keys());
                        if k2 == k@ {
                            assert(old(self).keys()[i as int] == k@);
                        }
                    }
                }
                return ;
            }
            i = i + 1;
        }
        assert(!old(self).contains(k@));
        let mut called = AddrSet::new();
        called.insert(v);
        self.entries.push(DegreeEntry { addr: k.dup(), called });
        proof {
            let es1 = self.entries_view();
            assert(es1 == es0.push(es1.last()));
            assert(es1.last().addr@ == k@);
            assert(es1.last().called.set_view() =~= Set::<Seq<u8>>::empty().insert(v@));
            assert(self.keys() =~= old(self).keys().push(k@));
            assert forall|k2: Seq<u8>| #[trigger] self.contains(k2) == (old(self).contains(k2)
                || k2 == k@) by {
                if old(self).contains(k2) {
                    let j = choose|j: int|
                        0 <= j < old(self).keys().len() && old(self).keys()[j] == k2;
                    assert(self.keys()[j] == k2);
                }
                if k2 == k@ {
                    assert(self.keys().last() == k@);
                }
                if self.contains(k2) {
                    let j = choose|j: int| 0 <= j < self.keys().len() && self.keys()[j] == k2;
                    if j < old(self).keys().len() {
                        assert(old(self).keys()[j] == k2);
                    }
                }
            }
            assert forall|k2: Seq<u8>| #[trigger] self.val_of(k2) == if k2 == k@ {
                old(self).val_of(k2).insert(v@)
            } else {
                old(self).val_of(k2)
            } by {
                assert(es1.drop_last() =~= es0);
                if k2 == k@ {
                    assert forall|j: int| 0 <= j < es0.len() implies (#[trigger] es0[j].addr@)
                        != k@ by {
                        assert(old(self).keys()[j] == es0[j].addr@);
                    }
                    lemma_lookup_absent(es0, k@);
                    assert(old(self).val_of(k2) =~= Set::<Seq<u8>>::empty());
                    assert(self.val_of(k2) =~= old(self).val_of(k2).insert(v@));
                }
            }
            assert forall|i2: int, j2: int|
                0 <= i2 < j2 < self.keys().len() implies self.keys()[i2] != self.keys()[j2] by {
                if j2 < old(self).keys().len() {
                } else {
                    assert(self.keys()[i2] == old(self).keys()[i2]);
                    assert(old(self).contains(old(self).keys()[i2]));
                }
            }
        }
    }
}

/// A well-formed map's entries carry pairwise distinct keys.
proof fn lemma_entries_unique(dm: &DegreeMap)
    requires
        dm.wf(),
    ensures
        forall|a: int, b: int|
            0 <= a < b < dm.entries_view().len() ==> (#[trigger] dm.entries_view()[a].addr@)
                != (#[trigger] dm.entries_view()[b].addr@),
{
    assert forall|a: int, b: int|
        0 <= a < b < dm.entries_view().len() implies (#[trigger] dm.entries_view()[a].addr@)
        != (#[trigger] dm.entries_view()[b].addr@) by {
        assert(dm.keys()[a] == dm.entries_view()[a].addr@);
        assert(dm.keys()[b] == dm.entries_view()[b].addr@);
    }
}

/// With unique keys, looking up the key at `i` yields that entry's set.
pub proof fn lemma_lookup_at(es: Seq<DegreeEntry>, i: int)
    requires
        0 <= i < es.len(),
        forall|a: int, b: int|
            0 <= a < b < es.len() ==> (#[trigger] es[a].addr@) != (#[trigger] es[b].addr@),
    ensures
        lookup(es, es[i].addr@) == es[i].called.set_view(),
    decreases es.len(),
{
    if i == es.len() - 1 {
    } else {
        assert(es.last().addr@ != es[i].addr@);
        assert(es.drop_last()[i] == es[i]);
        lemma_lookup_at(es.drop_last(), i);
    }
}

/// A key without an entry looks up to the empty set.
pub proof fn lemma_lookup_absent(es: Seq<DegreeEntry>, k: Seq<u8>)
    requires
        forall|j: int| 0 <= j < es.len() ==> (#[trigger] es[j].addr@) != k,
    ensures
        lookup(es, k) == Set::<Seq<u8>>::empty(),
    decreases es.len(),
{
    if es.len() > 0 {
        assert(es[es.len() - 1].addr@ != k);
        assert forall|j: int| 0 <= j < es.drop_last().len() implies (#[trigger] es.drop_last()[j].addr@)
            != k by {
            assert(es.drop_last()[j] == es[j]);
        }
        lemma_lookup_absent(es.drop_last(), k);
    }
}

/// Updating the entry at `i` (same key, `v` added to its set) changes
/// exactly that key's lookup.
pub proof fn lemma_lookup_update(es0: Seq<DegreeEntry>, es1: Seq<DegreeEntry>, i: int, v: Seq<u8>)
    requires
        0 <= i < es0.len(),
        es1.len() == es0.len(),
        forall|a: int, b: int|
            0 <= a < b < es0.len() ==> (#[trigger] es0[a].addr@) != (#[trigger] es0[b].addr@),
        forall|j: int| 0 <= j < es0.len() && j != i ==> #[trigger] es1[j] == es0[j],
        es1[i].addr@ == es0[i].addr@,
        es1[i].called.set_view() == lookup(es0, es0[i].addr@).insert(v),
    ensures
        forall|k2: Seq<u8>| #[trigger] lookup(es1, k2) == if k2 == es0[i].addr@ {
            lookup(es0, k2).insert(v)
        } else {
            lookup(es0, k2)
        },
    decreases es0.len(),
{
    assert forall|k2: Seq<u8>| #[trigger] lookup(es1, k2) == if k2 == es0[i].addr@ {
        lookup(es0, k2).insert(v)
    } else {
        lookup(es0, k2)
    } by {
        lemma_lookup_pointwise(es0, es1, i, v, k2);
    }
}

proof fn lemma_lookup_pointwise(
    es0: Seq<DegreeEntry>,
    es1: Seq<DegreeEntry>,
    i: int,
    v: Seq<u8>,
    k2: Seq<u8>,
)
    requires
        0 <= i < es0.len(),
        es1.len() == es0.len(),
        forall|a: int, b: int|
            0 <= a < b < es0.len() ==> (#[trigger] es0[a].addr@) != (#[trigger] es0[b].addr@),
        forall|j: int| 0 <= j < es0.len() && j != i ==> #[trigger] es1[j] == es0[j],
        es1[i].addr@ == es0[i].addr@,
        es1[i].called.set_view() == lookup(es0, es0[i].addr@).insert(v),
    ensures
        lookup(es1, k2) == if k2 == es0[i].addr@ {
            lookup(es0, k2).insert(v)
        } else {
            lookup(es0, k2)
        },
    decreases es0.len(),
{
    let n = es0.len();
    if i == n - 1 {
        if k2 == es0[i].addr@ {
            lemma_lookup_at(es0, i);
        } else {
            assert(es1.drop_last() =~= es0.drop_last());
        }
    } else {
        assert(es1.last() == es0.last());
        if k2 == es0.last().addr@ {
            assert(k2 != es0[i].addr@);
        } else {
            assert forall|a: int, b: int|
                0 <= a < b < es0.drop_last().len() implies (#[trigger] es0.drop_last()[a].addr@)
                != (#[trigger] es0.drop_last()[b].addr@) by {
                assert(es0.drop_last()[a] == es0[a]);
                assert(es0.drop_last()[b] == es0[b]);
            }
            assert forall|j: int| 0 <= j < es0.drop_last().len() && j != i implies
                #[trigger] es1.drop_last()[j] == es0.drop_last()[j] by {
                assert(es1.drop_last()[j] == es1[j]);
                assert(es0.drop_last()[j] == es0[j]);
            }
            assert(es1.drop_last()[i] == es1[i]);
            assert(es0.drop_last()[i] == es0[i]);
            assert(lookup(es0.drop_last(), es0[i].addr@) == lookup(es0, es0[i].addr@)) by {
                assert(es0.last().addr@ != es0[i].addr@);
            }
            lemma_lookup_pointwise(es0.drop_last(), es1.drop_last(), i, v, k2);
        }
    }
}

/// Folds every `from -> target` edge of the call table into `dm`,
/// skipping the caller `skip` when given.
pub fn add_callers_of(
    dm: &mut DegreeMap,
    rows: &Vec<CallRow>,
    target: &Address,
    skip: Option<&Address>,
)
    requires
        old(dm).wf(),
        target.wf(),
        crate::tree::calls_wf(crate::tree::call_view(rows@)),
    ensures
        final(dm).wf(),
        forall|k: Seq<u8>| #[trigger] final(dm).contains(k) == (old(dm).contains(k) || (has_call(
            crate::tree::call_view(rows@),
            target@,
            k,
        ) && (skip matches Some(e) ==> k != e@))),
        forall|k: Seq<u8>| #[trigger] final(dm).val_of(k) == if has_call(
            crate::tree::call_view(rows@),
            target@,
            k,
        ) && (skip matches Some(e) ==> k != e@) {
            old(dm).val_of(k).insert(target@)
        } else {
            old(dm).val_of(k)
        },
{
    let ghost cs = crate::tree::call_view(rows@);
    let mut i: usize = 0;
    while i < rows.len()
        invariant
            i <= rows.len(),
            cs == crate::tree::call_view(rows@),
            crate::tree::calls_wf(cs),
            target.wf(),
            dm.wf(),
            forall|k: Seq<u8>| #[trigger] dm.contains(k) == (old(dm).contains(k) || (has_call(
                cs.take(i as int),
                target@,
                k,
            ) && (skip matches Some(e) ==> k != e@))),
            forall|k: Seq<u8>| #[trigger] dm.val_of(k) == if has_call(
                cs.take(i as int),
                target@,
                k,
            ) && (skip matches Some(e) ==> k != e@) {
                old(dm).val_of(k).insert(target@)
            } else {
                old(dm).val_of(k)
            },
        decreases rows.len() - i,
    {
        proof {
            assert(cs.take(i + 1).drop_last() =~= cs.take(i as int));
            assert(cs.take(i + 1).last() == cs[i as int]);
        }
        let row = &rows[i];
        let skipped = match skip {
            Some(e) => row.from.eq_addr(e),
            None => false,
        };
        if row.to.eq_addr(target) && !skipped {
            proof {
                assert(cs[i as int] == (row.to@, row.from@, row.count));
                assert(row.from.wf());
            }
            let ghost pre = *dm;
            dm.upsert(&row.from, target);
            proof {
                assert forall|k: Seq<u8>| #[trigger] dm.contains(k) == (old(dm).contains(k) || (
                has_call(cs.take(i + 1), target@, k) && (skip matches Some(e) ==> k != e@))) by {
                    if k == row.from@ {
                        assert(has_call(cs.take(i + 1), target@, k));
                    }
                }
                assert forall|k: Seq<u8>| #[trigger] dm.val_of(k) == if has_call(
                    cs.take(i + 1),
                    target@,
                    k,
                ) && (skip matches Some(e) ==> k != e@) {
                    old(dm).val_of(k).insert(target@)
                } else {
                    old(dm).val_of(k)
                } by {
                    if k == row.from@ {
                        assert(has_call(cs.take(i + 1), target@, k));
                        if has_call(cs.take(i as int), target@, k) {
                            assert(pre.val_of(k) == old(dm).val_of(k).insert(target@));
                            assert(dm.val_of(k) == pre.val_of(k).insert(target@));
                            assert(old(dm).val_of(k).insert(target@).insert(target@)
                                =~= old(dm).val_of(k).insert(target@));
                        } else {
                            assert(dm.val_of(k) == pre.val_of(k).insert(target@));
                        }
                    }
                }
            }
        } else {
            proof {
                assert forall|k: Seq<u8>| has_call(cs.take(i + 1), target@, k) && (
                skip matches Some(e) ==> k != e@) implies (has_call(cs.take(i as int), target@, k)
                    && (skip matches Some(e) ==> k != e@)) by {
                    if cs[i as int].0 == target@ && cs[i as int].1 == k {
                        assert(skipped ==> (skip matches Some(e) && k == e@));
                    }
                }
            }
        }
        i = i + 1;
    }
    proof {
        assert(cs.take(rows@.len() as int) =~= cs);
    }
}

/// True when `k` directly called a trigger precompile.
pub open spec fn is_first_degree(cs: Seq<(Seq<u8>, Seq<u8>, u16)>, k: Seq<u8>) -> bool {
    has_call(cs, crate::ids::ec_pairing(), k) || has_call(cs, crate::ids::ec_recover(), k)
}

/// The trigger precompiles `k` called.
pub open spec fn fd_calls(cs: Seq<(Seq<u8>, Seq<u8>, u16)>, k: Seq<u8>) -> Set<Seq<u8>> {
    Set::new(|a: Seq<u8>| is_trigger(a) && has_call(cs, a, k))
}

/// True when `k` called a first-degree caller and is not the
/// transaction's originating account.
pub open spec fn is_second_degree(cs: Seq<(Seq<u8>, Seq<u8>, u16)>, k: Seq<u8>, eoa: Seq<u8>) -> bool {
    k != eoa && exists|a: Seq<u8>| #[trigger] is_first_degree(cs, a) && has_call(cs, a, k)
}

/// The first-degree callers `k` called.
pub open spec fn sd_calls(cs: Seq<(Seq<u8>, Seq<u8>, u16)>, k: Seq<u8>) -> Set<Seq<u8>> {
    Set::new(|a: Seq<u8>| is_first_degree(cs, a) && has_call(cs, a, k))
}

/// True when `k` called any address among `keys`.
pub open spec fn called_by_any(
    cs: Seq<(Seq<u8>, Seq<u8>, u16)>,
    keys: Seq<Seq<u8>>,
    k: Seq<u8>,
) -> bool
    decreases keys.len(),
{
    if keys.len() == 0 {
        false
    } else {
        has_call(cs, keys.last(), k) || called_by_any(cs, keys.drop_last(), k)
    }
}

/// The addresses among `keys` that `k` called.
pub open spec fn calls_from(
    cs: Seq<(Seq<u8>, Seq<u8>, u16)>,
    keys: Seq<Seq<u8>>,
    k: Seq<u8>,
) -> Set<Seq<u8>>
    decreases keys.len(),
{
    if keys.len() == 0 {
        Set::empty()
    } else if has_call(cs, keys.last(), k) {
        calls_from(cs, keys.drop_last(), k).insert(keys.last())
    } else {
        calls_from(cs, keys.drop_last(), k)
    }
}

/// `called_by_any` holds exactly when some listed address was called.
pub proof fn lemma_called_by_any_index(
    cs: Seq<(Seq<u8>, Seq<u8>, u16)>,
    keys: Seq<Seq<u8>>,
    k: Seq<u8>,
)
    ensures
        called_by_any(cs, keys, k) <==> exists|i: int|
            0 <= i < keys.len() && has_call(cs, #[trigger] keys[i], k),
    decreases keys.len(),
{
    if keys.len() > 0 {
        lemma_called_by_any_index(cs, keys.drop_last(), k);
        if has_call(cs, keys.last(), k) {
            assert(has_call(cs, keys[keys.len() - 1], k));
        } else if called_by_any(cs, keys.drop_last(), k) {
            let i = choose|i: int|
                0 <= i < keys.drop_last().len() && has_call(cs, #[trigger] keys.drop_last()[i], k);
            assert(has_call(cs, keys[i], k));
        } else {
            assert forall|i: int| 0 <= i < keys.len() implies !has_call(
                cs,
                #[trigger] keys[i],
                k,
            ) by {
                if i < keys.len() - 1 {
                    assert(keys.drop_last()[i] == keys[i]);
                }
            }
        }
    }
}

/// Membership in `calls_from`: a listed address that `k` called.
pub proof fn lemma_calls_from_members(
    cs: Seq<(Seq<u8>, Seq<u8>, u16)>,
    keys: Seq<Seq<u8>>,
    k: Seq<u8>,
    a: Seq<u8>,
)
    ensures
        calls_from(cs, keys, k).contains(a) <==> (keys.contains(a) && has_call(cs, a, k)),
    decreases keys.len(),
{
    if keys.len() > 0 {
        lemma_calls_from_members(cs, keys.drop_last(), k, a);
        if keys.drop_last().contains(a) {
            let i = choose|i: int|
                0 <= i < keys.drop_last().len() && keys.drop_last()[i] == a;
            assert(keys[i] == a);
        }
        if keys.contains(a) && a != keys.last() {
            let i = choose|i: int| 0 <= i < keys.len() && keys[i] == a;
            assert(i < keys.len() - 1);
            assert(keys.drop_last()[i] == a);
        }
        if a == keys.last() {
            assert(keys.contains(a)) by {
                assert(keys[keys.len() - 1] == a);
            }
        }
    }
}


} // verus!
