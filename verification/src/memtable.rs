//! The memtable: an in-memory ordered index from key to the offset of that
//! key's latest record in the dirty log.
//!
//! Slots are kept sorted by key so that a flush can stream them out in
//! ascending key order. Inserting an existing key overwrites its offset.

use crate::order::{key_compare, lemma_lex_asym, lemma_lex_irrefl, lemma_lex_trans, lex_lt, KeyCmp};
use vstd::pervasive::VecAdditionalExecFns;
use vstd::prelude::*;

verus! {

/// One slot of the memtable.
pub(crate) struct Slot {
    pub key: Vec<u8>,
    pub off: u64,
}

/// Some slot holds the key `k`.
pub(crate) open spec fn slot_has_key(s: Seq<Slot>, k: Seq<u8>) -> bool {
    exists|i: int| 0 <= i < s.len() && (#[trigger] s[i].key@) == k
}

/// The index a slot run denotes: each held key maps to its offset.
pub(crate) open spec fn mt_index(s: Seq<Slot>) -> Map<Seq<u8>, int> {
    Map::new(
        |k: Seq<u8>| slot_has_key(s, k),
        |k: Seq<u8>| s[choose|i: int| 0 <= i < s.len() && (#[trigger] s[i].key@) == k].off as int,
    )
}

/// Slots are strictly ascending by key.
pub(crate) open spec fn slots_sorted(s: Seq<Slot>) -> bool {
    forall|i: int, j: int| 0 <= i < j < s.len() ==> lex_lt(s[i].key@, s[j].key@)
}

/// In a sorted run, distinct slots hold distinct keys.
pub(crate) proof fn lemma_slots_distinct(s: Seq<Slot>, i: int, j: int)
    requires
        slots_sorted(s),
        0 <= i < s.len(),
        0 <= j < s.len(),
        i != j,
    ensures
        s[i].key@ != s[j].key@,
{
    if i < j {
        lemma_lex_asym(s[i].key@, s[j].key@);
    } else {
        lemma_lex_asym(s[j].key@, s[i].key@);
    }
}

/// Each slot's key is indexed at that slot's offset.
pub(crate) proof fn lemma_mt_at(s: Seq<Slot>, i: int)
    requires
        slots_sorted(s),
        0 <= i < s.len(),
    ensures
        mt_index(s).contains_key(s[i].key@),
        mt_index(s)[s[i].key@] == s[i].off as int,
{
    assert(slot_has_key(s, s[i].key@));
    let c = choose|c: int| 0 <= c < s.len() && (#[trigger] s[c].key@) == s[i].key@;
    if c != i {
        lemma_slots_distinct(s, c, i);
    }
}

/// A sorted run's index holds exactly as many keys as the run has slots.
pub(crate) proof fn lemma_mt_dom_len(s: Seq<Slot>)
    requires
        slots_sorted(s),
    ensures
        mt_index(s).dom().finite(),
        mt_index(s).dom().len() == s.len(),
    decreases s.len(),
{
    if s.len() == 0 {
        assert(mt_index(s).dom() =~= Set::<Seq<u8>>::empty());
    } else {
        let front = s.drop_last();
        let k = s.last().key@;
        lemma_mt_dom_len(front);
        assert(mt_index(s).dom() =~= mt_index(front).dom().insert(k)) by {
            assert forall|x: Seq<u8>| #[trigger] slot_has_key(s, x) implies slot_has_key(front, x)
                || x == k by {
                let c = choose|c: int| 0 <= c < s.len() && (#[trigger] s[c].key@) == x;
                if c < s.len() - 1 {
                    assert(front[c].key@ == x);
                }
            }
            assert forall|x: Seq<u8>| slot_has_key(front, x) implies #[trigger] slot_has_key(
                s,
                x,
            ) by {
                let c = choose|c: int| 0 <= c < front.len() && (#[trigger] front[c].key@) == x;
                assert(s[c].key@ == x);
            }
            assert(slot_has_key(s, k)) by {
                assert(s[s.len() - 1].key@ == k);
            }
        }
        assert(!mt_index(front).dom().contains(k)) by {
            if slot_has_key(front, k) {
                let c = choose|c: int| 0 <= c < front.len() && (#[trigger] front[c].key@) == k;
                lemma_slots_distinct(s, c, s.len() - 1);
            }
        }
    }
}

/// A map that holds exactly the slots' keys and agrees with every slot's
/// offset is the index the run denotes.
pub(crate) proof fn lemma_mt_index_is(s: Seq<Slot>, m: Map<Seq<u8>, int>)
    requires
        slots_sorted(s),
        forall|x: Seq<u8>| #[trigger] m.contains_key(x) <==> slot_has_key(s, x),
        forall|i: int| 0 <= i < s.len() ==> m[(#[trigger] s[i]).key@] == s[i].off as int,
    ensures
        mt_index(s) == m,
{
    assert forall|x: Seq<u8>| #[trigger] m.contains_key(x) implies mt_index(s)[x] == m[x] by {
        let i = choose|i: int| 0 <= i < s.len() && (#[trigger] s[i].key@) == x;
        lemma_mt_at(s, i);
    }
    assert(mt_index(s) =~= m);
}

/// Inserting a slot with a fresh key at its sorted position keeps the run
/// sorted and inserts the binding into the index.
proof fn lemma_insert_position(s: Seq<Slot>, e: Slot, i: int)
    requires
        slots_sorted(s),
        0 <= i <= s.len(),
        forall|p: int| 0 <= p < i ==> lex_lt((#[trigger] s[p].key@), e.key@),
        i < s.len() ==> lex_lt(e.key@, s[i].key@),
    ensures
        slots_sorted(s.insert(i, e)),
        mt_index(s.insert(i, e)) == mt_index(s).insert(e.key@, e.off as int),
{
    s.insert_ensures(i, e);
    let t = s.insert(i, e);
    let k = e.key@;
    assert forall|p: int, q: int| 0 <= p < q < t.len() implies lex_lt(t[p].key@, t[q].key@) by {
        if q < i {
        } else if q == i {
        } else {
            // q > i, so t[q] is s[q - 1]
            if p == i {
                if q - 1 > i {
                    lemma_lex_trans(k, s[i].key@, s[q - 1].key@);
                }
            }
        }
    }
    let m = mt_index(s).insert(k, e.off as int);
    assert forall|x: Seq<u8>| #[trigger] m.contains_key(x) <==> slot_has_key(t, x) by {
        if m.contains_key(x) {
            if x == k {
                assert(t[i].key@ == x);
            } else {
                assert(slot_has_key(s, x));
                let c = choose|c: int| 0 <= c < s.len() && (#[trigger] s[c].key@) == x;
                if c < i {
                    assert(t[c].key@ == x);
                } else {
                    assert(t[c + 1].key@ == x);
                }
            }
        }
        if slot_has_key(t, x) {
            let c = choose|c: int| 0 <= c < t.len() && (#[trigger] t[c].key@) == x;
            if c < i {
                assert(s[c].key@ == x);
            } else if c > i {
                assert(s[c - 1].key@ == x);
            }
        }
    }
    assert forall|p: int| 0 <= p < t.len() implies m[(#[trigger] t[p]).key@] == t[p].off as int by {
        if p < i {
            assert(t[p].key@ != k) by {
                lemma_lex_asym(s[p].key@, k);
            }
            lemma_mt_at(s, p);
        } else if p > i {
            assert(t[p].key@ != k) by {
                if p - 1 > i {
                    lemma_lex_trans(k, s[i].key@, s[p - 1].key@);
                }
                lemma_lex_asym(k, s[p - 1].key@);
            }
            lemma_mt_at(s, p - 1);
        }
    }
    lemma_mt_index_is(t, m);
}

/// The in-memory ordered index from key to dirty-log offset.
pub(crate) struct Memtable {
    pub entries: Vec<Slot>,
}

impl Memtable {
    /// Well-formed: keys strictly ascending.
    pub(crate) open spec fn wf(self) -> bool {
        slots_sorted(self.entries@)
    }

    /// An empty memtable.
    pub(crate) fn new() -> (r: Memtable)
        ensures
            r.wf(),
            r.entries@.len() == 0,
            mt_index(r.entries@) == Map::<Seq<u8>, int>::empty(),
    {
        let r = Memtable { entries: Vec::new() };
        proof {
            assert(mt_index(r.entries@) =~= Map::<Seq<u8>, int>::empty());
        }
        r
    }

    /// Look up the offset recorded for `key`.
    pub(crate) fn get(&self, key: &[u8]) -> (r: Option<u64>)
        requires
            self.wf(),
        ensures
            match r {
                Some(off) => mt_index(self.entries@).contains_key(key@) && off as int == mt_index(
                    self.entries@,
                )[key@],
                None => !mt_index(self.entries@).contains_key(key@),
            },
    {
        let mut i: usize = 0;
        while i < self.entries.len()
            invariant
                self.wf(),
                0 <= i <= self.entries@.len(),
                forall|m: int| 0 <= m < i ==> (#[trigger] self.entries@[m].key@) != key@,
            decreases self.entries@.len() - i,
        {
            let e = &self.entries[i];
            match key_compare(key, e.key.as_slice()) {
                KeyCmp::Eq => {
                    proof {
                        lemma_mt_at(self.entries@, i as int);
                    }
                    return Some(e.off);
                },
                _ => {
                    i = i + 1;
                },
            }
        }
        None
    }

    /// Bind `key` to `off`, overwriting any previous binding and keeping
    /// the slots sorted.
    pub(crate) fn insert(&mut self, key: &[u8], off: u64)
        requires
            old(self).wf(),
        ensures
            final(self).wf(),
            mt_index(final(self).entries@) == mt_index(old(self).entries@).insert(
                key@,
                off as int,
            ),
            final(self).entries@.len() == old(self).entries@.len() + (if slot_has_key(
                old(self).entries@,
                key@,
            ) {
                0int
            } else {
                1int
            }),
    {
        let ghost s = self.entries@;
        let ghost k = key@;
        let ghost m = mt_index(s).insert(k, off as int);
        let mut i: usize = 0;
        while i < self.entries.len()
            invariant
                self.entries@ == s,
                s == old(self).entries@,
                slots_sorted(s),
                k == key@,
                m == mt_index(s).insert(k, off as int),
                0 <= i <= s.len(),
                forall|p: int| 0 <= p < i ==> lex_lt((#[trigger] s[p].key@), k),
            decreases s.len() - i,
        {
            let e_cmp = {
                let e = &self.entries[i];
                key_compare(e.key.as_slice(), key)
            };
            match e_cmp {
                KeyCmp::Lt => {
                    i = i + 1;
                },
                KeyCmp::Eq => {
                    // the key is already bound: overwrite the offset in place
                    let kv = vstd::slice::slice_to_vec(key);
                    let slot = Slot { key: kv, off };
                    let ghost e = slot;
                    self.entries.set(i, slot);
                    proof {
                        let t = self.entries@;
                        assert(t == s.update(i as int, e));
                        assert forall|p: int| 0 <= p < t.len() implies (#[trigger] t[p].key@)
                            == s[p].key@ by {}
                        assert(slots_sorted(t));
                        assert forall|x: Seq<u8>| #[trigger] m.contains_key(x) <==> slot_has_key(
                            t,
                            x,
                        ) by {
                            if m.contains_key(x) {
                                if x == k {
                                    assert(t[i as int].key@ == x);
                                } else {
                                    assert(slot_has_key(s, x));
                                    let c = choose|c: int|
                                        0 <= c < s.len() && (#[trigger] s[c].key@) == x;
                                    assert(t[c].key@ == x);
                                }
                            }
                            if slot_has_key(t, x) {
                                let c = choose|c: int|
                                    0 <= c < t.len() && (#[trigger] t[c].key@) == x;
                                assert(s[c].key@ == x);
                            }
                        }
                        assert forall|p: int| 0 <= p < t.len() implies m[(#[trigger] t[p]).key@]
                            == t[p].off as int by {
                            if p == i {
                            } else {
                                lemma_slots_distinct(s, p, i as int);
                                lemma_mt_at(s, p);
                            }
                        }
                        lemma_mt_index_is(t, m);
                        assert(slot_has_key(s, k)) by {
                            assert(s[i as int].key@ == k);
                        }
                    }
                    return ;
                },
                KeyCmp::Gt => {
                    // the new key sorts before slot `i`: insert it here
                    let kv = vstd::slice::slice_to_vec(key);
                    let slot = Slot { key: kv, off };
                    let ghost e = slot;
                    self.entries.insert(i, slot);
                    proof {
                        assert(e.key@ == k);
                        lemma_insert_position(s, e, i as int);
                        assert(!slot_has_key(s, k)) by {
                            if slot_has_key(s, k) {
                                let c = choose|c: int|
                                    0 <= c < s.len() && (#[trigger] s[c].key@) == k;
                                if c < i {
                                    lemma_lex_irrefl(k);
                                } else {
                                    if c > i {
                                        lemma_lex_trans(k, s[i as int].key@, s[c].key@);
                                    }
                                    lemma_lex_irrefl(k);
                                }
                            }
                        }
                    }
                    return ;
                },
            }
        }
        // every existing key sorts before the new one: append at the end
        let kv = vstd::slice::slice_to_vec(key);
        let slot = Slot { key: kv, off };
        let ghost e = slot;
        let n = self.entries.len();
        self.entries.insert(n, slot);
        proof {
            assert(e.key@ == k);
            lemma_insert_position(s, e, n as int);
            assert(!slot_has_key(s, k)) by {
                if slot_has_key(s, k) {
                    let c = choose|c: int| 0 <= c < s.len() && (#[trigger] s[c].key@) == k;
                    lemma_lex_irrefl(k);
                }
            }
        }
    }
}

} // verus!
