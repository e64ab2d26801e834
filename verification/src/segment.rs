//! Segments: immutable, key-sorted, duplicate-free runs of records.
//!
//! A segment is the image of one `segment-<id>` file: a sequence of framed
//! records whose keys ascend strictly. Lookup is a linear scan. Two segments
//! merge into one, streaming both inputs in order and resolving duplicate
//! keys in favour of the newer input.

use crate::codec::{entry_bytes, write_entry};
use crate::order::{key_compare, lemma_lex_asym, lemma_lex_le_lt_trans, lemma_lex_lt_le_trans,
    lex_le, lex_lt, KeyCmp};
use vstd::prelude::*;

verus! {

/// One key-value pair of a segment.
pub struct Entry {
    pub key: Vec<u8>,
    pub value: Vec<u8>,
}

/// Keys ascend strictly: every entry's key is lexicographically below the
/// keys of all later entries, so each key occurs at most once.
pub open spec fn keys_sorted(s: Seq<Entry>) -> bool {
    forall|i: int, j: int| 0 <= i < j < s.len() ==> lex_lt(s[i].key@, s[j].key@)
}

/// Every entry's key and value fit the 4-byte length header.
pub open spec fn entries_fit(s: Seq<Entry>) -> bool {
    forall|i: int|
        0 <= i < s.len() ==> (#[trigger] s[i].key@.len()) <= u32::MAX && s[i].value@.len()
            <= u32::MAX
}

/// The key-value mapping of an entry run; a later entry for the same key
/// would win, though sorted runs never repeat a key.
pub open spec fn map_of_entries(s: Seq<Entry>) -> Map<Seq<u8>, Seq<u8>>
    decreases s.len(),
{
    if s.len() == 0 {
        Map::empty()
    } else {
        map_of_entries(s.drop_last()).insert(s.last().key@, s.last().value@)
    }
}

/// The byte image of an entry run: each entry framed, in order.
pub open spec fn encode_entries(s: Seq<Entry>) -> Seq<u8>
    decreases s.len(),
{
    if s.len() == 0 {
        Seq::empty()
    } else {
        encode_entries(s.drop_last()) + entry_bytes(s.last().key@, s.last().value@)
    }
}

/// A key is in the mapping exactly when some entry carries it.
pub proof fn lemma_map_of_entries_contains(s: Seq<Entry>, k: Seq<u8>)
    ensures
        map_of_entries(s).contains_key(k) <==> exists|i: int|
            0 <= i < s.len() && #[trigger] s[i].key@ == k,
    decreases s.len(),
{
    if s.len() > 0 {
        lemma_map_of_entries_contains(s.drop_last(), k);
        if s.last().key@ == k {
            assert(s[s.len() - 1].key@ == k);
        } else {
            if map_of_entries(s).contains_key(k) {
                let i = choose|i: int|
                    0 <= i < s.drop_last().len() && #[trigger] s.drop_last()[i].key@ == k;
                assert(s[i].key@ == k);
            }
            if exists|i: int| 0 <= i < s.len() && #[trigger] s[i].key@ == k {
                let i = choose|i: int| 0 <= i < s.len() && #[trigger] s[i].key@ == k;
                assert(s.drop_last()[i].key@ == k);
            }
        }
    }
}

/// When no other entry shares its key, an entry's key maps to its value.
pub proof fn lemma_map_of_entries_at(s: Seq<Entry>, i: int)
    requires
        0 <= i < s.len(),
        forall|j: int| 0 <= j < s.len() && j != i ==> (#[trigger] s[j].key@) != s[i].key@,
    ensures
        map_of_entries(s).contains_key(s[i].key@),
        map_of_entries(s)[s[i].key@] == s[i].value@,
    decreases s.len(),
{
    if i == s.len() - 1 {
    } else {
        assert(s[s.len() - 1].key@ != s[i].key@);
        assert(forall|j: int|
            0 <= j < s.drop_last().len() && j != i ==> (#[trigger] s.drop_last()[j].key@)
                != s.drop_last()[i].key@);
        lemma_map_of_entries_at(s.drop_last(), i);
    }
}

/// In a sorted run, distinct positions hold distinct keys.
pub proof fn lemma_sorted_distinct(s: Seq<Entry>, i: int, j: int)
    requires
        keys_sorted(s),
        0 <= i < s.len(),
        0 <= j < s.len(),
        i != j,
    ensures
        s[i].key@ != s[j].key@,
{
    if i < j {
        lemma_lex_asym(s[i].key@, s[j].key@);
    } else {
        lemma_lex_asym(s[j].key@, s[i].key@);
    }
}

/// A sorted run stays sorted when an entry above its last key is appended.
pub proof fn lemma_sorted_push(s: Seq<Entry>, e: Entry)
    requires
        keys_sorted(s),
        s.len() > 0 ==> lex_lt(s.last().key@, e.key@),
    ensures
        keys_sorted(s.push(e)),
{
    let t = s.push(e);
    assert forall|i: int, j: int| 0 <= i < j < t.len() implies lex_lt(t[i].key@, t[j].key@) by {
        if j == s.len() {
            if i < s.len() - 1 {
                crate::order::lemma_lex_trans(s[i].key@, s[s.len() - 1].key@, e.key@);
            }
        }
    }
}

/// Appending an entry inserts its pair into the mapping.
pub proof fn lemma_map_push(s: Seq<Entry>, e: Entry)
    ensures
        map_of_entries(s.push(e)) == map_of_entries(s).insert(e.key@, e.value@),
{
    assert(s.push(e).drop_last() =~= s);
}

/// Appending an entry extends the byte image by that framed entry.
pub proof fn lemma_encode_push(s: Seq<Entry>, e: Entry)
    ensures
        encode_entries(s.push(e)) == encode_entries(s) + entry_bytes(e.key@, e.value@),
{
    assert(s.push(e).drop_last() =~= s);
}

/// A sorted run is determined by its mapping: two sorted runs that denote
/// the same key-value map hold the same keys and values, in the same
/// order.
pub proof fn lemma_sorted_run_determined(a: Seq<Entry>, b: Seq<Entry>)
    requires
        keys_sorted(a),
        keys_sorted(b),
        map_of_entries(a) == map_of_entries(b),
    ensures
        a.len() == b.len(),
        forall|i: int|
            0 <= i < a.len() ==> (#[trigger] a[i]).key@ == b[i].key@ && a[i].value@ == b[i].value@,
    decreases a.len(),
{
    if a.len() == 0 && b.len() == 0 {
    } else if a.len() == 0 {
        lemma_map_of_entries_contains(a, b.last().key@);
        lemma_map_of_entries_contains(b, b.last().key@);
        assert(b[b.len() - 1].key@ == b.last().key@);
        assert(false);
    } else if b.len() == 0 {
        lemma_map_of_entries_contains(a, a.last().key@);
        lemma_map_of_entries_contains(b, a.last().key@);
        assert(a[a.len() - 1].key@ == a.last().key@);
        assert(false);
    } else {
        let ka = a.last().key@;
        let kb = b.last().key@;
        // each run's last key is the largest key of the shared map, so
        // the two last keys agree
        assert(crate::order::lex_le(kb, ka)) by {
            lemma_map_of_entries_contains(b, kb);
            assert(b[b.len() - 1].key@ == kb);
            lemma_map_of_entries_contains(a, kb);
            let i = choose|i: int| 0 <= i < a.len() && (#[trigger] a[i].key@) == kb;
            if i < a.len() - 1 {
                assert(lex_lt(a[i].key@, a[a.len() - 1].key@));
            }
        }
        assert(crate::order::lex_le(ka, kb)) by {
            lemma_map_of_entries_contains(a, ka);
            assert(a[a.len() - 1].key@ == ka);
            lemma_map_of_entries_contains(b, ka);
            let i = choose|i: int| 0 <= i < b.len() && (#[trigger] b[i].key@) == ka;
            if i < b.len() - 1 {
                assert(lex_lt(b[i].key@, b[b.len() - 1].key@));
            }
        }
        crate::order::lemma_lex_le_antisym(ka, kb);
        // the last values agree: both are the map's value at that key
        assert forall|j: int| 0 <= j < a.len() && j != a.len() - 1 implies (#[trigger] a[j].key@)
            != a[a.len() - 1].key@ by {
            lemma_sorted_distinct(a, j, a.len() - 1);
        }
        lemma_map_of_entries_at(a, a.len() - 1);
        assert forall|j: int| 0 <= j < b.len() && j != b.len() - 1 implies (#[trigger] b[j].key@)
            != b[b.len() - 1].key@ by {
            lemma_sorted_distinct(b, j, b.len() - 1);
        }
        lemma_map_of_entries_at(b, b.len() - 1);
        // the shorter runs denote the shared map without its largest key
        assert(map_of_entries(a.drop_last()) =~= map_of_entries(a).remove(ka)) by {
            lemma_front_map(a);
        }
        assert(map_of_entries(b.drop_last()) =~= map_of_entries(b).remove(kb)) by {
            lemma_front_map(b);
        }
        lemma_sorted_run_determined(a.drop_last(), b.drop_last());
        assert forall|i: int|
            0 <= i < a.len() implies (#[trigger] a[i]).key@ == b[i].key@ && a[i].value@
            == b[i].value@ by {
            if i < a.len() - 1 {
                assert(a.drop_last()[i].key@ == b.drop_last()[i].key@ && a.drop_last()[i].value@
                    == b.drop_last()[i].value@);
            }
        }
    }
}

/// Dropping a sorted run's last entry removes exactly its key from the
/// mapping.
proof fn lemma_front_map(s: Seq<Entry>)
    requires
        keys_sorted(s),
        s.len() > 0,
    ensures
        map_of_entries(s.drop_last()) == map_of_entries(s).remove(s.last().key@),
{
    assert(!map_of_entries(s.drop_last()).contains_key(s.last().key@)) by {
        lemma_map_of_entries_contains(s.drop_last(), s.last().key@);
        if map_of_entries(s.drop_last()).contains_key(s.last().key@) {
            let c = choose|c: int|
                0 <= c < s.drop_last().len() && (#[trigger] s.drop_last()[c].key@)
                    == s.last().key@;
            lemma_sorted_distinct(s, c, s.len() - 1);
        }
    }
    assert(map_of_entries(s.drop_last()) =~= map_of_entries(s).remove(s.last().key@));
}

/// Two runs with the same keys and values, in the same order, have the
/// same byte image.
pub proof fn lemma_encode_determined(a: Seq<Entry>, b: Seq<Entry>)
    requires
        a.len() == b.len(),
        forall|i: int|
            0 <= i < a.len() ==> (#[trigger] a[i]).key@ == b[i].key@ && a[i].value@ == b[i].value@,
    ensures
        encode_entries(a) == encode_entries(b),
    decreases a.len(),
{
    if a.len() > 0 {
        lemma_encode_determined(a.drop_last(), b.drop_last());
    }
}

/// The in-memory image of one segment file.
pub struct Segment {
    pub id: usize,
    pub entries: Vec<Entry>,
}

impl View for Segment {
    type V = Seq<Entry>;

    open spec fn view(&self) -> Seq<Entry> {
        self.entries@
    }
}

impl Segment {
    /// The numeric id under which the segment file is named.
    pub open spec fn spec_id(self) -> int {
        self.id as int
    }

    /// Well-formed: keys strictly ascending, every entry encodable.
    pub open spec fn wf(self) -> bool {
        keys_sorted(self@) && entries_fit(self@)
    }

    /// The id as a run-time value.
    pub fn id(&self) -> (r: usize)
        ensures
            r as int == self.spec_id(),
    {
        self.id
    }

    /// Scan the segment for `key` and return a copy of its value.
    pub fn get(&self, key: &[u8]) -> (r: Option<Vec<u8>>)
        requires
            self.wf(),
        ensures
            match r {
                Some(v) => map_of_entries(self@).contains_key(key@) && v@ == map_of_entries(
                    self@,
                )[key@],
                None => !map_of_entries(self@).contains_key(key@),
            },
    {
        let mut i: usize = 0;
        while i < self.entries.len()
            invariant
                self.wf(),
                0 <= i <= self@.len(),
                forall|m: int| 0 <= m < i ==> (#[trigger] self@[m].key@) != key@,
            decreases self@.len() - i,
        {
            let e = &self.entries[i];
            match key_compare(key, e.key.as_slice()) {
                KeyCmp::Eq => {
                    let v = vstd::slice::slice_to_vec(e.value.as_slice());
                    proof {
                        assert forall|j: int| 0 <= j < self@.len() && j != i implies (
                        #[trigger] self@[j].key@) != self@[i as int].key@ by {
                            lemma_sorted_distinct(self@, i as int, j);
                        }
                        lemma_map_of_entries_at(self@, i as int);
                    }
                    return Some(v);
                },
                _ => {
                    i = i + 1;
                },
            }
        }
        proof {
            lemma_map_of_entries_contains(self@, key@);
        }
        None
    }

    /// Write the segment's byte image into `buf`, replacing its contents.
    pub fn dump(&self, buf: &mut Vec<u8>)
        requires
            self.wf(),
        ensures
            final(buf)@ == encode_entries(self@),
    {
        buf.clear();
        let mut i: usize = 0;
        while i < self.entries.len()
            invariant
                self.wf(),
                0 <= i <= self@.len(),
                buf@ == encode_entries(self@.subrange(0, i as int)),
            decreases self@.len() - i,
        {
            let e = &self.entries[i];
            write_entry(buf, e.key.as_slice(), e.value.as_slice());
            proof {
                assert(self@.subrange(0, i + 1) =~= self@.subrange(0, i as int).push(
                    self@[i as int],
                ));
                lemma_encode_push(self@.subrange(0, i as int), self@[i as int]);
            }
            i = i + 1;
        }
        proof {
            assert(self@.subrange(0, self@.len() as int) =~= self@);
        }
    }

    /// Merge a newer segment over an older one.
    ///
    /// The result contains the union of both key sets, with the newer
    /// segment's value winning wherever a key appears on both sides, its
    /// keys strictly ascending, and the older segment's id.
    pub fn merge(new: &Segment, old: &Segment) -> (r: Segment)
        requires
            new.wf(),
            old.wf(),
        ensures
            r.wf(),
            r.spec_id() == old.spec_id(),
            map_of_entries(r@) == map_of_entries(old@).union_prefer_right(map_of_entries(new@)),
            forall|k: Seq<u8>|
                map_of_entries(old@).contains_key(k) && map_of_entries(new@).contains_key(k)
                    ==> map_of_entries(r@)[k] == map_of_entries(new@)[k],
    {
        let nlen = new.entries.len();
        let olen = old.entries.len();
        let mut out: Vec<Entry> = Vec::new();
        let mut i: usize = 0;
        let mut j: usize = 0;
        while i < nlen && j < olen
            invariant
                nlen == new@.len(),
                olen == old@.len(),
                new.wf(),
                old.wf(),
                0 <= i <= nlen,
                0 <= j <= olen,
                keys_sorted(out@),
                entries_fit(out@),
                map_of_entries(out@) == map_of_entries(old@.subrange(0, j as int)).union_prefer_right(
                    map_of_entries(new@.subrange(0, i as int)),
                ),
                i > 0 ==> out@.len() > 0 && lex_le(new@[i - 1].key@, out@.last().key@),
                j > 0 ==> out@.len() > 0 && lex_le(old@[j - 1].key@, out@.last().key@),
                out@.len() > 0 && i < nlen ==> lex_lt(out@.last().key@, new@[i as int].key@),
                out@.len() > 0 && j < olen ==> lex_lt(out@.last().key@, old@[j as int].key@),
            decreases nlen - i + olen - j,
        {
            let ne = &new.entries[i];
            let oe = &old.entries[j];
            let ghost prev = out@;
            let ghost a = map_of_entries(old@.subrange(0, j as int));
            let ghost b = map_of_entries(new@.subrange(0, i as int));
            match key_compare(ne.key.as_slice(), oe.key.as_slice()) {
                KeyCmp::Gt => {
                    // The older side's key is smaller; emit it.
                    let e = Entry {
                        key: vstd::slice::slice_to_vec(oe.key.as_slice()),
                        value: vstd::slice::slice_to_vec(oe.value.as_slice()),
                    };
                    proof {
                        let k = old@[j as int].key@;
                        lemma_sorted_push(prev, e);
                        lemma_map_push(prev, e);
                        assert forall|m: int| 0 <= m < i implies (
                        #[trigger] new@.subrange(0, i as int)[m].key@) != k by {
                            let km = new@[m].key@;
                            if m < i - 1 {
                                lemma_lex_lt_le_trans(km, new@[i - 1].key@, prev.last().key@);
                            }
                            lemma_lex_le_lt_trans(km, prev.last().key@, k);
                            lemma_lex_asym(km, k);
                        }
                        lemma_map_of_entries_contains(new@.subrange(0, i as int), k);
                        assert(old@.subrange(0, j + 1) =~= old@.subrange(0, j as int).push(
                            old@[j as int],
                        ));
                        lemma_map_push(old@.subrange(0, j as int), old@[j as int]);
                        assert(map_of_entries(prev.push(e)) =~= map_of_entries(
                            old@.subrange(0, j + 1),
                        ).union_prefer_right(b));
                        if i > 0 {
                            lemma_lex_le_lt_trans(new@[i - 1].key@, prev.last().key@, k);
                        }
                    }
                    out.push(e);
                    j = j + 1;
                },
                KeyCmp::Eq => {
                    // Same key on both sides: the newer value wins, the
                    // older side's entry is dropped.
                    let e = Entry {
                        key: vstd::slice::slice_to_vec(ne.key.as_slice()),
                        value: vstd::slice::slice_to_vec(ne.value.as_slice()),
                    };
                    proof {
                        let k = new@[i as int].key@;
                        lemma_sorted_push(prev, e);
                        lemma_map_push(prev, e);
                        assert(new@.subrange(0, i + 1) =~= new@.subrange(0, i as int).push(
                            new@[i as int],
                        ));
                        assert(old@.subrange(0, j + 1) =~= old@.subrange(0, j as int).push(
                            old@[j as int],
                        ));
                        lemma_map_push(new@.subrange(0, i as int), new@[i as int]);
                        lemma_map_push(old@.subrange(0, j as int), old@[j as int]);
                        assert(map_of_entries(prev.push(e)) =~= map_of_entries(
                            old@.subrange(0, j + 1),
                        ).union_prefer_right(map_of_entries(new@.subrange(0, i + 1))));
                    }
                    out.push(e);
                    i = i + 1;
                    j = j + 1;
                },
                KeyCmp::Lt => {
                    // The newer side's key is smaller; emit it.
                    let e = Entry {
                        key: vstd::slice::slice_to_vec(ne.key.as_slice()),
                        value: vstd::slice::slice_to_vec(ne.value.as_slice()),
                    };
                    proof {
                        let k = new@[i as int].key@;
                        lemma_sorted_push(prev, e);
                        lemma_map_push(prev, e);
                        assert(new@.subrange(0, i + 1) =~= new@.subrange(0, i as int).push(
                            new@[i as int],
                        ));
                        lemma_map_push(new@.subrange(0, i as int), new@[i as int]);
                        assert(map_of_entries(prev.push(e)) =~= a.union_prefer_right(
                            map_of_entries(new@.subrange(0, i + 1)),
                        ));
                        if j > 0 {
                            lemma_lex_le_lt_trans(old@[j - 1].key@, prev.last().key@, k);
                        }
                    }
                    out.push(e);
                    i = i + 1;
                },
            }
        }
        while i < nlen
            invariant
                nlen == new@.len(),
                olen == old@.len(),
                new.wf(),
                old.wf(),
                0 <= i <= nlen,
                0 <= j <= olen,
                i < nlen ==> j == olen,
                keys_sorted(out@),
                entries_fit(out@),
                map_of_entries(out@) == map_of_entries(old@.subrange(0, j as int)).union_prefer_right(
                    map_of_entries(new@.subrange(0, i as int)),
                ),
                i > 0 ==> out@.len() > 0 && lex_le(new@[i - 1].key@, out@.last().key@),
                j > 0 ==> out@.len() > 0 && lex_le(old@[j - 1].key@, out@.last().key@),
                out@.len() > 0 && i < nlen ==> lex_lt(out@.last().key@, new@[i as int].key@),
                out@.len() > 0 && j < olen ==> lex_lt(out@.last().key@, old@[j as int].key@),
            decreases nlen - i,
        {
            let ne = &new.entries[i];
            let ghost prev = out@;
            let ghost a = map_of_entries(old@.subrange(0, j as int));
            let e = Entry {
                key: vstd::slice::slice_to_vec(ne.key.as_slice()),
                value: vstd::slice::slice_to_vec(ne.value.as_slice()),
            };
            proof {
                let k = new@[i as int].key@;
                lemma_sorted_push(prev, e);
                lemma_map_push(prev, e);
                assert(new@.subrange(0, i + 1) =~= new@.subrange(0, i as int).push(
                    new@[i as int],
                ));
                lemma_map_push(new@.subrange(0, i as int), new@[i as int]);
                assert(map_of_entries(prev.push(e)) =~= a.union_prefer_right(
                    map_of_entries(new@.subrange(0, i + 1)),
                ));
                if j > 0 && prev.len() > 0 {
                    lemma_lex_le_lt_trans(old@[j - 1].key@, prev.last().key@, k);
                }
            }
            out.push(e);
            i = i + 1;
        }
        while j < olen
            invariant
                nlen == new@.len(),
                olen == old@.len(),
                new.wf(),
                old.wf(),
                0 <= j <= olen,
                i == nlen,
                keys_sorted(out@),
                entries_fit(out@),
                map_of_entries(out@) == map_of_entries(old@.subrange(0, j as int)).union_prefer_right(
                    map_of_entries(new@.subrange(0, i as int)),
                ),
                i > 0 ==> out@.len() > 0 && lex_le(new@[i - 1].key@, out@.last().key@),
                j > 0 ==> out@.len() > 0 && lex_le(old@[j - 1].key@, out@.last().key@),
                out@.len() > 0 && j < olen ==> lex_lt(out@.last().key@, old@[j as int].key@),
            decreases olen - j,
        {
            let oe = &old.entries[j];
            let ghost prev = out@;
            let ghost b = map_of_entries(new@.subrange(0, i as int));
            let e = Entry {
                key: vstd::slice::slice_to_vec(oe.key.as_slice()),
                value: vstd::slice::slice_to_vec(oe.value.as_slice()),
            };
            proof {
                let k = old@[j as int].key@;
                lemma_sorted_push(prev, e);
                lemma_map_push(prev, e);
                assert forall|m: int| 0 <= m < i implies (
                #[trigger] new@.subrange(0, i as int)[m].key@) != k by {
                    let km = new@[m].key@;
                    if m < i - 1 {
                        lemma_lex_lt_le_trans(km, new@[i - 1].key@, prev.last().key@);
                    }
                    lemma_lex_le_lt_trans(km, prev.last().key@, k);
                    lemma_lex_asym(km, k);
                }
                lemma_map_of_entries_contains(new@.subrange(0, i as int), k);
                assert(old@.subrange(0, j + 1) =~= old@.subrange(0, j as int).push(
                    old@[j as int],
                ));
                lemma_map_push(old@.subrange(0, j as int), old@[j as int]);
                assert(map_of_entries(prev.push(e)) =~= map_of_entries(
                    old@.subrange(0, j + 1),
                ).union_prefer_right(b));
                if i > 0 && prev.len() > 0 {
                    lemma_lex_le_lt_trans(new@[i - 1].key@, prev.last().key@, k);
                }
            }
            out.push(e);
            j = j + 1;
        }
        proof {
            assert(new@.subrange(0, nlen as int) =~= new@);
            assert(old@.subrange(0, olen as int) =~= old@);
        }
        Segment { id: old.id, entries: out }
    }
}

/// The combined content of a list of segments, ordered oldest first, where
/// every later segment shadows the earlier ones.
pub open spec fn segs_view(segs: Seq<Segment>) -> Map<Seq<u8>, Seq<u8>>
    decreases segs.len(),
{
    if segs.len() == 0 {
        Map::empty()
    } else {
        map_of_entries(segs[0]@).union_prefer_right(segs_view(segs.skip(1)))
    }
}

/// Appending a segment overlays its content over everything older.
pub proof fn lemma_segs_view_push(segs: Seq<Segment>, s: Segment)
    ensures
        segs_view(segs.push(s)) == segs_view(segs).union_prefer_right(map_of_entries(s@)),
    decreases segs.len(),
{
    if segs.len() == 0 {
        assert(segs.push(s)[0] == s);
        assert(segs.push(s).skip(1) =~= Seq::<Segment>::empty());
        assert(segs_view(segs.push(s).skip(1)) =~= Map::<Seq<u8>, Seq<u8>>::empty());
        assert(segs_view(segs) =~= Map::<Seq<u8>, Seq<u8>>::empty());
        assert(segs_view(segs.push(s)) =~= segs_view(segs).union_prefer_right(map_of_entries(s@)));
    } else {
        assert(segs.push(s).skip(1) =~= segs.skip(1).push(s));
        lemma_segs_view_push(segs.skip(1), s);
        assert(segs.push(s)[0] == segs[0]);
        assert(segs_view(segs.push(s)) == map_of_entries(segs[0]@).union_prefer_right(
            segs_view(segs.skip(1)).union_prefer_right(map_of_entries(s@)),
        ));
        assert(segs_view(segs) == map_of_entries(segs[0]@).union_prefer_right(
            segs_view(segs.skip(1)),
        ));
        assert(segs_view(segs.push(s)) =~= segs_view(segs).union_prefer_right(map_of_entries(s@)));
    }
}

/// A key held by no segment is absent from the combined content.
pub proof fn lemma_segs_view_absent(segs: Seq<Segment>, k: Seq<u8>)
    requires
        forall|n: int| 0 <= n < segs.len() ==> !(#[trigger] map_of_entries(segs[n]@)).contains_key(
            k,
        ),
    ensures
        !segs_view(segs).contains_key(k),
    decreases segs.len(),
{
    if segs.len() > 0 {
        assert forall|n: int|
            0 <= n < segs.skip(1).len() implies !(#[trigger] map_of_entries(
            segs.skip(1)[n]@,
        )).contains_key(k) by {
            assert(segs.skip(1)[n] == segs[n + 1]);
        }
        lemma_segs_view_absent(segs.skip(1), k);
    }
}

/// The newest segment holding a key decides its combined value.
pub proof fn lemma_segs_view_found(segs: Seq<Segment>, idx: int, k: Seq<u8>)
    requires
        0 <= idx < segs.len(),
        map_of_entries(segs[idx]@).contains_key(k),
        forall|n: int| idx < n < segs.len() ==> !(#[trigger] map_of_entries(segs[n]@)).contains_key(
            k,
        ),
    ensures
        segs_view(segs).contains_key(k),
        segs_view(segs)[k] == map_of_entries(segs[idx]@)[k],
    decreases segs.len(),
{
    if idx == 0 {
        assert forall|n: int|
            0 <= n < segs.skip(1).len() implies !(#[trigger] map_of_entries(
            segs.skip(1)[n]@,
        )).contains_key(k) by {
            assert(segs.skip(1)[n] == segs[n + 1]);
        }
        lemma_segs_view_absent(segs.skip(1), k);
    } else {
        assert(segs.skip(1)[idx - 1] == segs[idx]);
        assert forall|n: int|
            idx - 1 < n < segs.skip(1).len() implies !(#[trigger] map_of_entries(
            segs.skip(1)[n]@,
        )).contains_key(k) by {
            assert(segs.skip(1)[n] == segs[n + 1]);
        }
        lemma_segs_view_found(segs.skip(1), idx - 1, k);
    }
}

} // verus!
