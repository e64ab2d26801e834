//! Laws of the engine's observable content.
//!
//! `add`'s contract turns each accepted write into one insertion into the
//! content map, and `get`'s contract reads that map. The laws here are
//! therefore stated over a starting content and a run of writes.

use vstd::prelude::*;

verus! {

/// One write: the key and value handed to an accepted `add` call.
pub struct AddOp {
    pub key: Seq<u8>,
    pub value: Seq<u8>,
}

/// The content after a run of writes, applied oldest first, each one
/// inserting its pair the way `add`'s contract does.
pub open spec fn apply_adds(m: Map<Seq<u8>, Seq<u8>>, ops: Seq<AddOp>) -> Map<Seq<u8>, Seq<u8>>
    decreases ops.len(),
{
    if ops.len() == 0 {
        m
    } else {
        apply_adds(m, ops.drop_last()).insert(ops.last().key, ops.last().value)
    }
}

/// Read-your-writes: immediately after `add(k, v)`, a lookup of `k`
/// returns `v`, whatever was written before.
pub proof fn lemma_read_your_writes(m: Map<Seq<u8>, Seq<u8>>, k: Seq<u8>, v: Seq<u8>)
    ensures
        m.insert(k, v).contains_key(k),
        m.insert(k, v)[k] == v,
{
}

/// Latest wins: after `add(k, v)`, any run of further writes to other
/// keys leaves a lookup of `k` returning `v`. In a run of writes to `k`
/// interleaved with writes to other keys, the last one therefore decides.
pub proof fn lemma_latest_wins(
    m: Map<Seq<u8>, Seq<u8>>,
    k: Seq<u8>,
    v: Seq<u8>,
    later: Seq<AddOp>,
)
    requires
        forall|i: int| 0 <= i < later.len() ==> (#[trigger] later[i].key) != k,
    ensures
        apply_adds(m.insert(k, v), later).contains_key(k),
        apply_adds(m.insert(k, v), later)[k] == v,
    decreases later.len(),
{
    if later.len() > 0 {
        assert forall|i: int|
            0 <= i < later.drop_last().len() implies (#[trigger] later.drop_last()[i].key)
            != k by {
            assert(later.drop_last()[i] == later[i]);
        }
        lemma_latest_wins(m, k, v, later.drop_last());
        assert(later[later.len() - 1].key != k);
    }
}

/// Absence: a key that no write of the run touches, and that the starting
/// content does not hold, reads as absent afterwards. From the empty
/// content of a fresh engine: a key never added reads as absent.
pub proof fn lemma_absence(m: Map<Seq<u8>, Seq<u8>>, ops: Seq<AddOp>, k: Seq<u8>)
    requires
        !m.contains_key(k),
        forall|i: int| 0 <= i < ops.len() ==> (#[trigger] ops[i].key) != k,
    ensures
        !apply_adds(m, ops).contains_key(k),
    decreases ops.len(),
{
    if ops.len() > 0 {
        assert forall|i: int|
            0 <= i < ops.drop_last().len() implies (#[trigger] ops.drop_last()[i].key) != k by {
            assert(ops.drop_last()[i] == ops[i]);
        }
        lemma_absence(m, ops.drop_last(), k);
        assert(ops[ops.len() - 1].key != k);
    }
}

} // verus!
