//! The engine's global laws, stated over the resolution model that
//! every public contract uses.

use vstd::prelude::*;

use crate::data::{Entry, find, or_else, sorted, tombstone};
use crate::keys::lemma_lex_irreflexive;
use crate::lsm::LSMTree;

verus! {

/// One engine step (a write to another key, a flush, a compaction)
/// preserves every authoritative record that is not a tombstone; this
/// is what each mutator's contract guarantees of the keys it does not
/// write.
pub open spec fn preserves_records(t1: LSMTree, t2: LSMTree) -> bool {
    forall|k: Seq<u8>| t1.resolve(k) != Some(tombstone())
        ==> #[trigger] t2.resolve(k) == t1.resolve(k)
}

/// Recency: once the most recent write for `k` is a value `v2` (no
/// later delete), any further maintenance step that preserves
/// non-tombstone resolutions — as every flush and merge does — still
/// shows `v2` for `k`.
pub proof fn lemma_recency(t1: LSMTree, t2: LSMTree, k: Seq<u8>, v2: Seq<u8>)
    requires
        v2 != tombstone(),
        t1.resolve(k) == Some(v2),
        preserves_records(t1, t2),
    ensures
        t2.live(k) == Some(v2),
{
    assert(t2.resolve(k) == t1.resolve(k));
}

/// Recency across a whole run of the engine: through any sequence of
/// record-preserving steps — flushes, compactions, writes to other
/// keys, in any interleaving — the last written value for `k` stays
/// the visible one.
pub proof fn lemma_recency_chain(states: Seq<LSMTree>, k: Seq<u8>, v2: Seq<u8>)
    requires
        states.len() >= 1,
        v2 != tombstone(),
        states[0].resolve(k) == Some(v2),
        forall|n: int| 0 <= n < states.len() - 1
            ==> preserves_records(#[trigger] states[n], states[n + 1]),
    ensures
        states.last().live(k) == Some(v2),
    decreases states.len(),
{
    if states.len() > 1 {
        assert(preserves_records(states[0], states[1]));
        assert(states[1].resolve(k) == Some(v2));
        let rest = states.drop_first();
        assert forall|n: int| 0 <= n < rest.len() - 1
            implies preserves_records(#[trigger] rest[n], rest[n + 1]) by {
            assert(rest[n] == states[n + 1]);
            assert(rest[n + 1] == states[n + 2]);
            assert(preserves_records(states[n + 1], states[n + 2]));
        }
        lemma_recency_chain(rest, k, v2);
        assert(rest.last() == states.last());
    }
}

/// Tombstone shadowing: while the authoritative record for `k` is the
/// tombstone, a lookup reports not-found, even though an older value
/// for `k` may still exist physically in a deeper, not-yet-compacted
/// run.
pub proof fn lemma_tombstone_shadowing(t: LSMTree, k: Seq<u8>)
    requires
        t.resolve(k) == Some(tombstone()),
    ensures
        t.live(k) is None,
{
}

/// Capacity: in every well-formed state, every level holds at most
/// its bound of runs.
pub proof fn lemma_capacity_invariant(t: LSMTree)
    requires
        t.wf(),
    ensures
        forall|i: int| 0 <= i < t.levels@.len()
            ==> (#[trigger] t.levels@[i]).runs@.len() <= t.levels@[i].max_runs,
{
}

/// Merge correctness: when a recent and an older source both hold
/// `k`, a merge resolved by recency yields the recent source's value
/// for `k`, and its sortedness leaves exactly one entry for `k`.
pub proof fn lemma_merge_correctness(
    merged: Seq<Entry>,
    recent: Seq<Entry>,
    older: Seq<Entry>,
    k: Seq<u8>,
    v1: Seq<u8>,
    v2: Seq<u8>,
)
    requires
        sorted(merged),
        forall|k2: Seq<u8>| #[trigger] find(merged, k2)
            == or_else(find(recent, k2), find(older, k2)),
        find(recent, k) == Some(v1),
        find(older, k) == Some(v2),
    ensures
        find(merged, k) == Some(v1),
        forall|i: int, j: int| 0 <= i < j < merged.len()
            ==> !((#[trigger] merged[i]).key@ == k && (#[trigger] merged[j]).key@ == k),
{
    assert forall|i: int, j: int| 0 <= i < j < merged.len()
        implies !((#[trigger] merged[i]).key@ == k && (#[trigger] merged[j]).key@ == k) by {
        if merged[i].key@ == k && merged[j].key@ == k {
            lemma_lex_irreflexive(k);
        }
    }
}

} // verus!
