//! The k-way merge engine. Sorted sources are registered in recency
//! order, most recent first; for a key present in several sources the
//! earliest-added source wins, so the merge's duplicate resolution
//! matches the tree's recency order.

use vstd::prelude::*;

use crate::data::{Entry, find, copy_entry, sorted, or_else,
    lemma_find_push, lemma_find_none_above, lemma_sorted_push_last};
use crate::keys::{lex_lt, key_cmp, KeyOrder, lemma_lex_transitive};

verus! {

/// Merges two strictly sorted sequences into one; on a duplicate key
/// the left (more recent) operand's entry survives.
pub fn merge_prefer_left(a: &Vec<Entry>, b: &Vec<Entry>) -> (r: Vec<Entry>)
    requires
        sorted(a@),
        sorted(b@),
    ensures
        sorted(r@),
        r@.len() <= a@.len() + b@.len(),
        forall|k: Seq<u8>| #[trigger] find(r@, k) == or_else(find(a@, k), find(b@, k)),
{
    let mut out: Vec<Entry> = Vec::new();
    let mut i: usize = 0;
    let mut j: usize = 0;
    while i < a.len() || j < b.len()
        invariant
            i <= a.len(),
            j <= b.len(),
            sorted(a@),
            sorted(b@),
            sorted(out@),
            out@.len() <= i + j,
            forall|m: int, l: int| 0 <= m < out@.len() && i <= l < a@.len()
                ==> lex_lt((#[trigger] out@[m]).key@, (#[trigger] a@[l]).key@),
            forall|m: int, l: int| 0 <= m < out@.len() && j <= l < b@.len()
                ==> lex_lt((#[trigger] out@[m]).key@, (#[trigger] b@[l]).key@),
            forall|k: Seq<u8>| #[trigger] find(out@, k)
                == or_else(find(a@.take(i as int), k), find(b@.take(j as int), k)),
        decreases a.len() + b.len() - i - j,
    {
        let ghost prev = out@;
        let take_a: bool;
        let take_b: bool;
        if i < a.len() && j < b.len() {
            match key_cmp(&a[i].key, &b[j].key) {
                KeyOrder::Less => {
                    take_a = true;
                    take_b = false;
                },
                KeyOrder::Equal => {
                    take_a = true;
                    take_b = true;
                },
                KeyOrder::Greater => {
                    take_a = false;
                    take_b = true;
                },
            }
        } else if i < a.len() {
            take_a = true;
            take_b = false;
        } else {
            take_a = false;
            take_b = true;
        }
        if take_a {
            out.push(copy_entry(&a[i]));
            proof {
                assert(out@ =~= prev.push(out@.last()));
                lemma_sorted_push_last(prev, out@.last());
                assert(a@.take(i + 1 as int) =~= a@.take(i as int).push(a@[i as int]));
                if take_b {
                    assert(b@.take(j + 1 as int) =~= b@.take(j as int).push(b@[j as int]));
                }
                assert forall|k: Seq<u8>| #[trigger] find(out@, k)
                    == or_else(
                        find(a@.take(i + 1 as int), k),
                        find(b@.take(if take_b { j + 1 } else { j as int }), k),
                    ) by {
                    lemma_find_push(prev, out@.last(), k);
                    lemma_find_push(a@.take(i as int), a@[i as int], k);
                    if take_b {
                        lemma_find_push(b@.take(j as int), b@[j as int], k);
                    }
                    if k == a@[i as int].key@ {
                        lemma_find_none_above(prev, k);
                    }
                }
                assert forall|m: int, l: int|
                    0 <= m < out@.len() && i + 1 <= l < a@.len()
                    implies lex_lt((#[trigger] out@[m]).key@, (#[trigger] a@[l]).key@) by {
                    assert(lex_lt(a@[i as int].key@, a@[l].key@));
                }
                assert forall|m: int, l: int|
                    0 <= m < out@.len()
                        && (if take_b { j + 1 } else { j as int }) <= l < b@.len()
                    implies lex_lt((#[trigger] out@[m]).key@, (#[trigger] b@[l]).key@) by {
                    if take_b {
                        assert(lex_lt(b@[j as int].key@, b@[l].key@));
                    } else {
                        if lex_lt(a@[i as int].key@, b@[l].key@) {
                        } else {
                            assert(lex_lt(a@[i as int].key@, b@[j as int].key@));
                            if l > j {
                                lemma_lex_transitive(
                                    a@[i as int].key@,
                                    b@[j as int].key@,
                                    b@[l].key@,
                                );
                            }
                        }
                    }
                }
            }
            i = i + 1;
            if take_b {
                j = j + 1;
            }
        } else {
            out.push(copy_entry(&b[j]));
            proof {
                assert(out@ =~= prev.push(out@.last()));
                lemma_sorted_push_last(prev, out@.last());
                assert(b@.take(j + 1 as int) =~= b@.take(j as int).push(b@[j as int]));
                assert forall|k: Seq<u8>| #[trigger] find(out@, k)
                    == or_else(find(a@.take(i as int), k), find(b@.take(j + 1 as int), k)) by {
                    lemma_find_push(prev, out@.last(), k);
                    lemma_find_push(b@.take(j as int), b@[j as int], k);
                    if k == b@[j as int].key@ {
                        lemma_find_none_above(prev, k);
                    }
                }
                assert forall|m: int, l: int|
                    0 <= m < out@.len() && j + 1 <= l < b@.len()
                    implies lex_lt((#[trigger] out@[m]).key@, (#[trigger] b@[l]).key@) by {
                    assert(lex_lt(b@[j as int].key@, b@[l].key@));
                }
                assert forall|m: int, l: int|
                    0 <= m < out@.len() && i <= l < a@.len()
                    implies lex_lt((#[trigger] out@[m]).key@, (#[trigger] a@[l]).key@) by {
                    if i < a@.len() {
                        assert(lex_lt(b@[j as int].key@, a@[l].key@)) by {
                            assert(lex_lt(b@[j as int].key@, a@[i as int].key@));
                            if l > i {
                                lemma_lex_transitive(
                                    b@[j as int].key@,
                                    a@[i as int].key@,
                                    a@[l].key@,
                                );
                            }
                        }
                    }
                }
            }
            j = j + 1;
        }
    }
    proof {
        assert(a@.take(a@.len() as int) =~= a@);
        assert(b@.take(b@.len() as int) =~= b@);
    }
    out
}

/// A merge in progress: sorted sources are added most recent first,
/// then the merged, duplicate-resolved stream is drained in order.
pub struct MergeContext {
    pub merged: Vec<Entry>,
    pub pos: usize,
}

impl MergeContext {
    /// The merged sequence accumulated so far.
    pub open spec fn contents(self) -> Seq<Entry> {
        self.merged@
    }

    pub open spec fn spec_pos(self) -> int {
        self.pos as int
    }

    pub open spec fn wf(self) -> bool {
        sorted(self.merged@) && self.pos <= self.merged@.len()
    }

    pub fn new() -> (r: MergeContext)
        ensures
            r.wf(),
            r.contents().len() == 0,
            r.spec_pos() == 0,
    {
        MergeContext { merged: Vec::new(), pos: 0 }
    }

    /// Registers one sorted source. Sources added earlier are more
    /// recent: on a duplicate key the entry already merged wins and
    /// the new source's entry is discarded.
    pub fn add(&mut self, source: &Vec<Entry>)
        requires
            old(self).wf(),
            old(self).spec_pos() == 0,
            sorted(source@),
        ensures
            final(self).wf(),
            final(self).spec_pos() == 0,
            final(self).contents().len() <= old(self).contents().len() + source@.len(),
            forall|k: Seq<u8>| #[trigger] find(final(self).contents(), k)
                == or_else(find(old(self).contents(), k), find(source@, k)),
    {
        let merged = merge_prefer_left(&self.merged, source);
        self.merged = merged;
    }

    /// True when the merged stream is exhausted.
    pub fn done(&self) -> (r: bool)
        requires
            self.wf(),
        ensures
            r == (self.spec_pos() == self.contents().len()),
    {
        self.pos >= self.merged.len()
    }

    /// The next entry in globally sorted, duplicate-resolved order;
    /// must not be called once `done` reports true.
    pub fn next(&mut self) -> (e: Entry)
        requires
            old(self).wf(),
            old(self).spec_pos() < old(self).contents().len(),
        ensures
            final(self).wf(),
            final(self).contents() == old(self).contents(),
            final(self).spec_pos() == old(self).spec_pos() + 1,
            e.key@ == old(self).contents()[old(self).spec_pos()].key@,
            e.value@ == old(self).contents()[old(self).spec_pos()].value@,
    {
        let n = self.merged.len();
        let e = copy_entry(&self.merged[self.pos]);
        proof {
            assert(self.pos < n);
        }
        self.pos = self.pos + 1;
        e
    }
}

} // verus!
