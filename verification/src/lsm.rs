//! The tree: levels, buffer and compaction orchestration.
//!
//! Global recency order for a key is: buffer, then level 0 run 0,
//! level 0 run 1, ..., level 1 run 0, ... The first occurrence of a
//! key in this order is authoritative, whether or not its value is
//! the tombstone sentinel. Every read and every merge below is
//! specified against this order.

use vstd::prelude::*;

use crate::buffer::Buffer;
use crate::data::{Entry, find, or_else, sorted, tombstone, tombstone_value, is_tombstone,
    copy_bytes, copy_entry, lemma_find_push, lemma_find_none_above, lemma_sorted_push_last};
use crate::keys::lex_lt;
use crate::level::Level;
use crate::merge::{MergeContext, merge_prefer_left};
use crate::run::{Run, in_range};

verus! {

/// The value of the first run in `runs` that contains `k`, in run
/// order (front = most recent).
pub open spec fn runs_find(runs: Seq<Run>, k: Seq<u8>) -> Option<Seq<u8>>
    decreases runs.len(),
{
    if runs.len() == 0 {
        None
    } else {
        or_else(find(runs[0].contents(), k), runs_find(runs.drop_first(), k))
    }
}

/// All runs of all levels, in global recency order: level index
/// ascending, then run index ascending within a level.
pub open spec fn flat_runs(levels: Seq<Level>) -> Seq<Run>
    decreases levels.len(),
{
    if levels.len() == 0 {
        Seq::<Run>::empty()
    } else {
        levels[0].runs@ + flat_runs(levels.drop_first())
    }
}

pub proof fn lemma_runs_find_concat(a: Seq<Run>, b: Seq<Run>, k: Seq<u8>)
    ensures
        runs_find(a + b, k) == or_else(runs_find(a, k), runs_find(b, k)),
    decreases a.len(),
{
    if a.len() == 0 {
        assert(a + b =~= b);
    } else {
        assert((a + b)[0] == a[0]);
        assert((a + b).drop_first() =~= a.drop_first() + b);
        lemma_runs_find_concat(a.drop_first(), b, k);
    }
}

pub proof fn lemma_runs_find_push(s: Seq<Run>, r: Run, k: Seq<u8>)
    ensures
        runs_find(s.push(r), k) == or_else(runs_find(s, k), find(r.contents(), k)),
{
    assert(s.push(r) =~= s + seq![r]);
    lemma_runs_find_concat(s, seq![r], k);
    assert(seq![r].len() == 1 && seq![r][0] == r);
    assert(seq![r].drop_first() =~= Seq::<Run>::empty());
    assert(runs_find(seq![r].drop_first(), k) is None);
    assert(runs_find(seq![r], k) == or_else(find(r.contents(), k), None::<Seq<u8>>));
}

pub proof fn lemma_flat_split(levels: Seq<Level>, i: int)
    requires
        0 <= i <= levels.len(),
    ensures
        flat_runs(levels) == flat_runs(levels.take(i)) + flat_runs(levels.skip(i)),
    decreases i,
{
    if i == 0 {
        assert(levels.take(0) =~= Seq::<Level>::empty());
        assert(levels.skip(0) =~= levels);
        assert(flat_runs(levels) =~= flat_runs(levels.take(0)) + flat_runs(levels.skip(0)));
    } else {
        let d = levels.drop_first();
        lemma_flat_split(d, i - 1);
        assert(levels.take(i)[0] == levels[0]);
        assert(levels.take(i).drop_first() =~= d.take(i - 1));
        assert(d.skip(i - 1) =~= levels.skip(i));
        assert(flat_runs(levels.take(i)) == levels[0].runs@ + flat_runs(d.take(i - 1)));
        assert(levels[0].runs@ + (flat_runs(d.take(i - 1)) + flat_runs(levels.skip(i)))
            =~= (levels[0].runs@ + flat_runs(d.take(i - 1))) + flat_runs(levels.skip(i)));
    }
}

pub proof fn lemma_flat_skip_unfold(levels: Seq<Level>, i: int)
    requires
        0 <= i < levels.len(),
    ensures
        flat_runs(levels.skip(i)) == levels[i].runs@ + flat_runs(levels.skip(i + 1)),
{
    assert(levels.skip(i)[0] == levels[i]);
    assert(levels.skip(i).drop_first() =~= levels.skip(i + 1));
}

pub proof fn lemma_flat_take_succ(levels: Seq<Level>, i: int)
    requires
        0 <= i < levels.len(),
    ensures
        flat_runs(levels.take(i + 1)) == flat_runs(levels.take(i)) + levels[i].runs@,
{
    let t = levels.take(i + 1);
    lemma_flat_split(t, i);
    assert(t.take(i) =~= levels.take(i));
    assert(t.skip(i) =~= seq![levels[i]]);
    assert(seq![levels[i]].len() == 1 && seq![levels[i]][0] == levels[i]);
    assert(seq![levels[i]].drop_first() =~= Seq::<Level>::empty());
    assert(flat_runs(seq![levels[i]].drop_first()) =~= Seq::<Run>::empty());
    assert(flat_runs(seq![levels[i]])
        =~= levels[i].runs@ + flat_runs(seq![levels[i]].drop_first()));
    assert(levels[i].runs@ + Seq::<Run>::empty() =~= levels[i].runs@);
}

pub proof fn lemma_flat_all_empty(levels: Seq<Level>)
    requires
        forall|i: int| 0 <= i < levels.len() ==> (#[trigger] levels[i]).runs@.len() == 0,
    ensures
        flat_runs(levels) == Seq::<Run>::empty(),
    decreases levels.len(),
{
    if levels.len() > 0 {
        assert(forall|i: int| 0 <= i < levels.drop_first().len()
            ==> #[trigger] levels.drop_first()[i] == levels[i + 1]);
        lemma_flat_all_empty(levels.drop_first());
        assert(levels[0].runs@ + flat_runs(levels.drop_first()) =~= Seq::<Run>::empty());
    }
}

/// True when a compaction started at level `c` must cascade all the
/// way down and merge into the last level: every level from `c` up to
/// (excluding) the last is full.
pub open spec fn cascade_reaches_last(levels: Seq<Level>, c: int) -> bool {
    forall|i: int| c <= i < levels.len() - 1 ==> (#[trigger] levels[i]).spec_full()
}

pub struct LSMTree {
    pub levels: Vec<Level>,
    pub buffer: Buffer,
    pub bf_bits_per_entry: u64,
}

impl LSMTree {
    /// Well-formed: a non-empty level hierarchy, a well-formed buffer
    /// that fits into a level-0 run, well-formed levels, and a
    /// capacity chain that lets any level's full contents merge into
    /// one run of the next level.
    pub open spec fn wf(self) -> bool {
        &&& self.levels@.len() >= 1
        &&& self.buffer.wf()
        &&& forall|i: int| 0 <= i < self.levels@.len() ==> (#[trigger] self.levels@[i]).wf()
        &&& self.buffer.spec_capacity() <= self.levels@[0].max_run_size as int
        &&& forall|i: int| 0 <= i < self.levels@.len() - 1
                ==> (#[trigger] self.levels@[i]).max_runs * self.levels@[i].max_run_size
                    <= self.levels@[i + 1].max_run_size
    }

    /// The authoritative record for `k`: the buffer's entry if the
    /// buffer holds the key, else the first run in global recency
    /// order that holds it. A tombstone here is authoritative too.
    pub open spec fn resolve(self, k: Seq<u8>) -> Option<Seq<u8>> {
        or_else(find(self.buffer.contents(), k), runs_find(flat_runs(self.levels@), k))
    }

    /// The caller-visible value for `k`: the authoritative record,
    /// with a tombstone reported as absence.
    pub open spec fn live(self, k: Seq<u8>) -> Option<Seq<u8>> {
        match self.resolve(k) {
            Some(v) => if v == tombstone() {
                None
            } else {
                Some(v)
            },
            None => None,
        }
    }

    /// Constructs a tree over the given (empty) level hierarchy.
    pub fn new(buffer_capacity: usize, levels: Vec<Level>, bf_bits_per_entry: u64) -> (r: LSMTree)
        requires
            buffer_capacity >= 1,
            levels@.len() >= 1,
            forall|i: int| 0 <= i < levels@.len()
                ==> (#[trigger] levels@[i]).wf() && levels@[i].runs@.len() == 0,
            buffer_capacity as int <= levels@[0].max_run_size as int,
            forall|i: int| 0 <= i < levels@.len() - 1
                ==> (#[trigger] levels@[i]).max_runs * levels@[i].max_run_size
                    <= levels@[i + 1].max_run_size,
        ensures
            r.wf(),
            r.levels@ == levels@,
            r.buffer.contents().len() == 0,
            r.buffer.spec_capacity() == buffer_capacity as int,
            r.bf_bits_per_entry == bf_bits_per_entry,
            forall|k: Seq<u8>| #[trigger] r.resolve(k) is None,
            forall|k: Seq<u8>| #[trigger] r.live(k) is None,
    {
        let buffer = Buffer::new(buffer_capacity);
        let r = LSMTree { levels, buffer, bf_bits_per_entry };
        proof {
            lemma_flat_all_empty(r.levels@);
        }
        r
    }

    /// The run at global recency rank `run_id`: rank 0 is the newest
    /// run of level 0, ranks then walk each level front to back.
    pub fn get_run(&self, run_id: usize) -> (r: Option<&Run>)
        requires
            self.wf(),
        ensures
            match r {
                Some(run) => run_id < flat_runs(self.levels@).len()
                    && *run == flat_runs(self.levels@)[run_id as int],
                None => run_id >= flat_runs(self.levels@).len(),
            },
    {
        let mut index = run_id;
        let mut li: usize = 0;
        while li < self.levels.len()
            invariant
                self.wf(),
                li <= self.levels@.len(),
                index <= run_id,
                flat_runs(self.levels@.take(li as int)).len() == run_id - index,
            decreases self.levels@.len() - li,
        {
            let nruns = self.levels[li].runs.len();
            if index < nruns {
                proof {
                    lemma_flat_split(self.levels@, li as int);
                    lemma_flat_skip_unfold(self.levels@, li as int);
                }
                return Some(&self.levels[li].runs[index]);
            }
            proof {
                lemma_flat_take_succ(self.levels@, li as int);
            }
            index = index - nruns;
            li = li + 1;
        }
        proof {
            assert(self.levels@.take(self.levels@.len() as int) =~= self.levels@);
        }
        None
    }

    /// Point lookup. Consults the buffer first; a hit there, tombstone
    /// included, is authoritative. On a buffer miss the runs are
    /// scanned in strict global recency order and the first run that
    /// holds the key decides. A tombstone is reported as absence.
    pub fn get(&self, key: &Vec<u8>) -> (r: Option<Vec<u8>>)
        requires
            self.wf(),
        ensures
            match r {
                Some(v) => self.live(key@) == Some(v@),
                None => self.live(key@) is None,
            },
    {
        match self.buffer.get(key) {
            Some(v) => {
                if is_tombstone(&v) {
                    None
                } else {
                    Some(v)
                }
            },
            None => {
                let mut li: usize = 0;
                while li < self.levels.len()
                    invariant
                        self.wf(),
                        find(self.buffer.contents(), key@) is None,
                        li <= self.levels@.len(),
                        runs_find(flat_runs(self.levels@.take(li as int)), key@) is None,
                    decreases self.levels@.len() - li,
                {
                    let nruns = self.levels[li].runs.len();
                    let mut ri: usize = 0;
                    while ri < nruns
                        invariant
                            self.wf(),
                            find(self.buffer.contents(), key@) is None,
                            li < self.levels@.len(),
                            nruns == self.levels@[li as int].runs@.len(),
                            ri <= nruns,
                            runs_find(flat_runs(self.levels@.take(li as int)), key@) is None,
                            runs_find(self.levels@[li as int].runs@.take(ri as int), key@)
                                is None,
                        decreases nruns - ri,
                    {
                        let res = self.levels[li].runs[ri].get(key);
                        proof {
                            let runs = self.levels@[li as int].runs@;
                            assert(runs.take(ri + 1 as int)
                                =~= runs.take(ri as int).push(runs[ri as int]));
                            lemma_runs_find_push(runs.take(ri as int), runs[ri as int], key@);
                        }
                        match res {
                            Some(v) => {
                                proof {
                                    let levels = self.levels@;
                                    let runs = levels[li as int].runs@;
                                    assert(runs.take(ri as int) + runs.skip(ri as int) =~= runs);
                                    lemma_runs_find_concat(
                                        runs.take(ri as int),
                                        runs.skip(ri as int),
                                        key@,
                                    );
                                    assert(runs.skip(ri as int)[0] == runs[ri as int]);
                                    assert(runs_find(runs, key@) == Some(v@));
                                    lemma_flat_split(levels, li as int);
                                    lemma_runs_find_concat(
                                        flat_runs(levels.take(li as int)),
                                        flat_runs(levels.skip(li as int)),
                                        key@,
                                    );
                                    lemma_flat_skip_unfold(levels, li as int);
                                    lemma_runs_find_concat(
                                        runs,
                                        flat_runs(levels.skip(li + 1 as int)),
                                        key@,
                                    );
                                    assert(runs_find(flat_runs(levels), key@) == Some(v@));
                                }
                                if is_tombstone(&v) {
                                    return None;
                                } else {
                                    return Some(v);
                                }
                            },
                            None => {
                                ri = ri + 1;
                            },
                        }
                    }
                    proof {
                        let levels = self.levels@;
                        let runs = levels[li as int].runs@;
                        assert(runs.take(nruns as int) =~= runs);
                        lemma_flat_take_succ(levels, li as int);
                        lemma_runs_find_concat(
                            flat_runs(levels.take(li as int)),
                            runs,
                            key@,
                        );
                    }
                    li = li + 1;
                }
                proof {
                    assert(self.levels@.take(self.levels@.len() as int) =~= self.levels@);
                }
                None
            },
        }
    }
}


/// The merge filter of one compaction step: when the destination is
/// the last (oldest) level, tombstones are dropped, because no older
/// copy of their key can lie below; into any other level every entry,
/// tombstones included, is kept.
pub open spec fn keep_value(into_last: bool, m: Option<Seq<u8>>) -> Option<Seq<u8>> {
    match m {
        Some(v) => if into_last && v == tombstone() {
            None
        } else {
            Some(v)
        },
        None => None,
    }
}

/// The effect of one compaction step on run-level resolution, for one
/// key: level `c` is cleared and one run holding the filtered merge of
/// its runs is pushed to the front of level `c + 1`.
proof fn lemma_local_merge_effect(pre: Seq<Level>, post: Seq<Level>, c: int, out: Run, k: Seq<u8>)
    requires
        0 <= c,
        c + 1 < pre.len(),
        post.len() == pre.len(),
        forall|i: int| 0 <= i < pre.len() && i != c && i != c + 1 ==> post[i] == pre[i],
        post[c].runs@.len() == 0,
        post[c + 1].runs@ == seq![out] + pre[c + 1].runs@,
        forall|k2: Seq<u8>| #[trigger] find(out.contents(), k2)
            == keep_value(c + 1 == pre.len() - 1, runs_find(pre[c].runs@, k2)),
    ensures
        c + 1 < pre.len() - 1
            ==> runs_find(flat_runs(post), k) == runs_find(flat_runs(pre), k),
        runs_find(flat_runs(pre), k) != Some(tombstone())
            ==> runs_find(flat_runs(post), k) == runs_find(flat_runs(pre), k),
        (pre[c + 1].runs@.len() == 0 && runs_find(flat_runs(pre), k) == Some(tombstone()))
            ==> (runs_find(flat_runs(post), k) == Some(tombstone())
                || runs_find(flat_runs(post), k) is None),
{
    let la = pre.len();
    let a = flat_runs(pre.take(c));
    let r = pre[c].runs@;
    let n = pre[c + 1].runs@;
    let b = flat_runs(pre.skip(c + 2));
    // decompose the old hierarchy
    lemma_flat_split(pre, c);
    lemma_flat_skip_unfold(pre, c);
    lemma_flat_skip_unfold(pre, c + 1);
    lemma_runs_find_concat(a, flat_runs(pre.skip(c)), k);
    lemma_runs_find_concat(r, flat_runs(pre.skip(c + 1)), k);
    lemma_runs_find_concat(n, b, k);
    assert(runs_find(flat_runs(pre), k)
        == or_else(runs_find(a, k),
            or_else(runs_find(r, k), or_else(runs_find(n, k), runs_find(b, k)))));
    // decompose the new hierarchy
    lemma_flat_split(post, c);
    lemma_flat_skip_unfold(post, c);
    lemma_flat_skip_unfold(post, c + 1);
    assert(post.take(c) =~= pre.take(c));
    assert(post.skip(c + 2) =~= pre.skip(c + 2));
    lemma_runs_find_concat(flat_runs(post.take(c)), flat_runs(post.skip(c)), k);
    assert(post[c].runs@ + flat_runs(post.skip(c + 1)) =~= flat_runs(post.skip(c + 1)));
    lemma_runs_find_concat(seq![out] + n, b, k);
    lemma_runs_find_concat(seq![out], n, k);
    assert(seq![out].len() == 1 && seq![out][0] == out);
    assert(seq![out].drop_first() =~= Seq::<Run>::empty());
    assert(runs_find(seq![out].drop_first(), k) is None);
    assert(runs_find(seq![out], k) == or_else(find(out.contents(), k), None::<Seq<u8>>));
    assert(runs_find(flat_runs(post), k)
        == or_else(runs_find(a, k),
            or_else(find(out.contents(), k), or_else(runs_find(n, k), runs_find(b, k)))));
    // relate the filtered run to the merged sources
    assert(find(out.contents(), k) == keep_value(c + 1 == la - 1, runs_find(r, k)));
    if c + 1 == la - 1 {
        assert(pre.skip(c + 2) =~= Seq::<Level>::empty());
        assert(runs_find(b, k) is None);
    }
}

/// The same effect, stated for every key at once.
proof fn lemma_local_merge_effect_all(pre: Seq<Level>, post: Seq<Level>, c: int, out: Run)
    requires
        0 <= c,
        c + 1 < pre.len(),
        post.len() == pre.len(),
        forall|i: int| 0 <= i < pre.len() && i != c && i != c + 1 ==> post[i] == pre[i],
        post[c].runs@.len() == 0,
        post[c + 1].runs@ == seq![out] + pre[c + 1].runs@,
        forall|k2: Seq<u8>| #[trigger] find(out.contents(), k2)
            == keep_value(c + 1 == pre.len() - 1, runs_find(pre[c].runs@, k2)),
    ensures
        c + 1 < pre.len() - 1
            ==> forall|k: Seq<u8>| #[trigger] runs_find(flat_runs(post), k)
                == runs_find(flat_runs(pre), k),
        forall|k: Seq<u8>| runs_find(flat_runs(pre), k) != Some(tombstone())
            ==> #[trigger] runs_find(flat_runs(post), k) == runs_find(flat_runs(pre), k),
        pre[c + 1].runs@.len() == 0
            ==> forall|k: Seq<u8>| runs_find(flat_runs(pre), k) == Some(tombstone())
                ==> (#[trigger] runs_find(flat_runs(post), k) == Some(tombstone())
                    || runs_find(flat_runs(post), k) is None),
{
    if c + 1 < pre.len() - 1 {
        assert forall|k: Seq<u8>| #[trigger] runs_find(flat_runs(post), k)
            == runs_find(flat_runs(pre), k) by {
            lemma_local_merge_effect(pre, post, c, out, k);
        }
    }
    assert forall|k: Seq<u8>| runs_find(flat_runs(pre), k) != Some(tombstone())
        implies #[trigger] runs_find(flat_runs(post), k) == runs_find(flat_runs(pre), k) by {
        lemma_local_merge_effect(pre, post, c, out, k);
    }
    if pre[c + 1].runs@.len() == 0 {
        assert forall|k: Seq<u8>| runs_find(flat_runs(pre), k) == Some(tombstone())
            implies (#[trigger] runs_find(flat_runs(post), k) == Some(tombstone())
                || runs_find(flat_runs(post), k) is None) by {
            lemma_local_merge_effect(pre, post, c, out, k);
        }
    }
}
impl LSMTree {
    /// Compacts level `current` into level `current + 1`, recursively
    /// making room below first. A call on a level that still has room
    /// is a capacity check and changes nothing. A call on the full
    /// last level cannot move data anywhere: it reports capacity
    /// exhaustion by returning false and changes nothing. Compacting
    /// must not be attempted when every level from `current` down is
    /// full: no room could be made, which is an internal-invariant
    /// violation.
    ///
    /// Design note: dropping a tombstone while merging into a last
    /// level that still holds older runs can expose an older copy of
    /// the tombstone's key from those runs. The preservation clauses
    /// below therefore promise the full visible contents only when
    /// the cascade stops short of the last level or finds it empty;
    /// non-tombstone resolutions are preserved unconditionally.
    #[verifier::loop_isolation(false)]
    #[verifier::rlimit(60)]
    pub fn merge_down(&mut self, current: usize) -> (r: bool)
        requires
            old(self).wf(),
            (current as int) < old(self).levels@.len(),
            !((current as int) < old(self).levels@.len() - 1
                && cascade_reaches_last(old(self).levels@, current as int)
                && old(self).levels@.last().spec_full()),
        ensures
            final(self).wf(),
            final(self).levels@.len() == old(self).levels@.len(),
            final(self).buffer == old(self).buffer,
            final(self).bf_bits_per_entry == old(self).bf_bits_per_entry,
            forall|i: int| 0 <= i < final(self).levels@.len()
                ==> (#[trigger] final(self).levels@[i]).max_runs
                        == old(self).levels@[i].max_runs
                    && final(self).levels@[i].max_run_size
                        == old(self).levels@[i].max_run_size,
            forall|i: int| 0 <= i < current
                ==> #[trigger] final(self).levels@[i] == old(self).levels@[i],
            r == !((current as int) == old(self).levels@.len() - 1
                && old(self).levels@[current as int].spec_full()),
            (!old(self).levels@[current as int].spec_full()
                || (current as int) == old(self).levels@.len() - 1)
                ==> final(self).levels@ == old(self).levels@,
            r ==> !final(self).levels@[current as int].spec_full(),
            (old(self).levels@[current as int].spec_full()
                && (current as int) + 1 < old(self).levels@.len())
                ==> (final(self).levels@[current as int].runs@.len() == 0
                    && final(self).levels@[current as int + 1].runs@.len() >= 1
                    && (forall|k: Seq<u8>|
                        #[trigger] find(
                            final(self).levels@[current as int + 1].runs@[0].contents(), k)
                        == keep_value(
                            current as int + 1 == old(self).levels@.len() - 1,
                            runs_find(old(self).levels@[current as int].runs@, k)))),
            (old(self).levels@[current as int].spec_full()
                && (current as int) + 1 < old(self).levels@.len()
                && !old(self).levels@[current as int + 1].spec_full())
                ==> (final(self).levels@[current as int + 1].runs@.len()
                        == old(self).levels@[current as int + 1].runs@.len() + 1
                    && final(self).levels@[current as int + 1].runs@.skip(1)
                        == old(self).levels@[current as int + 1].runs@
                    && (forall|i: int| 0 <= i < final(self).levels@.len()
                            && i != current as int && i != current as int + 1
                            ==> #[trigger] final(self).levels@[i]
                                == old(self).levels@[i])),
            (old(self).levels@[current as int].spec_full()
                && (current as int) + 1 < old(self).levels@.len()
                && old(self).levels@[current as int + 1].spec_full())
                ==> final(self).levels@[current as int + 1].runs@.len() == 1,
            forall|k: Seq<u8>| old(self).resolve(k) != Some(tombstone())
                ==> #[trigger] final(self).resolve(k) == old(self).resolve(k),
            !cascade_reaches_last(old(self).levels@, current as int)
                ==> forall|k: Seq<u8>|
                    #[trigger] final(self).resolve(k) == old(self).resolve(k),
            old(self).levels@.last().runs@.len() == 0
                ==> forall|k: Seq<u8>| #[trigger] final(self).live(k) == old(self).live(k),
        decreases self.levels@.len() - current,
    {
        let n = self.levels.len();
        let cur_full = self.levels[current].remaining() == 0;
        if !cur_full {
            return true;
        }
        if current == n - 1 {
            // no deeper level can receive the data: capacity exhaustion,
            // non-fatal, reported to the caller
            return false;
        }
        let next = current + 1;
        let ghost pre_levels = self.levels@;
        let ghost recursed = self.levels@[next as int].spec_full();
        if self.levels[next].remaining() == 0 {
            proof {
                // the cascade below `next` cannot be blocked
                assert(!((next as int) < pre_levels.len() - 1
                    && cascade_reaches_last(pre_levels, next as int)
                    && pre_levels.last().spec_full())) by {
                    if (next as int) < pre_levels.len() - 1
                        && cascade_reaches_last(pre_levels, next as int)
                        && pre_levels.last().spec_full() {
                        assert forall|i: int| current as int <= i < pre_levels.len() - 1
                            implies (#[trigger] pre_levels[i]).spec_full() by {
                            if i > current as int {
                                assert(pre_levels[i].spec_full());
                            }
                        }
                    }
                }
                // `next` cannot be the full last level
                if next == n - 1 {
                    assert(cascade_reaches_last(pre_levels, current as int));
                }
            }
            self.merge_down(next);
        }
        let ghost mid = *self;
        proof {
            assert(!mid.levels@[next as int].spec_full());
            assert(mid.levels@[current as int] == old(self).levels@[current as int]);
        }

        // feed every run of the current level, front (most recent) first
        let mut ctx = MergeContext::new();
        let ghost cur_runs = self.levels@[current as int].runs@;
        let cur_mrs = self.levels[current].max_run_size;
        let nruns = self.levels[current].runs.len();
        let mut ri: usize = 0;
        while ri < nruns
            invariant
                ctx.wf(),
                ctx.spec_pos() == 0,
                ri <= nruns,
                ctx.contents().len() <= ri * cur_mrs,
                forall|k: Seq<u8>| #[trigger] find(ctx.contents(), k)
                    == runs_find(cur_runs.take(ri as int), k),
            decreases nruns - ri,
        {
            let ghost prev = ctx.contents();
            ctx.add(self.levels[current].runs[ri].data());
            proof {
                assert(cur_runs.take(ri + 1 as int)
                    =~= cur_runs.take(ri as int).push(cur_runs[ri as int]));
                assert forall|k: Seq<u8>| #[trigger] find(ctx.contents(), k)
                    == runs_find(cur_runs.take(ri + 1 as int), k) by {
                    lemma_runs_find_push(cur_runs.take(ri as int), cur_runs[ri as int], k);
                }
                assert((ri + 1) * cur_mrs == ri * cur_mrs + cur_mrs) by (nonlinear_arith);
            }
            ri = ri + 1;
        }
        let ghost merged = ctx.contents();
        proof {
            assert(cur_runs.take(nruns as int) =~= cur_runs);
            assert(nruns == mid.levels@[current as int].max_runs);
            assert(nruns * cur_mrs
                <= mid.levels@[next as int].max_run_size as int);
        }

        // drain the merge into one fresh run sized for the next level
        let next_mrs = self.levels[next].max_run_size;
        let into_last = next == n - 1;
        let mut out_run = Run::new(next_mrs, self.bf_bits_per_entry);
        while !ctx.done()
            invariant
                ctx.wf(),
                ctx.contents() == merged,
                merged.len() <= next_mrs as int,
                out_run.wf(),
                out_run.spec_capacity() == next_mrs as int,
                out_run.contents().len() <= ctx.spec_pos(),
                forall|k: Seq<u8>| #[trigger] find(out_run.contents(), k)
                    == keep_value(into_last, find(merged.take(ctx.spec_pos()), k)),
                forall|m: int, l: int|
                    0 <= m < out_run.contents().len() && ctx.spec_pos() <= l < merged.len()
                    ==> lex_lt((#[trigger] out_run.contents()[m]).key@,
                        (#[trigger] merged[l]).key@),
            decreases merged.len() - ctx.spec_pos(),
        {
            let ghost pos = ctx.spec_pos();
            let ghost prev_out = out_run.contents();
            let e = ctx.next();
            proof {
                assert(merged.take(pos + 1) =~= merged.take(pos).push(merged[pos]));
                assert forall|m: int| 0 <= m < merged.take(pos).len()
                    implies lex_lt((#[trigger] merged.take(pos)[m]).key@, merged[pos].key@) by {
                    assert(lex_lt(merged[m].key@, merged[pos].key@));
                }
                lemma_find_none_above(merged.take(pos), merged[pos].key@);
                lemma_find_none_above(prev_out, merged[pos].key@);
            }
            if !(into_last && is_tombstone(&e.value)) {
                out_run.put(&e.key, &e.value);
            }
            proof {
                assert forall|k: Seq<u8>| #[trigger] find(out_run.contents(), k)
                    == keep_value(into_last, find(merged.take(pos + 1), k)) by {
                    lemma_find_push(merged.take(pos), merged[pos], k);
                }
                assert forall|m: int, l: int|
                    0 <= m < out_run.contents().len() && pos + 1 <= l < merged.len()
                    implies lex_lt((#[trigger] out_run.contents()[m]).key@,
                        (#[trigger] merged[l]).key@) by {
                    if m < prev_out.len() {
                        assert(lex_lt(prev_out[m].key@, merged[l].key@));
                    } else {
                        assert(out_run.contents()[m].key@ == merged[pos].key@);
                        assert(lex_lt(merged[pos].key@, merged[l].key@));
                    }
                }
            }
        }
        proof {
            assert(merged.take(merged.len() as int) =~= merged);
            assert forall|k2: Seq<u8>| #[trigger] find(out_run.contents(), k2)
                == keep_value(into_last, runs_find(cur_runs, k2)) by {
            }
        }

        // install the merged run at the front of the next level, then
        // discard the source level's runs
        let ghost out_ghost = out_run;
        let mut lvl_next = self.levels.remove(next);
        lvl_next.runs.push_front(out_run);
        self.levels.insert(next, lvl_next);
        let mut lvl_cur = self.levels.remove(current);
        lvl_cur.runs.clear();
        self.levels.insert(current, lvl_cur);

        proof {
            let post = self.levels@;
            assert(post.len() == mid.levels@.len());
            assert forall|i: int| 0 <= i < post.len() && i != current as int && i != next as int
                implies post[i] == mid.levels@[i] by {
            }
            assert(post[current as int].runs@.len() == 0);
            assert(post[next as int].runs@ == seq![out_ghost] + mid.levels@[next as int].runs@);

            // well-formedness of the new hierarchy
            assert forall|i: int| 0 <= i < post.len() implies (#[trigger] post[i]).wf() by {
                if i == next as int {
                    assert forall|j: int| 0 <= j < post[i].runs@.len()
                        implies (#[trigger] post[i].runs@[j]).wf()
                            && post[i].runs@[j].spec_capacity()
                                == post[i].max_run_size as int by {
                        if j > 0 {
                            assert(post[i].runs@[j] == mid.levels@[i].runs@[j - 1]);
                        }
                    }
                } else if i == current as int {
                } else {
                    assert(post[i] == mid.levels@[i]);
                }
            }

            // the merged run stands at the front of the target level;
            // the recursion below, if it ran, left the source untouched
            assert(post[next as int].runs@[0] == out_ghost);
            assert(cur_runs == old(self).levels@[current as int].runs@);
            if !old(self).levels@[next as int].spec_full() {
                assert(mid == *old(self));
            } else {
                assert(mid.levels@[next as int].runs@.len() == 0);
                assert(post[next as int].runs@.len() == 1);
            }

            // run-level resolution facts of the local merge step
            lemma_local_merge_effect_all(mid.levels@, post, current as int, out_ghost);

            let pre_flat = flat_runs(mid.levels@);
            let post_flat = flat_runs(post);
            let old_flat = flat_runs(old(self).levels@);
            assert(self.buffer == old(self).buffer);

            // if the recursion ran, `next` was merged away below; either
            // way the local step's source had no deeper-full blockage
            if recursed {
                assert((next as int) < mid.levels@.len() - 1);
            }

            // preservation of non-tombstone resolutions
            assert forall|k: Seq<u8>| old(self).resolve(k) != Some(tombstone())
                implies #[trigger] self.resolve(k) == old(self).resolve(k) by {
                assert(mid.resolve(k) == old(self).resolve(k));
                if find(self.buffer.contents(), k) is None {
                    assert(mid.resolve(k) == runs_find(pre_flat, k));
                    assert(runs_find(pre_flat, k) != Some(tombstone()));
                    assert(runs_find(post_flat, k) == runs_find(pre_flat, k));
                }
            }

            // exact preservation when the cascade stops short of the
            // last level
            if !cascade_reaches_last(old(self).levels@, current as int) {
                assert(old(self).levels@[current as int].spec_full());
                if next == n - 1 {
                    assert(cascade_reaches_last(old(self).levels@, current as int)) by {
                        assert forall|i: int|
                            current as int <= i < old(self).levels@.len() - 1
                            implies (#[trigger] old(self).levels@[i]).spec_full() by {
                            assert(i == current as int);
                        }
                    }
                }
                assert((next as int) < mid.levels@.len() - 1);
                if recursed {
                    assert(!cascade_reaches_last(old(self).levels@, next as int)) by {
                        if cascade_reaches_last(old(self).levels@, next as int) {
                            assert forall|i: int|
                                current as int <= i < old(self).levels@.len() - 1
                                implies (#[trigger] old(self).levels@[i]).spec_full() by {
                                if i > current as int {
                                    assert(old(self).levels@[i].spec_full());
                                }
                            }
                        }
                    }
                }
                assert forall|k: Seq<u8>| #[trigger] self.resolve(k) == old(self).resolve(k) by {
                    assert(mid.resolve(k) == old(self).resolve(k));
                    assert(runs_find(post_flat, k) == runs_find(pre_flat, k));
                }
            }

            // when the last level held no runs, the visible contents
            // are preserved even if tombstones were dropped into it
            if old(self).levels@.last().runs@.len() == 0 {
                assert forall|k: Seq<u8>| #[trigger] self.live(k) == old(self).live(k) by {
                    assert(mid.live(k) == old(self).live(k));
                    if (next as int) < mid.levels@.len() - 1 {
                        assert(runs_find(post_flat, k) == runs_find(pre_flat, k));
                        assert(self.resolve(k) == mid.resolve(k));
                    } else {
                        assert(!recursed);
                        assert(mid.levels@ == old(self).levels@);
                        assert(mid.levels@[next as int].runs@.len() == 0);
                        if find(self.buffer.contents(), k) is Some {
                        } else if runs_find(pre_flat, k) == Some(tombstone()) {
                            assert(runs_find(post_flat, k) == Some(tombstone())
                                || runs_find(post_flat, k) is None);
                        } else {
                            assert(runs_find(post_flat, k) == runs_find(pre_flat, k));
                        }
                    }
                }
            }
        }
        true
    }
}


impl LSMTree {
    /// Inserts or overwrites `entry.key` with `entry.value`. When the
    /// buffer is full it is first flushed into a fresh run at the
    /// front of level 0, compacting level 0 away first if level 0 has
    /// no room; the flush must not be attempted on a tree whose every
    /// level is full.
    #[verifier::loop_isolation(false)]
    #[verifier::rlimit(60)]
    pub fn put(&mut self, entry: Entry) -> (r: bool)
        requires
            old(self).wf(),
            old(self).buffer.spec_full() ==> exists|i: int|
                0 <= i < old(self).levels@.len()
                    && !(#[trigger] old(self).levels@[i]).spec_full(),
        ensures
            r,
            final(self).wf(),
            final(self).levels@.len() == old(self).levels@.len(),
            forall|i: int| 0 <= i < final(self).levels@.len()
                ==> (#[trigger] final(self).levels@[i]).max_runs
                        == old(self).levels@[i].max_runs
                    && final(self).levels@[i].max_run_size
                        == old(self).levels@[i].max_run_size,
            final(self).resolve(entry.key@) == Some(entry.value@),
            final(self).live(entry.key@) == (if entry.value@ == tombstone() {
                None::<Seq<u8>>
            } else {
                Some(entry.value@)
            }),
            forall|k: Seq<u8>| k != entry.key@ && old(self).resolve(k) != Some(tombstone())
                ==> #[trigger] final(self).resolve(k) == old(self).resolve(k),
            !old(self).buffer.spec_full()
                ==> final(self).levels@ == old(self).levels@
                    && (forall|k: Seq<u8>| k != entry.key@
                        ==> #[trigger] final(self).resolve(k) == old(self).resolve(k)),
            (!old(self).buffer.spec_full()
                || !old(self).levels@[0].spec_full()
                || !cascade_reaches_last(old(self).levels@, 0)
                || old(self).levels@.last().runs@.len() == 0)
                ==> forall|k: Seq<u8>| k != entry.key@
                    ==> #[trigger] final(self).live(k) == old(self).live(k),
            final(self).buffer.spec_capacity() == old(self).buffer.spec_capacity(),
            !old(self).buffer.spec_full()
                ==> (forall|k: Seq<u8>| #[trigger] find(final(self).buffer.contents(), k)
                        == (if k == entry.key@ {
                            Some(entry.value@)
                        } else {
                            find(old(self).buffer.contents(), k)
                        }))
                    && final(self).buffer.contents().len()
                        == old(self).buffer.contents().len()
                            + (if find(old(self).buffer.contents(), entry.key@) is Some {
                                0int
                            } else {
                                1int
                            }),
            old(self).buffer.spec_full()
                ==> final(self).buffer.contents().len() == 1
                    && (forall|k: Seq<u8>| #[trigger] find(final(self).buffer.contents(), k)
                        == (if k == entry.key@ {
                            Some(entry.value@)
                        } else {
                            None::<Seq<u8>>
                        }))
                    && final(self).levels@[0].runs@.len() >= 1
                    && final(self).levels@[0].runs@[0].contents().len()
                        == old(self).buffer.contents().len()
                    && (forall|j: int| 0 <= j < old(self).buffer.contents().len()
                        ==> (#[trigger] final(self).levels@[0].runs@[0].contents()[j]).key@
                                == old(self).buffer.contents()[j].key@
                            && final(self).levels@[0].runs@[0].contents()[j].value@
                                == old(self).buffer.contents()[j].value@)
                    && (forall|k: Seq<u8>|
                        #[trigger] find(final(self).levels@[0].runs@[0].contents(), k)
                            == find(old(self).buffer.contents(), k)),
            (old(self).buffer.spec_full() && !old(self).levels@[0].spec_full())
                ==> final(self).levels@[0].runs@.len()
                        == old(self).levels@[0].runs@.len() + 1
                    && final(self).levels@[0].runs@.skip(1) == old(self).levels@[0].runs@
                    && (forall|i: int| 1 <= i < final(self).levels@.len()
                        ==> #[trigger] final(self).levels@[i] == old(self).levels@[i]),
            (old(self).buffer.spec_full() && old(self).levels@[0].spec_full())
                ==> final(self).levels@[0].runs@.len() == 1
                    && ((old(self).levels@.len() > 1
                            && !old(self).levels@[1].spec_full())
                        ==> final(self).levels@[1].runs@.len()
                                == old(self).levels@[1].runs@.len() + 1
                            && final(self).levels@[1].runs@.skip(1)
                                == old(self).levels@[1].runs@
                            && (forall|k: Seq<u8>| #[trigger] find(
                                    final(self).levels@[1].runs@[0].contents(), k)
                                == keep_value(1 == old(self).levels@.len() - 1,
                                    runs_find(old(self).levels@[0].runs@, k)))
                            && (forall|i: int| 2 <= i < final(self).levels@.len()
                                ==> #[trigger] final(self).levels@[i]
                                    == old(self).levels@[i])),
    {
        if !self.buffer.full() {
            self.buffer.put(entry.key, entry.value);
            return true;
        }

        // the buffer is full: make room at level 0 if needed
        let ghost pre = *self;
        let n = self.levels.len();
        if self.levels[0].remaining() == 0 {
            proof {
                let i = choose|i: int| 0 <= i < pre.levels@.len()
                    && !(#[trigger] pre.levels@[i]).spec_full();
                assert(n > 1);
                if cascade_reaches_last(pre.levels@, 0) && pre.levels@.last().spec_full() {
                    assert(!pre.levels@[i].spec_full());
                    if i < pre.levels@.len() - 1 {
                        assert(pre.levels@[i].spec_full());
                    }
                }
            }
            self.merge_down(0);
        }
        let ghost mid = *self;
        proof {
            assert(!mid.levels@[0].spec_full());
            assert(mid.buffer == pre.buffer);
        }

        // copy the buffer, in its own sorted order, into a fresh run
        // sized for level 0
        let l0_mrs = self.levels[0].max_run_size;
        let mut new_run = Run::new(l0_mrs, self.bf_bits_per_entry);
        let drained = self.buffer.drain();
        let nd = drained.len();
        let mut i: usize = 0;
        while i < nd
            invariant
                new_run.wf(),
                new_run.spec_capacity() == l0_mrs as int,
                i <= nd,
                new_run.contents().len() == i as int,
                forall|k: Seq<u8>| #[trigger] find(new_run.contents(), k)
                    == find(drained@.take(i as int), k),
                forall|j: int| 0 <= j < i
                    ==> (#[trigger] new_run.contents()[j]).key@ == drained@[j].key@
                        && new_run.contents()[j].value@ == drained@[j].value@,
                forall|m: int, l: int|
                    0 <= m < new_run.contents().len() && i <= l < nd
                    ==> lex_lt((#[trigger] new_run.contents()[m]).key@,
                        (#[trigger] drained@[l]).key@),
            decreases nd - i,
        {
            proof {
                assert(drained@.take(i + 1 as int)
                    =~= drained@.take(i as int).push(drained@[i as int]));
                assert forall|m: int| 0 <= m < drained@.take(i as int).len()
                    implies lex_lt((#[trigger] drained@.take(i as int)[m]).key@,
                        drained@[i as int].key@) by {
                    assert(lex_lt(drained@[m].key@, drained@[i as int].key@));
                }
                lemma_find_none_above(drained@.take(i as int), drained@[i as int].key@);
            }
            let ghost prev = new_run.contents();
            new_run.put(&drained[i].key, &drained[i].value);
            proof {
                assert forall|k: Seq<u8>| #[trigger] find(new_run.contents(), k)
                    == find(drained@.take(i + 1 as int), k) by {
                    lemma_find_push(drained@.take(i as int), drained@[i as int], k);
                }
            }
            i = i + 1;
        }
        proof {
            assert(drained@.take(nd as int) =~= drained@);
        }

        // push the new run to the most-recent position of level 0,
        // then absorb the pending write into the now-empty buffer
        let ghost run_ghost = new_run;
        let mut l0 = self.levels.remove(0);
        l0.runs.push_front(new_run);
        self.levels.insert(0, l0);
        proof {
            let post = self.levels@;
            assert(post.len() == mid.levels@.len());
            assert forall|j: int| 1 <= j < post.len()
                implies post[j] == mid.levels@[j] by {
            }
            assert(post[0].runs@ == seq![run_ghost] + mid.levels@[0].runs@);
            assert forall|j: int| 0 <= j < post.len() implies (#[trigger] post[j]).wf() by {
                if j == 0 {
                    assert forall|l: int| 0 <= l < post[0].runs@.len()
                        implies (#[trigger] post[0].runs@[l]).wf()
                            && post[0].runs@[l].spec_capacity()
                                == post[0].max_run_size as int by {
                        if l > 0 {
                            assert(post[0].runs@[l] == mid.levels@[0].runs@[l - 1]);
                        }
                    }
                } else {
                    assert(post[j] == mid.levels@[j]);
                }
            }
            // flushing is a pure restructuring: the buffer's entries
            // become the most recent run, so resolution is unchanged
            assert(post.drop_first() =~= mid.levels@.drop_first());
            assert(flat_runs(post)
                == (seq![run_ghost] + mid.levels@[0].runs@) + flat_runs(post.drop_first()));
            assert((seq![run_ghost] + mid.levels@[0].runs@) + flat_runs(mid.levels@.drop_first())
                =~= seq![run_ghost]
                    + (mid.levels@[0].runs@ + flat_runs(mid.levels@.drop_first())));
            assert(flat_runs(post) == seq![run_ghost] + flat_runs(mid.levels@));
            assert forall|k: Seq<u8>| #[trigger] runs_find(flat_runs(post), k)
                == or_else(find(mid.buffer.contents(), k),
                    runs_find(flat_runs(mid.levels@), k)) by {
                lemma_runs_find_concat(seq![run_ghost], flat_runs(mid.levels@), k);
                assert(seq![run_ghost].len() == 1 && seq![run_ghost][0] == run_ghost);
                assert(seq![run_ghost].drop_first() =~= Seq::<Run>::empty());
                assert(runs_find(seq![run_ghost].drop_first(), k) is None);
                assert(runs_find(seq![run_ghost], k)
                    == or_else(find(run_ghost.contents(), k), None::<Seq<u8>>));
            }
        }
        let ghost flushed = *self;
        self.buffer.put(entry.key, entry.value);
        proof {
            assert(self.levels@ == flushed.levels@);
            assert forall|k: Seq<u8>| k != entry.key@
                implies #[trigger] self.resolve(k) == mid.resolve(k) by {
                assert(find(self.buffer.contents(), k) == find(flushed.buffer.contents(), k));
                assert(find(flushed.buffer.contents(), k) is None);
            }
            assert(self.resolve(entry.key@) == Some(entry.value@));
            // compose with the compaction's preservation facts
            assert forall|k: Seq<u8>| k != entry.key@
                && pre.resolve(k) != Some(tombstone())
                implies #[trigger] self.resolve(k) == pre.resolve(k) by {
                assert(mid.resolve(k) == pre.resolve(k));
            }
            if !pre.levels@[0].spec_full()
                || !cascade_reaches_last(pre.levels@, 0)
                || pre.levels@.last().runs@.len() == 0 {
                assert forall|k: Seq<u8>| k != entry.key@
                    implies #[trigger] self.live(k) == pre.live(k) by {
                    if !pre.levels@[0].spec_full() {
                        assert(mid == pre);
                    } else if !cascade_reaches_last(pre.levels@, 0) {
                        assert(mid.resolve(k) == pre.resolve(k));
                    } else {
                        assert(mid.live(k) == pre.live(k));
                    }
                    assert(self.resolve(k) == mid.resolve(k));
                }
            }

            // structural description of the flush
            assert(pre == *old(self));
            assert(self.levels@[0].runs@ == seq![run_ghost] + mid.levels@[0].runs@);
            assert(self.levels@[0].runs@[0] == run_ghost);
            assert(self.buffer.contents().len() == 1) by {
                assert(flushed.buffer.contents().len() == 0);
                assert(find(flushed.buffer.contents(), entry.key@) is None);
            }
            assert(run_ghost.contents().len() == pre.buffer.contents().len());
            assert forall|j: int| 0 <= j < pre.buffer.contents().len()
                implies (#[trigger] self.levels@[0].runs@[0].contents()[j]).key@
                        == pre.buffer.contents()[j].key@
                    && self.levels@[0].runs@[0].contents()[j].value@
                        == pre.buffer.contents()[j].value@ by {
                assert(run_ghost.contents()[j].key@ == drained@[j].key@
                    && run_ghost.contents()[j].value@ == drained@[j].value@);
                assert(drained@[j].key@ == pre.buffer.contents()[j].key@
                    && drained@[j].value@ == pre.buffer.contents()[j].value@);
            }
            assert forall|k: Seq<u8>|
                #[trigger] find(self.levels@[0].runs@[0].contents(), k)
                    == find(pre.buffer.contents(), k) by {
                assert(find(run_ghost.contents(), k) == find(drained@, k));
            }
            if !pre.levels@[0].spec_full() {
                assert(mid == pre);
                assert(self.levels@[0].runs@.len() == pre.levels@[0].runs@.len() + 1);
                assert(self.levels@[0].runs@.skip(1) =~= pre.levels@[0].runs@);
                assert forall|i: int| 1 <= i < self.levels@.len()
                    implies #[trigger] self.levels@[i] == pre.levels@[i] by {
                    assert(self.levels@[i] == mid.levels@[i]);
                }
            } else {
                assert(mid.levels@[0].runs@.len() == 0);
                assert(self.levels@[0].runs@.len() == 1);
                if pre.levels@.len() > 1 && !pre.levels@[1].spec_full() {
                    assert(self.levels@[1] == mid.levels@[1]);
                    assert(mid.levels@[1].runs@.len() == pre.levels@[1].runs@.len() + 1);
                    assert(mid.levels@[1].runs@.skip(1) == pre.levels@[1].runs@);
                    assert forall|i: int| 2 <= i < self.levels@.len()
                        implies #[trigger] self.levels@[i] == pre.levels@[i] by {
                        assert(mid.levels@[i] == pre.levels@[i]);
                        assert(self.levels@[i] == mid.levels@[i]);
                    }
                }
            }
        }
        true
    }

    /// Logical deletion: writes the tombstone sentinel under `key`.
    /// Nothing is removed synchronously; physical removal happens only
    /// when a later compaction reaches the deepest level.
    pub fn del(&mut self, key: Vec<u8>)
        requires
            old(self).wf(),
            old(self).buffer.spec_full() ==> exists|i: int|
                0 <= i < old(self).levels@.len()
                    && !(#[trigger] old(self).levels@[i]).spec_full(),
        ensures
            final(self).wf(),
            final(self).levels@.len() == old(self).levels@.len(),
            final(self).resolve(key@) == Some(tombstone()),
            final(self).live(key@) is None,
            forall|k: Seq<u8>| k != key@ && old(self).resolve(k) != Some(tombstone())
                ==> #[trigger] final(self).resolve(k) == old(self).resolve(k),
            (!old(self).buffer.spec_full()
                || !old(self).levels@[0].spec_full()
                || !cascade_reaches_last(old(self).levels@, 0)
                || old(self).levels@.last().runs@.len() == 0)
                ==> forall|k: Seq<u8>| k != key@
                    ==> #[trigger] final(self).live(k) == old(self).live(k),
    {
        let entry = Entry { key, value: tombstone_value() };
        self.put(entry);
    }

    /// All candidate entries for keys in `[start, end)`, resolved by
    /// recency across the buffer and every run, with tombstoned keys
    /// removed: exactly the visible records of the interval, in
    /// ascending key order.
    #[verifier::loop_isolation(false)]
    #[verifier::rlimit(60)]
    pub fn range_entries(&self, start: &Vec<u8>, end: &Vec<u8>) -> (r: Vec<Entry>)
        requires
            self.wf(),
        ensures
            sorted(r@),
            forall|k: Seq<u8>| #[trigger] find(r@, k) == (if in_range(start@, k, end@) {
                self.live(k)
            } else {
                None::<Seq<u8>>
            }),
    {
        // gather candidates: the buffer is the newest source, then the
        // runs in global recency order; recency resolution is exactly
        // the merge engine's first-wins rule
        let mut acc: Vec<Entry> = self.buffer.range(start, end);
        let mut li: usize = 0;
        while li < self.levels.len()
            invariant
                sorted(acc@),
                li <= self.levels@.len(),
                forall|k: Seq<u8>| #[trigger] find(acc@, k) == (if in_range(start@, k, end@) {
                    or_else(find(self.buffer.contents(), k),
                        runs_find(flat_runs(self.levels@.take(li as int)), k))
                } else {
                    None::<Seq<u8>>
                }),
            decreases self.levels@.len() - li,
        {
            let nruns = self.levels[li].runs.len();
            let ghost runs = self.levels@[li as int].runs@;
            let mut ri: usize = 0;
            while ri < nruns
                invariant
                    sorted(acc@),
                    li < self.levels@.len(),
                    runs == self.levels@[li as int].runs@,
                    nruns == runs.len(),
                    ri <= nruns,
                    forall|k: Seq<u8>| #[trigger] find(acc@, k)
                        == (if in_range(start@, k, end@) {
                            or_else(find(self.buffer.contents(), k),
                                or_else(
                                    runs_find(flat_runs(self.levels@.take(li as int)), k),
                                    runs_find(runs.take(ri as int), k),
                                ))
                        } else {
                            None::<Seq<u8>>
                        }),
                decreases nruns - ri,
            {
                let cand = self.levels[li].runs[ri].range(start, end);
                let merged = merge_prefer_left(&acc, &cand);
                acc = merged;
                proof {
                    assert(runs.take(ri + 1 as int)
                        =~= runs.take(ri as int).push(runs[ri as int]));
                    assert forall|k: Seq<u8>| #[trigger] find(acc@, k)
                        == (if in_range(start@, k, end@) {
                            or_else(find(self.buffer.contents(), k),
                                or_else(
                                    runs_find(flat_runs(self.levels@.take(li as int)), k),
                                    runs_find(runs.take(ri + 1 as int), k),
                                ))
                        } else {
                            None::<Seq<u8>>
                        }) by {
                        lemma_runs_find_push(runs.take(ri as int), runs[ri as int], k);
                    }
                }
                ri = ri + 1;
            }
            proof {
                assert(runs.take(nruns as int) =~= runs);
                assert forall|k: Seq<u8>| #[trigger] find(acc@, k)
                    == (if in_range(start@, k, end@) {
                        or_else(find(self.buffer.contents(), k),
                            runs_find(flat_runs(self.levels@.take(li + 1 as int)), k))
                    } else {
                        None::<Seq<u8>>
                    }) by {
                    lemma_flat_take_succ(self.levels@, li as int);
                    lemma_runs_find_concat(
                        flat_runs(self.levels@.take(li as int)), runs, k);
                }
            }
            li = li + 1;
        }
        proof {
            assert(self.levels@.take(self.levels@.len() as int) =~= self.levels@);
        }

        // drop resolved tombstones: they mark deletion and must never
        // be surfaced
        let na = acc.len();
        let mut out: Vec<Entry> = Vec::new();
        let mut i: usize = 0;
        while i < na
            invariant
                na == acc@.len(),
                sorted(acc@),
                i <= na,
                sorted(out@),
                forall|k: Seq<u8>| #[trigger] find(out@, k)
                    == keep_value(true, find(acc@.take(i as int), k)),
                forall|m: int, l: int| 0 <= m < out@.len() && i <= l < na
                    ==> lex_lt((#[trigger] out@[m]).key@, (#[trigger] acc@[l]).key@),
            decreases na - i,
        {
            let ghost prev = out@;
            proof {
                assert(acc@.take(i + 1 as int)
                    =~= acc@.take(i as int).push(acc@[i as int]));
                assert forall|m: int| 0 <= m < acc@.take(i as int).len()
                    implies lex_lt((#[trigger] acc@.take(i as int)[m]).key@,
                        acc@[i as int].key@) by {
                    assert(lex_lt(acc@[m].key@, acc@[i as int].key@));
                }
                lemma_find_none_above(acc@.take(i as int), acc@[i as int].key@);
                lemma_find_none_above(prev, acc@[i as int].key@);
            }
            if !is_tombstone(&acc[i].value) {
                out.push(copy_entry(&acc[i]));
                proof {
                    assert(out@ =~= prev.push(out@.last()));
                    lemma_sorted_push_last(prev, out@.last());
                }
            }
            proof {
                assert forall|k: Seq<u8>| #[trigger] find(out@, k)
                    == keep_value(true, find(acc@.take(i + 1 as int), k)) by {
                    lemma_find_push(acc@.take(i as int), acc@[i as int], k);
                    if out@.len() == prev.len() + 1 {
                        lemma_find_push(prev, out@.last(), k);
                    }
                }
                assert forall|m: int, l: int|
                    0 <= m < out@.len() && i + 1 <= l < na
                    implies lex_lt((#[trigger] out@[m]).key@, (#[trigger] acc@[l]).key@) by {
                    if m < prev.len() {
                        assert(lex_lt(prev[m].key@, acc@[l].key@));
                    } else {
                        assert(out@[m].key@ == acc@[i as int].key@);
                        assert(lex_lt(acc@[i as int].key@, acc@[l].key@));
                    }
                }
            }
            i = i + 1;
        }
        proof {
            assert(acc@.take(na as int) =~= acc@);
        }
        out
    }

    /// All live values for keys in `[start, end)`, newest-wins per
    /// key, tombstoned keys excluded, ordered by their keys.
    pub fn range(&self, start: &Vec<u8>, end: &Vec<u8>) -> (r: Vec<Vec<u8>>)
        requires
            self.wf(),
        ensures
            exists|es: Seq<Entry>|
                #![trigger sorted(es)]
                {
                    &&& sorted(es)
                    &&& forall|k: Seq<u8>| #[trigger] find(es, k)
                        == (if in_range(start@, k, end@) {
                            self.live(k)
                        } else {
                            None::<Seq<u8>>
                        })
                    &&& r@.len() == es.len()
                    &&& forall|i: int| 0 <= i < es.len()
                        ==> (#[trigger] r@[i])@ == es[i].value@
                },
    {
        let entries = self.range_entries(start, end);
        let mut out: Vec<Vec<u8>> = Vec::new();
        let mut i: usize = 0;
        while i < entries.len()
            invariant
                i <= entries@.len(),
                out@.len() == i as int,
                forall|j: int| 0 <= j < i ==> (#[trigger] out@[j])@ == entries@[j].value@,
            decreases entries.len() - i,
        {
            out.push(copy_bytes(&entries[i].value));
            i = i + 1;
        }
        proof {
            assert(sorted(entries@));
        }
        out
    }
}

} // verus!
