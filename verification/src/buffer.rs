//! The buffer: the engine's only mutable store, absorbing writes before
//! they are flushed to a level-0 run. A key present here shadows the
//! same key in every run, because the buffer is strictly newer than
//! every run.

use vstd::prelude::*;

use crate::data::{Entry, find, find_entry, copy_bytes, copy_entry, sorted,
    lemma_find_push, lemma_find_absent, lemma_find_first_match, lemma_sorted_push_last,
    lemma_find_congruent};
use crate::keys::{lex_lt, key_cmp, KeyOrder, lemma_lex_transitive, lemma_lex_asymmetric};
use crate::run::{in_range, range_of_sorted};

verus! {

pub struct Buffer {
    pub entries: Vec<Entry>,
    pub capacity: usize,
}

impl Buffer {
    pub open spec fn contents(self) -> Seq<Entry> {
        self.entries@
    }

    pub open spec fn spec_capacity(self) -> int {
        self.capacity as int
    }

    /// Well-formed: strictly sorted by key, bounded, and able to hold
    /// at least one entry.
    pub open spec fn wf(self) -> bool {
        sorted(self.entries@)
        && self.entries@.len() <= self.capacity
        && self.capacity >= 1
    }

    pub open spec fn spec_full(self) -> bool {
        self.entries@.len() >= self.capacity
    }

    pub fn new(capacity: usize) -> (r: Buffer)
        requires
            capacity >= 1,
        ensures
            r.wf(),
            r.contents().len() == 0,
            r.spec_capacity() == capacity as int,
    {
        Buffer { entries: Vec::new(), capacity }
    }

    /// True when no further key can be inserted.
    pub fn full(&self) -> (r: bool)
        ensures
            r == self.spec_full(),
    {
        self.entries.len() >= self.capacity
    }

    /// Point lookup.
    pub fn get(&self, key: &Vec<u8>) -> (r: Option<Vec<u8>>)
        ensures
            match r {
                Some(v) => find(self.contents(), key@) == Some(v@),
                None => find(self.contents(), key@) is None,
            },
    {
        find_entry(&self.entries, key)
    }

    /// All buffered entries with keys in `[start, end)`, ascending.
    pub fn range(&self, start: &Vec<u8>, end: &Vec<u8>) -> (r: Vec<Entry>)
        requires
            self.wf(),
        ensures
            sorted(r@),
            forall|k: Seq<u8>| #[trigger] find(r@, k)
                == (if in_range(start@, k, end@) {
                    find(self.contents(), k)
                } else {
                    None::<Seq<u8>>
                }),
    {
        range_of_sorted(&self.entries, start, end)
    }

    /// Inserts or overwrites `key`. Requires room unless the key is
    /// already present, in which case the value is replaced in place.
    pub fn put(&mut self, key: Vec<u8>, value: Vec<u8>)
        requires
            old(self).wf(),
            old(self).contents().len() < old(self).spec_capacity()
                || find(old(self).contents(), key@) is Some,
        ensures
            final(self).wf(),
            final(self).spec_capacity() == old(self).spec_capacity(),
            forall|k: Seq<u8>| #[trigger] find(final(self).contents(), k)
                == (if k == key@ {
                    Some(value@)
                } else {
                    find(old(self).contents(), k)
                }),
            final(self).contents().len() == old(self).contents().len()
                + (if find(old(self).contents(), key@) is Some {
                    0int
                } else {
                    1int
                }),
    {
        let ghost olds = self.entries@;
        let n = self.entries.len();
        let mut out: Vec<Entry> = Vec::new();
        let mut placed: bool = false;
        let mut i: usize = 0;
        while i < n
            invariant
                n == olds.len(),
                olds == self.entries@,
                sorted(olds),
                self.capacity == old(self).capacity,
                olds == old(self).contents(),
                i <= n,
                sorted(out@),
                !placed ==> out@.len() == i as int,
                !placed ==> forall|j: int| 0 <= j < i
                    ==> (#[trigger] out@[j]).key@ == olds[j].key@
                        && out@[j].value@ == olds[j].value@,
                !placed ==> forall|j: int| 0 <= j < i
                    ==> lex_lt((#[trigger] olds[j]).key@, key@),
                !placed ==> forall|k: Seq<u8>| #[trigger] find(out@, k)
                    == (if k == key@ {
                        None::<Seq<u8>>
                    } else {
                        find(olds.take(i as int), k)
                    }),
                placed ==> forall|k: Seq<u8>| #[trigger] find(out@, k)
                    == (if k == key@ {
                        Some(value@)
                    } else {
                        find(olds.take(i as int), k)
                    }),
                placed ==> out@.len() >= 1,
                placed ==> forall|j: int| i <= j < n
                    ==> lex_lt(out@.last().key@, (#[trigger] olds[j]).key@),
                placed ==> (out@.len() == i as int || out@.len() == i + 1),
                placed ==> (out@.len() == i + 1 <==> find(olds, key@) is None),
            decreases n - i,
        {
            let ghost prev = out@;
            if placed {
                out.push(copy_entry(&self.entries[i]));
                proof {
                    assert(out@ =~= prev.push(out@.last()));
                    lemma_sorted_push_last(prev, out@.last());
                    assert(olds.take(i + 1 as int)
                        =~= olds.take(i as int).push(olds[i as int]));
                    assert forall|k: Seq<u8>| #[trigger] find(out@, k)
                        == (if k == key@ {
                            Some(value@)
                        } else {
                            find(olds.take(i + 1 as int), k)
                        }) by {
                        lemma_find_push(prev, out@.last(), k);
                        lemma_find_push(olds.take(i as int), olds[i as int], k);
                    }
                    assert forall|j: int| i + 1 <= j < n
                        implies lex_lt(out@.last().key@, (#[trigger] olds[j]).key@) by {
                        assert(lex_lt(olds[i as int].key@, olds[j].key@));
                    }
                }
            } else {
                match key_cmp(&self.entries[i].key, &key) {
                    KeyOrder::Less => {
                        out.push(copy_entry(&self.entries[i]));
                        proof {
                            assert(out@ =~= prev.push(out@.last()));
                            if prev.len() > 0 {
                                assert(prev.last().key@ == olds[i - 1].key@);
                                assert(lex_lt(olds[i - 1].key@, olds[i as int].key@));
                            }
                            lemma_sorted_push_last(prev, out@.last());
                            assert(olds.take(i + 1 as int)
                                =~= olds.take(i as int).push(olds[i as int]));
                            assert forall|k: Seq<u8>| #[trigger] find(out@, k)
                                == (if k == key@ {
                                    None::<Seq<u8>>
                                } else {
                                    find(olds.take(i + 1 as int), k)
                                }) by {
                                lemma_find_push(prev, out@.last(), k);
                                lemma_find_push(olds.take(i as int), olds[i as int], k);
                                if k == key@ {
                                    lemma_lex_asymmetric(olds[i as int].key@, key@);
                                }
                            }
                        }
                    },
                    KeyOrder::Equal => {
                        let e = Entry { key: copy_bytes(&key), value: copy_bytes(&value) };
                        out.push(e);
                        placed = true;
                        proof {
                            assert forall|j: int| 0 <= j < i
                                implies (#[trigger] olds[j]).key@ != key@ by {
                                lemma_lex_asymmetric(olds[j].key@, key@);
                            }
                            lemma_find_first_match(olds, key@, i as int);
                            assert(out@ =~= prev.push(out@.last()));
                            if prev.len() > 0 {
                                assert(prev.last().key@ == olds[i - 1].key@);
                            }
                            lemma_sorted_push_last(prev, out@.last());
                            assert(olds.take(i + 1 as int)
                                =~= olds.take(i as int).push(olds[i as int]));
                            assert forall|k: Seq<u8>| #[trigger] find(out@, k)
                                == (if k == key@ {
                                    Some(value@)
                                } else {
                                    find(olds.take(i + 1 as int), k)
                                }) by {
                                lemma_find_push(prev, out@.last(), k);
                                lemma_find_push(olds.take(i as int), olds[i as int], k);
                            }
                            assert forall|j: int| i + 1 <= j < n
                                implies lex_lt(out@.last().key@, (#[trigger] olds[j]).key@) by {
                                assert(lex_lt(olds[i as int].key@, olds[j].key@));
                            }
                        }
                    },
                    KeyOrder::Greater => {
                        proof {
                            assert forall|j: int| 0 <= j < n
                                implies (#[trigger] olds[j]).key@ != key@ by {
                                if j < i {
                                    lemma_lex_asymmetric(olds[j].key@, key@);
                                } else if j == i {
                                    lemma_lex_asymmetric(key@, olds[j].key@);
                                } else {
                                    lemma_lex_transitive(key@, olds[i as int].key@, olds[j].key@);
                                    lemma_lex_asymmetric(key@, olds[j].key@);
                                }
                            }
                            lemma_find_absent(olds, key@);
                        }
                        let e = Entry { key: copy_bytes(&key), value: copy_bytes(&value) };
                        out.push(e);
                        let ghost mid = out@;
                        proof {
                            assert(mid =~= prev.push(mid.last()));
                            if prev.len() > 0 {
                                assert(prev.last().key@ == olds[i - 1].key@);
                            }
                            lemma_sorted_push_last(prev, mid.last());
                        }
                        out.push(copy_entry(&self.entries[i]));
                        placed = true;
                        proof {
                            assert(out@ =~= mid.push(out@.last()));
                            lemma_sorted_push_last(mid, out@.last());
                            assert(olds.take(i + 1 as int)
                                =~= olds.take(i as int).push(olds[i as int]));
                            assert forall|k: Seq<u8>| #[trigger] find(out@, k)
                                == (if k == key@ {
                                    Some(value@)
                                } else {
                                    find(olds.take(i + 1 as int), k)
                                }) by {
                                lemma_find_push(prev, mid.last(), k);
                                lemma_find_push(mid, out@.last(), k);
                                lemma_find_push(olds.take(i as int), olds[i as int], k);
                            }
                            assert forall|j: int| i + 1 <= j < n
                                implies lex_lt(out@.last().key@, (#[trigger] olds[j]).key@) by {
                                assert(lex_lt(olds[i as int].key@, olds[j].key@));
                            }
                        }
                    },
                }
            }
            i = i + 1;
        }
        if !placed {
            proof {
                assert forall|j: int| 0 <= j < n
                    implies (#[trigger] olds[j]).key@ != key@ by {
                    lemma_lex_asymmetric(olds[j].key@, key@);
                }
                lemma_find_absent(olds, key@);
            }
            let ghost prev = out@;
            let e = Entry { key, value };
            out.push(e);
            proof {
                assert(out@ =~= prev.push(out@.last()));
                if prev.len() > 0 {
                    assert(prev.last().key@ == olds[n - 1].key@);
                }
                lemma_sorted_push_last(prev, out@.last());
                assert forall|k: Seq<u8>| #[trigger] find(out@, k)
                    == (if k == key@ {
                        Some(value@)
                    } else {
                        find(olds.take(n as int), k)
                    }) by {
                    lemma_find_push(prev, out@.last(), k);
                }
            }
        }
        proof {
            assert(olds.take(n as int) =~= olds);
        }
        self.entries = out;
    }

    /// Returns the whole contents and empties the buffer, atomically
    /// with respect to the `&mut` borrow.
    pub fn drain(&mut self) -> (r: Vec<Entry>)
        requires
            old(self).wf(),
        ensures
            final(self).wf(),
            final(self).spec_capacity() == old(self).spec_capacity(),
            final(self).contents().len() == 0,
            sorted(r@),
            r@.len() == old(self).contents().len(),
            forall|j: int| 0 <= j < r@.len()
                ==> (#[trigger] r@[j]).key@ == old(self).contents()[j].key@
                    && r@[j].value@ == old(self).contents()[j].value@,
            forall|k: Seq<u8>| #[trigger] find(r@, k) == find(old(self).contents(), k),
    {
        let ghost olds = self.entries@;
        let mut r: Vec<Entry> = Vec::new();
        let mut i: usize = 0;
        while i < self.entries.len()
            invariant
                olds == self.entries@,
                i <= olds.len(),
                r@.len() == i as int,
                forall|j: int| 0 <= j < i
                    ==> (#[trigger] r@[j]).key@ == olds[j].key@
                        && r@[j].value@ == olds[j].value@,
            decreases self.entries.len() - i,
        {
            r.push(copy_entry(&self.entries[i]));
            i = i + 1;
        }
        proof {
            assert forall|k: Seq<u8>| #[trigger] find(r@, k) == find(olds, k) by {
                lemma_find_congruent(r@, olds, k);
            }
        }
        self.entries.clear();
        r
    }
}

} // verus!
