//! A run: one immutable, capacity-bounded, sorted segment of entries.
//!
//! A run is written once, in ascending key order, and afterwards only
//! read. Runs within a level are ordered by recency; the engine never
//! mutates a closed run in place, it either reads it or discards it
//! whole.

use vstd::prelude::*;

use crate::data::{Entry, copy_bytes, find, find_entry, copy_entry, sorted,
    lemma_find_push, lemma_find_none_above};
use crate::keys::{lex_lt, lex_le, key_cmp, KeyOrder};

verus! {

/// True when `k` lies in the half-open key interval `[lo, hi)`.
pub open spec fn in_range(lo: Seq<u8>, k: Seq<u8>, hi: Seq<u8>) -> bool {
    lex_le(lo, k) && lex_lt(k, hi)
}

/// Decides membership of a key in the half-open interval `[lo, hi)`.
pub fn key_in_range(lo: &Vec<u8>, k: &Vec<u8>, hi: &Vec<u8>) -> (r: bool)
    ensures
        r == in_range(lo@, k@, hi@),
{
    let lower_ok = match key_cmp(lo, k) {
        KeyOrder::Less => true,
        KeyOrder::Equal => true,
        KeyOrder::Greater => false,
    };
    if !lower_ok {
        return false;
    }
    match key_cmp(k, hi) {
        KeyOrder::Less => true,
        _ => false,
    }
}

pub struct Run {
    pub entries: Vec<Entry>,
    pub capacity: usize,
    pub filter_bits_per_entry: u64,
}

impl Run {
    /// The stored entries, most of the engine's reasoning is over this.
    pub open spec fn contents(self) -> Seq<Entry> {
        self.entries@
    }

    pub open spec fn spec_capacity(self) -> int {
        self.capacity as int
    }

    /// Well-formed: strictly sorted by key and within capacity.
    pub open spec fn wf(self) -> bool {
        sorted(self.entries@) && self.entries@.len() <= self.capacity
    }

    /// Allocates a new empty, writable segment. The bits-per-entry
    /// parameter sizes the run's membership filter.
    pub fn new(capacity: usize, filter_bits_per_entry: u64) -> (r: Run)
        ensures
            r.wf(),
            r.contents().len() == 0,
            r.spec_capacity() == capacity as int,
    {
        Run { entries: Vec::new(), capacity, filter_bits_per_entry }
    }

    /// Appends one entry; the caller guarantees append order, so the
    /// new key must be greater than every stored key.
    pub fn put(&mut self, key: &Vec<u8>, value: &Vec<u8>)
        requires
            old(self).wf(),
            old(self).contents().len() < old(self).spec_capacity(),
            forall|i: int| 0 <= i < old(self).contents().len()
                ==> lex_lt((#[trigger] old(self).contents()[i]).key@, key@),
        ensures
            final(self).wf(),
            final(self).spec_capacity() == old(self).spec_capacity(),
            final(self).contents().len() == old(self).contents().len() + 1,
            forall|i: int| 0 <= i < old(self).contents().len()
                ==> final(self).contents()[i] == old(self).contents()[i],
            final(self).contents().last().key@ == key@,
            final(self).contents().last().value@ == value@,
            forall|k: Seq<u8>| #[trigger] find(final(self).contents(), k)
                == (if find(old(self).contents(), k) is Some {
                    find(old(self).contents(), k)
                } else if k == key@ {
                    Some(value@)
                } else {
                    None::<Seq<u8>>
                }),
    {
        let e = Entry { key: copy_bytes(key), value: copy_bytes(value) };
        proof {
            let s = self.entries@;
            assert forall|k: Seq<u8>| #[trigger] find(s.push(e), k)
                == (if find(s, k) is Some {
                    find(s, k)
                } else if k == key@ {
                    Some(value@)
                } else {
                    None::<Seq<u8>>
                }) by {
                lemma_find_push(s, e, k);
            }
        }
        self.entries.push(e);
    }

    /// Point lookup: the value stored under `key`, if any.
    pub fn get(&self, key: &Vec<u8>) -> (r: Option<Vec<u8>>)
        ensures
            match r {
                Some(v) => find(self.contents(), key@) == Some(v@),
                None => find(self.contents(), key@) is None,
            },
    {
        find_entry(&self.entries, key)
    }

    /// All entries with keys in `[start, end)`, in ascending key order.
    pub fn range(&self, start: &Vec<u8>, end: &Vec<u8>) -> (r: Vec<Entry>)
        requires
            self.wf(),
        ensures
            sorted(r@),
            forall|k: Seq<u8>| #[trigger] find(r@, k)
                == (if in_range(start@, k, end@) {
                    find(self.contents(), k)
                } else {
                    None::<Seq<u8>>
                }),
    {
        range_of_sorted(&self.entries, start, end)
    }

    /// Read access to the whole segment, for merging and inspection.
    pub fn data(&self) -> (r: &Vec<Entry>)
        ensures
            r@ == self.contents(),
    {
        &self.entries
    }
}

/// Extracts the entries of a sorted sequence whose keys lie in
/// `[start, end)`.
pub fn range_of_sorted(entries: &Vec<Entry>, start: &Vec<u8>, end: &Vec<u8>) -> (r: Vec<Entry>)
    requires
        sorted(entries@),
    ensures
        sorted(r@),
        forall|k: Seq<u8>| #[trigger] find(r@, k)
            == (if in_range(start@, k, end@) {
                find(entries@, k)
            } else {
                None::<Seq<u8>>
            }),
{
    let ghost full = entries@;
    let mut out: Vec<Entry> = Vec::new();
    let mut i: usize = 0;
    while i < entries.len()
        invariant
            sorted(full),
            full == entries@,
            i <= entries.len(),
            sorted(out@),
            forall|m: int, j: int| 0 <= m < out@.len() && i <= j < full.len()
                ==> lex_lt((#[trigger] out@[m]).key@, (#[trigger] full[j]).key@),
            forall|k: Seq<u8>| #[trigger] find(out@, k)
                == (if in_range(start@, k, end@) {
                    find(full.take(i as int), k)
                } else {
                    None::<Seq<u8>>
                }),
        decreases entries.len() - i,
    {
        let ghost prev = out@;
        let e = &entries[i];
        if key_in_range(start, &e.key, end) {
            out.push(copy_entry(e));
        }
        proof {
            assert(full.take(i + 1 as int) =~= full.take(i as int).push(full[i as int]));
            assert forall|k: Seq<u8>| #[trigger] find(out@, k)
                == (if in_range(start@, k, end@) {
                    find(full.take(i + 1 as int), k)
                } else {
                    None::<Seq<u8>>
                }) by {
                lemma_find_push(full.take(i as int), full[i as int], k);
                if out@.len() == prev.len() + 1 {
                    assert(out@.drop_last() =~= prev);
                    assert(out@ =~= prev.push(out@.last()));
                    lemma_find_push(prev, out@.last(), k);
                } else {
                    if !in_range(start@, full[i as int].key@, end@)
                        && k == full[i as int].key@ && find(prev, k) is None {
                    }
                }
            }
        }
        i = i + 1;
    }
    proof {
        assert(full.take(full.len() as int) =~= full);
    }
    out
}

} // verus!
