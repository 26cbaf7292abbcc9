//! The entry model: immutable records of key bytes and value bytes,
//! the tombstone sentinel, and the specification of lookup in a
//! sequence of entries.

use vstd::prelude::*;

use crate::keys::{lex_lt, KeyOrder, key_cmp, lemma_lex_irreflexive};

verus! {

/// One record: a key and the value most recently written under it.
pub struct Entry {
    pub key: Vec<u8>,
    pub value: Vec<u8>,
}

/// The reserved sentinel value that marks logical deletion: the empty
/// byte string. An entry carrying it is live during compaction and
/// read resolution but is never surfaced to a caller as a hit.
pub open spec fn tombstone() -> Seq<u8> {
    Seq::<u8>::empty()
}

/// Builds the tombstone sentinel as a concrete value.
pub fn tombstone_value() -> (r: Vec<u8>)
    ensures
        r@ == tombstone(),
{
    let r: Vec<u8> = Vec::new();
    proof {
        assert(r@ =~= tombstone());
    }
    r
}

/// Tests a value against the tombstone sentinel.
pub fn is_tombstone(v: &Vec<u8>) -> (r: bool)
    ensures
        r == (v@ == tombstone()),
{
    proof {
        if v@.len() == 0 {
            assert(v@ =~= tombstone());
        }
    }
    v.len() == 0
}

/// The value of the first entry for key `k`, scanning front to back.
pub open spec fn find(s: Seq<Entry>, k: Seq<u8>) -> Option<Seq<u8>>
    decreases s.len(),
{
    if s.len() == 0 {
        None
    } else if s[0].key@ == k {
        Some(s[0].value@)
    } else {
        find(s.drop_first(), k)
    }
}

/// Recency preference: the first operand stands for the more recent
/// source, so its hit shadows the second operand's.
pub open spec fn or_else(a: Option<Seq<u8>>, b: Option<Seq<u8>>) -> Option<Seq<u8>> {
    if a is Some {
        a
    } else {
        b
    }
}

/// Strictly ascending key order; strictness makes keys unique.
pub open spec fn sorted(s: Seq<Entry>) -> bool {
    forall|i: int, j: int| 0 <= i < j < s.len() ==> lex_lt(s[i].key@, s[j].key@)
}

pub proof fn lemma_find_push(s: Seq<Entry>, e: Entry, k: Seq<u8>)
    ensures
        find(s.push(e), k) == (if find(s, k) is Some {
            find(s, k)
        } else if e.key@ == k {
            Some(e.value@)
        } else {
            None::<Seq<u8>>
        }),
    decreases s.len(),
{
    if s.len() == 0 {
        assert(s.push(e).drop_first() =~= s);
    } else {
        assert(s.push(e).drop_first() =~= s.drop_first().push(e));
        lemma_find_push(s.drop_first(), e, k);
    }
}

pub proof fn lemma_find_absent(s: Seq<Entry>, k: Seq<u8>)
    requires
        forall|i: int| 0 <= i < s.len() ==> (#[trigger] s[i]).key@ != k,
    ensures
        find(s, k) is None,
    decreases s.len(),
{
    if s.len() > 0 {
        assert(forall|i: int| 0 <= i < s.drop_first().len()
            ==> #[trigger] s.drop_first()[i] == s[i + 1]);
        lemma_find_absent(s.drop_first(), k);
    }
}

pub proof fn lemma_find_first_match(s: Seq<Entry>, k: Seq<u8>, n: int)
    requires
        0 <= n < s.len(),
        s[n].key@ == k,
        forall|i: int| 0 <= i < n ==> (#[trigger] s[i]).key@ != k,
    ensures
        find(s, k) == Some(s[n].value@),
    decreases n,
{
    if n > 0 {
        assert(forall|i: int| 0 <= i < s.drop_first().len()
            ==> #[trigger] s.drop_first()[i] == s[i + 1]);
        lemma_find_first_match(s.drop_first(), k, n - 1);
    }
}

/// In a strictly sorted sequence, a key greater than every stored key
/// is absent.
pub proof fn lemma_find_none_above(s: Seq<Entry>, k: Seq<u8>)
    requires
        forall|i: int| 0 <= i < s.len() ==> lex_lt((#[trigger] s[i]).key@, k),
    ensures
        find(s, k) is None,
{
    assert forall|i: int| 0 <= i < s.len() implies (#[trigger] s[i]).key@ != k by {
        lemma_lex_irreflexive(k);
    }
    lemma_find_absent(s, k);
}

/// Appending an entry whose key is above every stored key keeps a
/// sequence strictly sorted.
pub proof fn lemma_sorted_push(s: Seq<Entry>, e: Entry)
    requires
        sorted(s),
        forall|i: int| 0 <= i < s.len() ==> lex_lt((#[trigger] s[i]).key@, e.key@),
    ensures
        sorted(s.push(e)),
{
    assert forall|i: int, j: int| 0 <= i < j < s.push(e).len()
        implies lex_lt(s.push(e)[i].key@, s.push(e)[j].key@) by {
        if j < s.len() {
            assert(s.push(e)[i] == s[i] && s.push(e)[j] == s[j]);
        } else {
            assert(s.push(e)[i] == s[i] && s.push(e)[j] == e);
        }
    }
}

/// Appending an entry whose key is above the last stored key keeps a
/// sequence strictly sorted, and the new key dominates every stored key.
pub proof fn lemma_sorted_push_last(s: Seq<Entry>, e: Entry)
    requires
        sorted(s),
        s.len() > 0 ==> lex_lt(s.last().key@, e.key@),
    ensures
        sorted(s.push(e)),
        forall|i: int| 0 <= i < s.len() ==> lex_lt((#[trigger] s[i]).key@, e.key@),
{
    assert forall|i: int| 0 <= i < s.len() implies lex_lt((#[trigger] s[i]).key@, e.key@) by {
        if i < s.len() - 1 {
            crate::keys::lemma_lex_transitive(s[i].key@, s.last().key@, e.key@);
        }
    }
    lemma_sorted_push(s, e);
}

/// Lookup depends only on the key and value views of the entries.
pub proof fn lemma_find_congruent(s1: Seq<Entry>, s2: Seq<Entry>, k: Seq<u8>)
    requires
        s1.len() == s2.len(),
        forall|j: int| 0 <= j < s1.len()
            ==> (#[trigger] s1[j]).key@ == s2[j].key@ && s1[j].value@ == s2[j].value@,
    ensures
        find(s1, k) == find(s2, k),
    decreases s1.len(),
{
    if s1.len() > 0 {
        assert(forall|j: int| 0 <= j < s1.drop_first().len()
            ==> #[trigger] s1.drop_first()[j] == s1[j + 1]);
        assert(forall|j: int| 0 <= j < s2.drop_first().len()
            ==> #[trigger] s2.drop_first()[j] == s2[j + 1]);
        lemma_find_congruent(s1.drop_first(), s2.drop_first(), k);
    }
}

/// Copies a byte string.
pub fn copy_bytes(src: &Vec<u8>) -> (r: Vec<u8>)
    ensures
        r@ == src@,
{
    let mut r: Vec<u8> = Vec::new();
    let mut i: usize = 0;
    while i < src.len()
        invariant
            i <= src.len(),
            r@ =~= src@.take(i as int),
        decreases src.len() - i,
    {
        r.push(src[i]);
        i = i + 1;
    }
    proof {
        assert(src@.take(src@.len() as int) =~= src@);
    }
    r
}

/// Copies one entry.
pub fn copy_entry(src: &Entry) -> (r: Entry)
    ensures
        r.key@ == src.key@,
        r.value@ == src.value@,
{
    Entry { key: copy_bytes(&src.key), value: copy_bytes(&src.value) }
}

/// Linear scan for the first entry whose key equals `key`; returns a
/// copy of its value.
pub fn find_entry(entries: &Vec<Entry>, key: &Vec<u8>) -> (r: Option<Vec<u8>>)
    ensures
        match r {
            Some(v) => find(entries@, key@) == Some(v@),
            None => find(entries@, key@) is None,
        },
{
    let mut i: usize = 0;
    while i < entries.len()
        invariant
            i <= entries.len(),
            forall|j: int| 0 <= j < i ==> (#[trigger] entries@[j]).key@ != key@,
        decreases entries.len() - i,
    {
        if matches!(key_cmp(&entries[i].key, key), KeyOrder::Equal) {
            let v = copy_bytes(&entries[i].value);
            proof {
                lemma_find_first_match(entries@, key@, i as int);
            }
            return Some(v);
        }
        i = i + 1;
    }
    proof {
        lemma_find_absent(entries@, key@);
    }
    None
}

} // verus!
