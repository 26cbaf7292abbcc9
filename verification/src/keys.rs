//! Lexicographic ordering of byte-string keys.
//!
//! Every sorted structure in the engine (runs, the buffer, merge output)
//! is ordered by this relation.

use vstd::prelude::*;

verus! {

/// Strict lexicographic order on byte sequences: `a` comes before `b`
/// when `a` is a proper prefix of `b`, or when the first differing byte
/// of `a` is smaller.
pub open spec fn lex_lt(a: Seq<u8>, b: Seq<u8>) -> bool
    decreases a.len(),
{
    if b.len() == 0 {
        false
    } else if a.len() == 0 {
        true
    } else if a[0] < b[0] {
        true
    } else if a[0] > b[0] {
        false
    } else {
        lex_lt(a.drop_first(), b.drop_first())
    }
}

/// Non-strict lexicographic order.
pub open spec fn lex_le(a: Seq<u8>, b: Seq<u8>) -> bool {
    lex_lt(a, b) || a == b
}

pub proof fn lemma_lex_irreflexive(a: Seq<u8>)
    ensures
        !lex_lt(a, a),
    decreases a.len(),
{
    if a.len() > 0 {
        lemma_lex_irreflexive(a.drop_first());
    }
}

pub proof fn lemma_lex_transitive(a: Seq<u8>, b: Seq<u8>, c: Seq<u8>)
    requires
        lex_lt(a, b),
        lex_lt(b, c),
    ensures
        lex_lt(a, c),
    decreases a.len(),
{
    if c.len() == 0 {
    } else if a.len() == 0 {
    } else {
        if b.len() > 0 && a[0] == b[0] && b[0] == c[0] {
            lemma_lex_transitive(a.drop_first(), b.drop_first(), c.drop_first());
        }
    }
}

pub proof fn lemma_lex_asymmetric(a: Seq<u8>, b: Seq<u8>)
    requires
        lex_lt(a, b),
    ensures
        !lex_lt(b, a),
        a != b,
{
    lemma_lex_irreflexive(a);
    if lex_lt(b, a) {
        lemma_lex_transitive(a, b, a);
    }
}

proof fn lemma_lex_lt_from_first_difference(a: Seq<u8>, b: Seq<u8>, i: int)
    requires
        0 <= i < a.len(),
        i < b.len(),
        a.take(i) == b.take(i),
        a[i] < b[i],
    ensures
        lex_lt(a, b),
    decreases i,
{
    if i == 0 {
    } else {
        assert(a[0] == a.take(i)[0] && b[0] == b.take(i)[0]);
        assert(a.drop_first().take(i - 1) =~= b.drop_first().take(i - 1)) by {
            assert(forall|j: int| 0 <= j < i - 1 ==>
                #[trigger] a.drop_first()[j] == a.take(i)[j + 1]
                && #[trigger] b.drop_first()[j] == b.take(i)[j + 1]);
        }
        lemma_lex_lt_from_first_difference(a.drop_first(), b.drop_first(), i - 1);
    }
}

proof fn lemma_lex_lt_from_proper_prefix(a: Seq<u8>, b: Seq<u8>)
    requires
        a.len() < b.len(),
        a == b.take(a.len() as int),
    ensures
        lex_lt(a, b),
    decreases a.len(),
{
    if a.len() > 0 {
        assert(a[0] == b.take(a.len() as int)[0]);
        assert(a.drop_first() =~= b.drop_first().take(a.len() - 1)) by {
            assert(forall|j: int| 0 <= j < a.len() - 1 ==>
                #[trigger] a.drop_first()[j] == b.take(a.len() as int)[j + 1]
                && #[trigger] b.drop_first().take(a.len() - 1)[j] == b[j + 1]);
        }
        lemma_lex_lt_from_proper_prefix(a.drop_first(), b.drop_first());
    }
}

/// Outcome of a three-way key comparison.
pub enum KeyOrder {
    Less,
    Equal,
    Greater,
}

/// Three-way comparison of two byte keys, decided by the first
/// differing byte, with a proper prefix ordered first.
pub fn key_cmp(a: &Vec<u8>, b: &Vec<u8>) -> (r: KeyOrder)
    ensures
        r is Less <==> lex_lt(a@, b@),
        r is Equal <==> a@ == b@,
        r is Greater <==> lex_lt(b@, a@),
{
    let mut i: usize = 0;
    loop
        invariant
            i <= a.len(),
            i <= b.len(),
            a@.take(i as int) == b@.take(i as int),
        decreases a.len() - i,
    {
        if i < a.len() && i < b.len() {
            let x = a[i];
            let y = b[i];
            if x < y {
                proof {
                    lemma_lex_lt_from_first_difference(a@, b@, i as int);
                    lemma_lex_asymmetric(a@, b@);
                }
                return KeyOrder::Less;
            }
            if y < x {
                proof {
                    lemma_lex_lt_from_first_difference(b@, a@, i as int);
                    lemma_lex_asymmetric(b@, a@);
                }
                return KeyOrder::Greater;
            }
            proof {
                assert(a@.take(i + 1 as int) =~= b@.take(i + 1 as int));
            }
            i = i + 1;
        } else if i < b.len() {
            proof {
                assert(a@.take(i as int) =~= a@);
                lemma_lex_lt_from_proper_prefix(a@, b@);
                lemma_lex_asymmetric(a@, b@);
            }
            return KeyOrder::Less;
        } else if i < a.len() {
            proof {
                assert(b@.take(i as int) =~= b@);
                lemma_lex_lt_from_proper_prefix(b@, a@);
                lemma_lex_asymmetric(b@, a@);
            }
            return KeyOrder::Greater;
        } else {
            proof {
                assert(a@.take(i as int) =~= a@);
                assert(b@.take(i as int) =~= b@);
                lemma_lex_irreflexive(a@);
            }
            return KeyOrder::Equal;
        }
    }
}

} // verus!
