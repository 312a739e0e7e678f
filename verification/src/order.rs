//! The lexicographic order of byte sequences.

use crate::seqs::{at, len_of};
use core::cmp::Ordering;
use vstd::prelude::*;

verus! {

/// How `a` compares with `b` in lexicographic order.
pub open spec fn lex(a: Seq<u8>, b: Seq<u8>) -> Ordering
    decreases a.len(),
{
    if a.len() == 0 || b.len() == 0 {
        if a.len() < b.len() {
            Ordering::Less
        } else if a.len() > b.len() {
            Ordering::Greater
        } else {
            Ordering::Equal
        }
    } else if a[0] < b[0] {
        Ordering::Less
    } else if a[0] > b[0] {
        Ordering::Greater
    } else {
        lex(a.drop_first(), b.drop_first())
    }
}

/// A common start does not matter.
pub proof fn lemma_lex_common(start: Seq<u8>, a: Seq<u8>, b: Seq<u8>)
    ensures
        lex(start + a, start + b) == lex(a, b),
    decreases start.len(),
{
    if start.len() == 0 {
        assert(start + a =~= a);
        assert(start + b =~= b);
    } else {
        lemma_lex_common(start.drop_first(), a, b);
        assert((start + a).drop_first() =~= start.drop_first() + a);
        assert((start + b).drop_first() =~= start.drop_first() + b);
    }
}

/// The first differing byte decides.
pub proof fn lemma_lex_differ(a: Seq<u8>, b: Seq<u8>, i: int)
    requires
        0 <= i < a.len(),
        i < b.len(),
        a[i] != b[i],
        a.take(i) == b.take(i),
    ensures
        lex(a, b) == if a[i] < b[i] { Ordering::Less } else { Ordering::Greater },
{
    lemma_lex_common(a.take(i), a.skip(i), b.skip(i));
    assert(a =~= a.take(i) + a.skip(i));
    assert(b =~= b.take(i) + b.skip(i));
}

/// Where one sequence is a start of the other, the lengths decide.
pub proof fn lemma_lex_prefix(a: Seq<u8>, b: Seq<u8>)
    requires
        a.len() <= b.len(),
        a == b.take(len_of(a)),
    ensures
        lex(a, b) == if a.len() < b.len() { Ordering::Less } else { Ordering::Equal },
        lex(b, a) == if a.len() < b.len() { Ordering::Greater } else { Ordering::Equal },
{
    let rest = b.skip(len_of(a));
    let none: Seq<u8> = Seq::empty();
    lemma_lex_common(a, none, rest);
    lemma_lex_common(a, rest, none);
    assert(a =~= a + none);
    assert(b =~= a + rest);
}

/// Two sequences compare as equal if and only if they are equal.
pub proof fn law_lex_equal(a: Seq<u8>, b: Seq<u8>)
    ensures
        lex(a, b) == Ordering::Equal <==> a == b,
    decreases a.len(),
{
    if a.len() > 0 && b.len() > 0 && a[0] == b[0] {
        law_lex_equal(a.drop_first(), b.drop_first());
        if a.drop_first() == b.drop_first() {
            assert(a =~= seq![a[0]] + a.drop_first());
            assert(b =~= seq![b[0]] + b.drop_first());
        }
    } else if a.len() == 0 && b.len() == 0 {
        assert(a =~= b);
    }
}

/// The other way round, the order is reversed.
pub proof fn law_lex_reverse(a: Seq<u8>, b: Seq<u8>)
    ensures
        lex(b, a) == match lex(a, b) {
            Ordering::Less => Ordering::Greater,
            Ordering::Equal => Ordering::Equal,
            Ordering::Greater => Ordering::Less,
        },
    decreases a.len(),
{
    if a.len() > 0 && b.len() > 0 && a[0] == b[0] {
        law_lex_reverse(a.drop_first(), b.drop_first());
    }
}

/// The order is transitive.
pub proof fn law_lex_transitive(a: Seq<u8>, b: Seq<u8>, c: Seq<u8>)
    requires
        lex(a, b) != Ordering::Greater,
        lex(b, c) != Ordering::Greater,
    ensures
        lex(a, c) != Ordering::Greater,
        lex(a, b) == Ordering::Less || lex(b, c) == Ordering::Less ==> lex(a, c) == Ordering::Less,
    decreases a.len(),
{
    if a.len() > 0 && b.len() > 0 && c.len() > 0 && a[0] == b[0] && b[0] == c[0] {
        law_lex_transitive(a.drop_first(), b.drop_first(), c.drop_first());
    }
}

/// Whether `a` and `b` hold the same bytes.
pub fn equal_slices(a: &[u8], b: &[u8]) -> (r: bool)
    ensures
        r == (a@ == b@),
{
    if a.len() != b.len() {
        return false;
    }
    let mut i: usize = 0;
    while i < a.len()
        invariant
            i <= a@.len(),
            a@.len() == b@.len(),
            a@.take(i as int) =~= b@.take(i as int),
        decreases a@.len() - i,
    {
        if a[i] != b[i] {
            return false;
        }
        i += 1;
    }
    assert(a@.take(i as int) =~= a@);
    assert(b@.take(i as int) =~= b@);
    true
}

/// How `a` compares with `b` in lexicographic order.
pub fn compare_slices(a: &[u8], b: &[u8]) -> (r: Ordering)
    ensures
        r == lex(a@, b@),
{
    let mut i: usize = 0;
    while i < a.len() && i < b.len()
        invariant
            i <= a@.len(),
            i <= b@.len(),
            a@.take(at(i)) =~= b@.take(at(i)),
        decreases a@.len() - i,
    {
        if a[i] < b[i] {
            proof {
                lemma_lex_differ(a@, b@, at(i));
            }
            return Ordering::Less;
        }
        if a[i] > b[i] {
            proof {
                lemma_lex_differ(a@, b@, at(i));
            }
            return Ordering::Greater;
        }
        i += 1;
    }
    if a.len() < b.len() {
        proof {
            assert(a@ =~= b@.take(len_of(a@)));
            lemma_lex_prefix(a@, b@);
        }
        Ordering::Less
    } else if a.len() > b.len() {
        proof {
            assert(b@ =~= a@.take(len_of(b@)));
            lemma_lex_prefix(b@, a@);
        }
        Ordering::Greater
    } else {
        proof {
            assert(a@ =~= b@.take(len_of(a@)));
            lemma_lex_prefix(a@, b@);
        }
        Ordering::Equal
    }
}

} // verus!
