//! Facts about sequences that the tree proofs use.

use vstd::prelude::*;

verus! {

/// The index `i`.
pub open spec fn at(i: usize) -> int {
    i as int
}

/// The length of `s`.
pub open spec fn len_of<T>(s: Seq<T>) -> int {
    s.len() as int
}

/// `ext` added to `base` at the back, or at the front where `back` is false.
pub open spec fn join<T>(back: bool, base: Seq<T>, ext: Seq<T>) -> Seq<T> {
    if back {
        base + ext
    } else {
        ext + base
    }
}

/// Joining at one side is associative.
pub proof fn lemma_join_assoc<T>(back: bool, a: Seq<T>, b: Seq<T>, c: Seq<T>)
    ensures
        join(back, join(back, a, b), c) == join(back, a, join(back, b, c)),
{
    assert(join(back, join(back, a, b), c) =~= join(back, a, join(back, b, c)));
}

/// Joining nothing changes nothing.
pub proof fn lemma_join_empty<T>(back: bool, a: Seq<T>)
    ensures
        join(back, a, Seq::empty()) == a,
        join(back, Seq::empty(), a) == a,
{
    assert(join(back, a, Seq::empty()) =~= a);
    assert(join(back, Seq::empty(), a) =~= a);
}

} // verus!
