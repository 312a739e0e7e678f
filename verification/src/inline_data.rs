//! What a cord holds: up to `MAX_INLINE` bytes in place, or a tree.

use crate::order::{lemma_lex_differ, lemma_lex_prefix, lex};
use crate::rep::memmove::small_memmove;
use crate::rep::settle::settled;
use crate::rep::share::{lie_apart, same_node};
use crate::rep::{CordRep, MAX_INLINE};
use crate::seqs::{at, len_of};
use core::cmp::Ordering;
use core::mem::swap;
use std::sync::Arc;
use vstd::prelude::*;
use vstd::slice::slice_subrange;

verus! {

/// The number of bytes that are held in place. The type has no other values,
/// so that contents take no more room than `MAX_INLINE` bytes and this number.
#[derive(Clone, Copy)]
pub enum InlineLen {
    /// No bytes.
    L0,
    /// One byte.
    L1,
    /// Two bytes.
    L2,
    /// Three bytes.
    L3,
    /// Four bytes.
    L4,
    /// Five bytes.
    L5,
    /// Six bytes.
    L6,
    /// Seven bytes.
    L7,
    /// Eight bytes.
    L8,
    /// Nine bytes.
    L9,
    /// Ten bytes.
    L10,
    /// Eleven bytes.
    L11,
    /// Twelve bytes.
    L12,
    /// Thirteen bytes.
    L13,
    /// Fourteen bytes.
    L14,
    /// Fifteen bytes.
    L15,
}

impl InlineLen {
    /// The number.
    pub open spec fn spec_get(&self) -> usize {
        match self {
            InlineLen::L0 => 0,
            InlineLen::L1 => 1,
            InlineLen::L2 => 2,
            InlineLen::L3 => 3,
            InlineLen::L4 => 4,
            InlineLen::L5 => 5,
            InlineLen::L6 => 6,
            InlineLen::L7 => 7,
            InlineLen::L8 => 8,
            InlineLen::L9 => 9,
            InlineLen::L10 => 10,
            InlineLen::L11 => 11,
            InlineLen::L12 => 12,
            InlineLen::L13 => 13,
            InlineLen::L14 => 14,
            InlineLen::L15 => 15,
        }
    }

    /// The number.
    #[verifier::when_used_as_spec(spec_get)]
    pub fn get(&self) -> (n: usize)
        ensures
            n == self.spec_get(),
    {
        match self {
            InlineLen::L0 => 0,
            InlineLen::L1 => 1,
            InlineLen::L2 => 2,
            InlineLen::L3 => 3,
            InlineLen::L4 => 4,
            InlineLen::L5 => 5,
            InlineLen::L6 => 6,
            InlineLen::L7 => 7,
            InlineLen::L8 => 8,
            InlineLen::L9 => 9,
            InlineLen::L10 => 10,
            InlineLen::L11 => 11,
            InlineLen::L12 => 12,
            InlineLen::L13 => 13,
            InlineLen::L14 => 14,
            InlineLen::L15 => 15,
        }
    }

    /// The value for the number `n`.
    pub fn of(n: usize) -> (len: InlineLen)
        requires
            n <= MAX_INLINE,
        ensures
            len.spec_get() == n,
    {
        match n {
            0 => InlineLen::L0,
            1 => InlineLen::L1,
            2 => InlineLen::L2,
            3 => InlineLen::L3,
            4 => InlineLen::L4,
            5 => InlineLen::L5,
            6 => InlineLen::L6,
            7 => InlineLen::L7,
            8 => InlineLen::L8,
            9 => InlineLen::L9,
            10 => InlineLen::L10,
            11 => InlineLen::L11,
            12 => InlineLen::L12,
            13 => InlineLen::L13,
            14 => InlineLen::L14,
            _ => InlineLen::L15,
        }
    }
}

/// Up to `MAX_INLINE` bytes. The bytes behind them are zero, so that equal
/// contents are equal values.
#[derive(Clone, Copy)]
pub struct InlineBytes {
    /// The bytes and zeros behind them.
    pub bytes: [u8; 15],
    /// The number of bytes.
    pub len: InlineLen,
}

impl InlineBytes {
    /// The number of bytes held.
    pub open spec fn spec_size(&self) -> usize {
        self.len.get()
    }

    /// The number of bytes held.
    #[verifier::when_used_as_spec(spec_size)]
    pub fn size(&self) -> (n: usize)
        ensures
            n == self.spec_size(),
            n <= MAX_INLINE,
    {
        self.len.get()
    }

    /// The bytes behind `size` are zero.
    pub open spec fn wf(self) -> bool {
        &&& self.size() <= MAX_INLINE
        &&& forall|i: int| #![trigger self.bytes@[i]] self.size() <= i < MAX_INLINE ==> self.bytes@[i] == 0
    }

    /// The bytes held.
    pub open spec fn view(self) -> Seq<u8> {
        self.bytes@.take(self.size() as int)
    }

    /// No bytes.
    pub fn new() -> (r: InlineBytes)
        ensures
            r.wf(),
            r.view() == Seq::<u8>::empty(),
            r.size() == 0,
    {
        let bytes: [u8; 15] = [0, 0, 0, 0, 0, 0, 0, 0, 0, 0, 0, 0, 0, 0, 0];
        let r = InlineBytes { bytes, len: InlineLen::L0 };
        assert(r.view() =~= Seq::<u8>::empty());
        r
    }

    /// Copies `src` behind the bytes held.
    pub fn push(&mut self, src: &[u8])
        requires
            old(self).wf(),
            old(self).size() + src@.len() <= MAX_INLINE,
        ensures
            final(self).wf(),
            final(self).view() == old(self).view() + src@,
            final(self).size() == old(self).size() + src@.len(),
    {
        let ghost before = self.view();
        let start: usize = self.size();
        let all: &mut [u8] = &mut self.bytes;
        let (_, free) = all.split_at_mut(start);
        small_memmove::<false>(free, src);
        self.len = InlineLen::of(start + src.len());
        assert(self.bytes@.subrange(start as int, start + src@.len()) =~= src@);
        assert(self.view() =~= before + src@);
    }

    /// The bytes held.
    pub fn as_slice(&self) -> (data: &[u8])
        requires
            self.wf(),
        ensures
            data@ == self.view(),
    {
        let data = slice_subrange(self.bytes.as_slice(), 0, self.size());
        assert(data@ =~= self.view());
        data
    }

    /// Keeps the first `len` bytes.
    pub fn truncate(&mut self, len: usize)
        requires
            old(self).wf(),
            len <= old(self).size(),
        ensures
            final(self).wf(),
            final(self).view() == old(self).view().take(len as int),
            final(self).size() == len,
    {
        let ghost before = self.bytes@;
        let end: usize = self.size();
        let mut i: usize = len;
        while i < end
            invariant
                len <= i <= end <= MAX_INLINE,
                self.size() == end,
                forall|k: int| #![trigger self.bytes@[k]] 0 <= k < len ==> self.bytes@[k] == before[k],
                forall|k: int| #![trigger self.bytes@[k]] len <= k < i ==> self.bytes@[k] == 0,
                forall|k: int| #![trigger self.bytes@[k]] end <= k < MAX_INLINE ==> self.bytes@[k] == 0,
            decreases end - i,
        {
            self.bytes[i] = 0;
            i += 1;
        }
        self.len = InlineLen::of(len);
        assert(self.view() =~= old(self).view().take(len as int));
    }
}

/// The contents of a cord: a few bytes in place, or a tree.
pub enum InlineData {
    /// Bytes in place.
    Inline(InlineBytes),
    /// A tree, which is never empty.
    Tree(Arc<CordRep>),
}

/// A borrowed view of the contents of a cord.
pub enum Repr<'a> {
    /// Bytes in place.
    Inline(&'a [u8]),
    /// A tree.
    Tree(&'a Arc<CordRep>),
}

impl InlineData {
    /// The parts are valid, and a tree is not empty and no higher than needed.
    pub open spec fn wf(self) -> bool {
        match self {
            InlineData::Inline(inline) => inline.wf(),
            InlineData::Tree(tree) => tree.is_edge() && settled(tree),
        }
    }

    /// The bytes of the contents.
    pub open spec fn view(self) -> Seq<u8> {
        match self {
            InlineData::Inline(inline) => inline.view(),
            InlineData::Tree(tree) => tree.bytes(),
        }
    }

    /// No contents.
    pub fn new() -> (data: InlineData)
        ensures
            data.wf(),
            data is Inline,
            data.view() == Seq::<u8>::empty(),
    {
        InlineData::Inline(InlineBytes::new())
    }

    /// The contents of `rep`.
    pub fn from_tree(rep: Arc<CordRep>) -> (data: InlineData)
        requires
            rep.is_edge(),
            settled(rep),
        ensures
            data.wf(),
            data == InlineData::Tree(rep),
            data.view() == rep.bytes(),
    {
        InlineData::Tree(rep)
    }

    /// A copy of `data`, in place.
    pub fn inline_from(data: &[u8]) -> (r: InlineData)
        requires
            data@.len() <= MAX_INLINE,
        ensures
            r.wf(),
            r is Inline,
            r.view() == data@,
    {
        let mut bytes: [u8; 15] = [0, 0, 0, 0, 0, 0, 0, 0, 0, 0, 0, 0, 0, 0, 0];
        let dst: &mut [u8] = &mut bytes;
        small_memmove::<true>(dst, data);
        let r = InlineData::Inline(InlineBytes { bytes, len: InlineLen::of(data.len()) });
        assert(r.view() =~= data@);
        r
    }

    /// A copy of `a` followed by `b`, in place.
    pub fn concat_inline(a: &[u8], b: &[u8]) -> (r: InlineData)
        requires
            a@.len() + b@.len() <= MAX_INLINE,
        ensures
            r.wf(),
            r is Inline,
            r.view() == a@ + b@,
    {
        let mut inline = InlineBytes::new();
        inline.push(a);
        inline.push(b);
        assert(inline.view() =~= a@ + b@);
        InlineData::Inline(inline)
    }

    /// The number of bytes.
    pub fn len(&self) -> (len: usize)
        requires
            self.wf(),
        ensures
            len == self.view().len(),
    {
        match self {
            InlineData::Inline(inline) => inline.size(),
            InlineData::Tree(tree) => tree.len(),
        }
    }

    /// Whether there are no bytes.
    pub fn is_empty(&self) -> (r: bool)
        requires
            self.wf(),
        ensures
            r == (self.view().len() == 0),
    {
        match self {
            InlineData::Inline(inline) => inline.size() == 0,
            InlineData::Tree(_) => false,
        }
    }

    /// Whether the contents are a tree.
    pub fn is_tree(&self) -> (r: bool)
        ensures
            r == (self is Tree),
    {
        matches!(self, InlineData::Tree(_))
    }

    /// The tree, if the contents are one.
    pub fn tree(&self) -> (r: Option<&Arc<CordRep>>)
        ensures
            r is Some <==> self is Tree,
            r matches Some(tree) ==> *self == InlineData::Tree(*tree),
    {
        match self {
            InlineData::Tree(tree) => Some(tree),
            InlineData::Inline(_) => None,
        }
    }

    /// A borrowed view of the contents.
    pub fn repr(&self) -> (r: Repr<'_>)
        requires
            self.wf(),
        ensures
            match r {
                Repr::Inline(data) => *self is Inline && data@ == self.view(),
                Repr::Tree(tree) => *self == InlineData::Tree(*tree),
            },
    {
        match self {
            InlineData::Inline(inline) => Repr::Inline(inline.as_slice()),
            InlineData::Tree(tree) => Repr::Tree(tree),
        }
    }

    /// Replaces the contents by the tree `rep`.
    pub fn set_tree(&mut self, rep: Arc<CordRep>)
        requires
            rep.is_edge(),
            settled(rep),
        ensures
            final(self).wf(),
            *final(self) == InlineData::Tree(rep),
            final(self).view() == rep.bytes(),
    {
        *self = InlineData::Tree(rep);
    }

    /// Takes the tree, if the contents are one, and leaves no contents.
    pub fn take_tree(&mut self) -> (r: Option<Arc<CordRep>>)
        requires
            old(self).wf(),
        ensures
            final(self).wf(),
            match *old(self) {
                InlineData::Tree(tree) => r == Some(tree) && *final(self) is Inline && final(self).view().len() == 0,
                InlineData::Inline(_) => r is None && *final(self) == *old(self),
            },
    {
        if !self.is_tree() {
            return None;
        }
        let mut taken = Self::new();
        swap(self, &mut taken);
        match taken {
            InlineData::Tree(tree) => Some(tree),
            InlineData::Inline(_) => None,
        }
    }

    /// The number of bytes in place.
    pub fn inline_size(&self) -> (size: usize)
        requires
            self.wf(),
            self is Inline,
        ensures
            size == self.view().len(),
            size <= MAX_INLINE,
    {
        self.len()
    }

    /// The bytes in place.
    pub fn inline_slice(&self) -> (data: &[u8])
        requires
            self.wf(),
            self is Inline,
        ensures
            data@ == self.view(),
    {
        match self {
            InlineData::Inline(inline) => inline.as_slice(),
            InlineData::Tree(_) => &[],
        }
    }

    /// Appends `src` to the bytes in place.
    pub fn push_back_inline(&mut self, src: &[u8])
        requires
            old(self).wf(),
            *old(self) is Inline,
            old(self).view().len() + src@.len() <= MAX_INLINE,
        ensures
            final(self).wf(),
            *final(self) is Inline,
            final(self).view() == old(self).view() + src@,
    {
        if let InlineData::Inline(inline) = self {
            inline.push(src);
        }
    }

    /// Prepends `src` to the bytes in place.
    pub fn push_front_inline(&mut self, src: &[u8])
        requires
            old(self).wf(),
            *old(self) is Inline,
            old(self).view().len() + src@.len() <= MAX_INLINE,
        ensures
            final(self).wf(),
            *final(self) is Inline,
            final(self).view() == src@ + old(self).view(),
    {
        *self = Self::concat_inline(src, self.inline_slice());
    }

    /// Keeps the first `new_len` of the bytes in place.
    pub fn truncate_inline(&mut self, new_len: usize)
        requires
            old(self).wf(),
            *old(self) is Inline,
            new_len <= old(self).view().len(),
        ensures
            final(self).wf(),
            *final(self) is Inline,
            final(self).view() == old(self).view().take(new_len as int),
    {
        if let InlineData::Inline(inline) = self {
            inline.truncate(new_len);
        }
    }

    /// Drops the first `n` of the bytes in place.
    pub fn drop_front_inline(&mut self, n: usize)
        requires
            old(self).wf(),
            *old(self) is Inline,
            n <= old(self).view().len(),
        ensures
            final(self).wf(),
            *final(self) is Inline,
            final(self).view() == old(self).view().skip(n as int),
    {
        let data = self.inline_slice();
        let rest = slice_subrange(data, n, data.len());
        assert(rest@ =~= old(self).view().skip(n as int));
        *self = Self::inline_from(rest);
    }

    /// Copies the bytes in place, and the zeros behind them, to the start of `dst`.
    pub fn copy_max_inline_to(&self, dst: &mut [u8; 15])
        requires
            self.wf(),
            self is Inline,
        ensures
            final(dst)@.take(self.view().len() as int) == self.view(),
            forall|i: int| #![trigger final(dst)@[i]] self.view().len() <= i < MAX_INLINE ==> final(dst)@[i] == 0,
    {
        if let InlineData::Inline(inline) = self {
            *dst = inline.bytes;
        }
    }

    /// A copy that shares the tree.
    pub fn clone_with_ref(&self) -> (copy: InlineData)
        requires
            self.wf(),
        ensures
            copy == *self,
    {
        match self {
            InlineData::Inline(inline) => InlineData::Inline(*inline),
            InlineData::Tree(tree) => InlineData::Tree(tree.clone()),
        }
    }

    /// Whether both hold the same bytes in place, or the same tree.
    pub fn is_same(&self, other: &InlineData) -> (same: bool)
        requires
            self.wf(),
            other.wf(),
        ensures
            same ==> self.view() == other.view(),
            self is Inline && other is Inline ==> same == (self.view() == other.view()),
            self is Inline != other is Inline ==> !same,
            self is Tree && other is Tree && same ==> *self == *other,
            self is Tree && other is Tree && !same ==> lie_apart(self->Tree_0, other->Tree_0),
    {
        match (self, other) {
            (InlineData::Inline(a), InlineData::Inline(b)) => {
                if a.size() != b.size() {
                    assert(self.view().len() != other.view().len());
                    return false;
                }
                let mut i: usize = 0;
                while i < a.size()
                    invariant
                        i <= a.size(),
                        a.size() == b.size(),
                        a.size() <= MAX_INLINE,
                        a.view().take(i as int) =~= b.view().take(i as int),
                        self.view() == a.view(),
                        other.view() == b.view(),
                        self is Inline,
                        other is Inline,
                        a.bytes@.len() == MAX_INLINE,
                        b.bytes@.len() == MAX_INLINE,
                    decreases a.size() - i,
                {
                    if a.bytes[i] != b.bytes[i] {
                        assert(a.view()[i as int] != b.view()[i as int]);
                        return false;
                    }
                    assert(a.view()[i as int] == b.view()[i as int]);
                    i += 1;
                }
                assert(a.view().take(i as int) =~= a.view());
                assert(b.view().take(i as int) =~= b.view());
                true
            },
            (InlineData::Tree(a), InlineData::Tree(b)) => same_node(a, b),
            _ => false,
        }
    }

    /// The lexicographic order of the bytes in place: that of the bytes with the
    /// zeros behind them, and then that of their number.
    pub fn compare(&self, rhs: &InlineData) -> (r: Ordering)
        requires
            self.wf(),
            rhs.wf(),
            self is Inline,
            rhs is Inline,
        ensures
            r == lex(self.view(), rhs.view()),
    {
        match (self, rhs) {
            (InlineData::Inline(a), InlineData::Inline(b)) => {
                let mut i: usize = 0;
                while i < MAX_INLINE
                    invariant
                        i <= MAX_INLINE,
                        a.bytes@.take(at(i)) =~= b.bytes@.take(at(i)),
                        a.wf(),
                        b.wf(),
                        self.view() == a.view(),
                        rhs.view() == b.view(),
                    decreases MAX_INLINE - i,
                {
                    let x: u8 = a.bytes[i];
                    let y: u8 = b.bytes[i];
                    if x < y {
                        proof {
                            lemma_padded_differ(*a, *b, at(i));
                        }
                        return Ordering::Less;
                    }
                    if x > y {
                        proof {
                            lemma_padded_differ(*a, *b, at(i));
                        }
                        return Ordering::Greater;
                    }
                    i += 1;
                }
                proof {
                    lemma_padded_equal(*a, *b);
                }
                if a.size() < b.size() {
                    Ordering::Less
                } else if a.size() > b.size() {
                    Ordering::Greater
                } else {
                    Ordering::Equal
                }
            },
            _ => Ordering::Equal,
        }
    }
}

/// The first difference of bytes with zeros behind them decides their order.
proof fn lemma_padded_differ(a: InlineBytes, b: InlineBytes, i: int)
    requires
        a.wf(),
        b.wf(),
        0 <= i < MAX_INLINE,
        a.bytes@.take(i) == b.bytes@.take(i),
        a.bytes@[i] != b.bytes@[i],
    ensures
        lex(a.view(), b.view()) == if a.bytes@[i] < b.bytes@[i] { Ordering::Less } else { Ordering::Greater },
{
    assert(a.bytes@.len() == 15 && b.bytes@.len() == 15);
    assert forall|k: int| 0 <= k < i implies #[trigger] a.bytes@[k] == b.bytes@[k] by {
        assert(a.bytes@.take(i)[k] == a.bytes@[k]);
        assert(b.bytes@.take(i)[k] == b.bytes@[k]);
    }
    if i < a.size() && i < b.size() {
        assert(a.view().take(i) =~= b.view().take(i));
        lemma_lex_differ(a.view(), b.view(), i);
    } else if i < a.size() {
        assert(b.view() =~= a.view().take(len_of(b.view())));
        lemma_lex_prefix(b.view(), a.view());
    } else {
        assert(a.view() =~= b.view().take(len_of(a.view())));
        lemma_lex_prefix(a.view(), b.view());
    }
}

/// Where the bytes with zeros behind them are equal, their number decides.
proof fn lemma_padded_equal(a: InlineBytes, b: InlineBytes)
    requires
        a.wf(),
        b.wf(),
        a.bytes@.take(15) == b.bytes@.take(15),
    ensures
        lex(a.view(), b.view()) == if a.size() < b.size() {
            Ordering::Less
        } else if a.size() > b.size() {
            Ordering::Greater
        } else {
            Ordering::Equal
        },
{
    assert(a.bytes@.len() == 15 && b.bytes@.len() == 15);
    assert forall|k: int| 0 <= k < 15 implies #[trigger] a.bytes@[k] == b.bytes@[k] by {
        assert(a.bytes@.take(15)[k] == a.bytes@[k]);
        assert(b.bytes@.take(15)[k] == b.bytes@[k]);
    }
    if a.size() <= b.size() {
        assert(a.view() =~= b.view().take(len_of(a.view())));
        lemma_lex_prefix(a.view(), b.view());
    } else {
        assert(b.view() =~= a.view().take(len_of(b.view())));
        lemma_lex_prefix(b.view(), a.view());
    }
}

} // verus!
