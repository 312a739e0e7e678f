//! Comparing cords, and searching them.

use crate::cord::Cord;
use crate::iter::{Chunks, Cursor};
use crate::order::{compare_slices, equal_slices, law_lex_equal, lemma_lex_common, lemma_lex_prefix, lex};
use crate::seqs::at;
use crate::source::CordLike;
use core::cmp::Ordering;
use vstd::prelude::*;
use vstd::slice::slice_subrange;

verus! {

/// `needle` occurs in `bytes` at `i`.
pub open spec fn occurs_at(bytes: Seq<u8>, needle: Seq<u8>, i: int) -> bool {
    &&& 0 <= i
    &&& i + needle.len() <= bytes.len()
    &&& bytes.subrange(i, i + needle.len()) == needle
}

/// `needle` occurs in `bytes` at no index from `start` up to, but not including, `end`.
pub open spec fn absent(bytes: Seq<u8>, needle: Seq<u8>, start: int, end: int) -> bool {
    forall|i: int| start <= i < end ==> !#[trigger] occurs_at(bytes, needle, i)
}

/// Where the first byte of `needle` is not, `needle` does not occur.
proof fn lemma_first_byte(bytes: Seq<u8>, needle: Seq<u8>, i: int)
    requires
        0 <= i < bytes.len(),
        needle.len() > 0,
        bytes[i] != needle[0],
    ensures
        !occurs_at(bytes, needle, i),
{
    if occurs_at(bytes, needle, i) {
        assert(bytes.subrange(i, i + needle.len())[0] == bytes[i]);
    }
}

/// Where the start of `needle` does not occur, `needle` does not occur.
proof fn lemma_start_absent(bytes: Seq<u8>, needle: Seq<u8>, n: int, start: int, end: int)
    requires
        0 <= n <= needle.len(),
        absent(bytes, needle.take(n), start, end),
    ensures
        absent(bytes, needle, start, end),
{
    assert forall|i: int| start <= i < end implies !#[trigger] occurs_at(bytes, needle, i) by {
        if occurs_at(bytes, needle, i) {
            assert(bytes.subrange(i, i + n) =~= bytes.subrange(i, i + needle.len()).take(n));
            assert(occurs_at(bytes, needle.take(n), i));
        }
    }
}

/// The index of the first `byte` in `data`, or the length of `data` if there is none.
fn index_of_byte(data: &[u8], byte: u8) -> (index: usize)
    ensures
        index <= data@.len(),
        index < data@.len() ==> data@[index as int] == byte,
        forall|i: int| 0 <= i < index ==> data@[i] != byte,
{
    let mut i: usize = 0;
    while i < data.len()
        invariant
            i <= data@.len(),
            forall|k: int| 0 <= k < i ==> data@[k] != byte,
        decreases data@.len() - i,
    {
        if data[i] == byte {
            return i;
        }
        i += 1;
    }
    i
}

/// Moves `it` to the next occurrence of `needle`. Returns whether there is one.
pub(crate) fn find_impl(it: &mut Cursor<'_>, needle: &[u8]) -> (found: bool)
    requires
        old(it).wf(),
        needle@.len() > 0,
    ensures
        final(it).wf(),
        final(it).source() == old(it).source(),
        found ==> {
            &&& old(it).at() <= final(it).at()
            &&& occurs_at(final(it).bytes(), needle@, final(it).at())
            &&& absent(final(it).bytes(), needle@, old(it).at(), final(it).at())
        },
        !found ==> absent(final(it).bytes(), needle@, old(it).at(), final(it).bytes().len() as int),
{
    let ghost bytes = it.bytes();
    let ghost start = it.at();
    let n: usize = needle.len();
    while it.remaining() >= n
        invariant
            it.wf(),
            it.source() == old(it).source(),
            n == needle@.len(),
            n > 0,
            start <= it.at(),
            start == old(it).at(),
            bytes == old(it).bytes(),
            absent(bytes, needle@, start, it.at()),
        decreases it.rest().len(),
    {
        let ghost here = it.at();
        let chunk = it.chunk();
        proof {
            it.lemma_at();
        }
        let index: usize = index_of_byte(chunk, needle[0]);
        proof {
            assert forall|i: int| start <= i < here + index implies !#[trigger] occurs_at(bytes, needle@, i) by {
                if i >= here {
                    assert(chunk@[i - here] == it.rest()[i - here]);
                    lemma_first_byte(bytes, needle@, i);
                }
            }
        }
        it.advance(index);
        if index < chunk.len() {
            proof {
                it.lemma_at();
            }
            if it.remaining() < n {
                proof {
                    lemma_too_short(bytes, needle@, start, it.at());
                }
                return false;
            }
            if is_slice_at(it.clone(), needle) {
                proof {
                    assert(it.rest().take(n as int) =~= bytes.subrange(it.at(), it.at() + n));
                }
                return true;
            }
            proof {
                assert(it.rest().take(n as int) =~= bytes.subrange(it.at(), it.at() + n));
            }
            it.advance(1);
        }
    }
    proof {
        it.lemma_at();
        lemma_too_short(bytes, needle@, start, it.at());
    }
    false
}

/// `needle` does not occur where fewer bytes follow than it has.
proof fn lemma_too_short(bytes: Seq<u8>, needle: Seq<u8>, start: int, end: int)
    requires
        absent(bytes, needle, start, end),
        bytes.len() - end < needle.len(),
    ensures
        absent(bytes, needle, start, bytes.len() as int),
{
}

/// Whether the bytes at `position` start with `needle`.
pub(crate) fn is_slice_at(position: Cursor<'_>, needle: &[u8]) -> (r: bool)
    requires
        position.wf(),
        needle@.len() <= position.rest().len(),
    ensures
        r == (position.rest().take(needle@.len() as int) == needle@),
{
    let ghost all = position.rest();
    let mut it = position;
    let mut done: usize = 0;
    let n: usize = needle.len();
    assert(all.skip(0) =~= all);
    while done < n
        invariant
            it.wf(),
            all == position.rest(),
            done <= n,
            n == needle@.len(),
            n <= all.len(),
            it.rest() == all.skip(done as int),
            all.take(done as int) =~= needle@.take(done as int),
        decreases n - done,
    {
        let chunk = it.chunk();
        let min: usize = if chunk.len() <= n - done {
            chunk.len()
        } else {
            n - done
        };
        let a = slice_subrange(chunk, 0, min);
        let b = slice_subrange(needle, done, done + min);
        assert(a@ =~= all.subrange(done as int, done + min));
        if !equal_slices(a, b) {
            proof {
                if all.take(n as int) == needle@ {
                    assert(all.subrange(done as int, done + min) =~= all.take(n as int).subrange(
                        done as int,
                        done + min,
                    ));
                    assert(false);
                }
            }
            return false;
        }
        it.advance(min);
        proof {
            assert(all.take(done + min) =~= all.take(done as int) + a@);
            assert(needle@.take(done + min) =~= needle@.take(done as int) + b@);
            assert(all.skip(done as int).skip(min as int) =~= all.skip(done + min));
        }
        done = done + min;
    }
    assert(needle@.take(n as int) =~= needle@);
    true
}

/// Whether the bytes at `haystack` start with the bytes of `needle`.
pub(crate) fn is_subcord_at(haystack: Cursor<'_>, needle: Chunks<'_>) -> (r: bool)
    requires
        haystack.wf(),
        needle.wf(),
        needle.rest().len() <= haystack.rest().len(),
    ensures
        r == (haystack.rest().take(needle.rest().len() as int) == needle.rest()),
{
    let ghost all = haystack.rest();
    let ghost wanted = needle.rest();
    let ghost mut done: int = 0;
    let mut it = haystack;
    let mut chunks = needle;
    proof {
        assert(all.skip(0) =~= all);
        assert(wanted.skip(0) =~= wanted);
    }
    while chunks.remaining() > 0
        invariant
            it.wf(),
            chunks.wf(),
            all == haystack.rest(),
            wanted == needle.rest(),
            0 <= done <= wanted.len() <= all.len(),
            it.rest() == all.skip(done),
            chunks.rest() == wanted.skip(done),
            all.take(done) =~= wanted.take(done),
        decreases chunks.rest().len(),
    {
        let ghost left = chunks.rest();
        let chunk = chunks.next().unwrap();
        let ghost n = chunk@.len() as int;
        proof {
            assert(chunk@ =~= left.take(n));
            assert(chunk@ =~= wanted.subrange(done, done + n));
            assert(it.rest().take(n) =~= all.subrange(done, done + n));
        }
        if !is_slice_at(it.clone(), chunk) {
            proof {
                if all.take(wanted.len() as int) == wanted {
                    assert(all.subrange(done, done + n) =~= all.take(wanted.len() as int).subrange(done, done + n));
                    assert(false);
                }
            }
            return false;
        }
        it.advance(chunk.len());
        proof {
            assert(all.take(done + n) =~= all.take(done) + chunk@);
            assert(wanted.take(done + n) =~= wanted.take(done) + chunk@);
            assert(all.skip(done).skip(n) =~= all.skip(done + n));
            assert(chunks.rest() =~= left.skip(n));
            assert(wanted.skip(done).skip(n) =~= wanted.skip(done + n));
            done = done + n;
        }
    }
    proof {
        assert(wanted.take(wanted.len() as int) =~= wanted);
    }
    true
}

/// Whether `needle` occurs at the position of `haystack`, which has bytes enough behind it.
fn occurs_here<N: CordLike + ?Sized>(haystack: &Cursor<'_>, needle: &N) -> (r: bool)
    requires
        haystack.wf(),
        needle.like_bytes().len() <= haystack.rest().len(),
    ensures
        r == occurs_at(haystack.bytes(), needle.like_bytes(), haystack.at()),
{
    proof {
        haystack.lemma_at();
        let n = needle.like_bytes().len() as int;
        assert(haystack.rest().take(n) =~= haystack.bytes().subrange(haystack.at(), haystack.at() + n));
    }
    is_subcord_at(haystack.clone(), needle.chunks())
}

impl Cord {
    /// The index of the first occurrence of `needle`.
    pub fn find<N: CordLike + ?Sized>(&self, needle: &N) -> (r: Option<usize>)
        ensures
            match r {
                Some(i) => {
                    &&& occurs_at(self@, needle.like_bytes(), i as int)
                    &&& absent(self@, needle.like_bytes(), 0, i as int)
                },
                None => absent(self@, needle.like_bytes(), 0, self@.len() as int + 1),
            },
    {
        let ghost wanted = needle.like_bytes();
        let size: usize = needle.len();
        if size == 0 {
            assert(self@.subrange(0, 0) =~= wanted);
            return Some(0);
        }
        if size > self.len() {
            return None;
        }
        let mut haystack = self.cursor();
        if size == self.len() {
            return if occurs_here(&haystack, needle) {
                Some(0)
            } else {
                None
            };
        }
        let chunk = needle.first_chunk();
        if chunk.len() == size {
            assert(wanted.take(size as int) =~= wanted);
            return if find_impl(&mut haystack, chunk) {
                Some(haystack.position())
            } else {
                None
            };
        }
        while haystack.remaining() >= size
            invariant
                haystack.wf(),
                haystack.bytes() == self@,
                wanted == needle.like_bytes(),
                size == wanted.len(),
                0 < chunk@.len() < size,
                chunk@ == wanted.take(chunk@.len() as int),
                absent(self@, wanted, 0, haystack.at()),
            decreases haystack.rest().len(),
        {
            let ghost here = haystack.at();
            if !find_impl(&mut haystack, chunk) {
                proof {
                    lemma_start_absent(self@, wanted, chunk@.len() as int, here, self@.len() as int);
                }
                return None;
            }
            proof {
                haystack.lemma_at();
                lemma_start_absent(self@, wanted, chunk@.len() as int, here, haystack.at());
            }
            if haystack.remaining() < size {
                proof {
                    lemma_too_short(self@, wanted, 0, haystack.at());
                }
                return None;
            }
            if occurs_here(&haystack, needle) {
                return Some(haystack.position());
            }
            haystack.advance(1);
        }
        proof {
            haystack.lemma_at();
            lemma_too_short(self@, wanted, 0, haystack.at());
        }
        None
    }

    /// Whether `needle` occurs in the cord.
    pub fn contains<N: CordLike + ?Sized>(&self, needle: &N) -> (r: bool)
        ensures
            r == exists|i: int| #[trigger] occurs_at(self@, needle.like_bytes(), i),
    {
        let found = self.find(needle);
        proof {
            if exists|i: int| #[trigger] occurs_at(self@, needle.like_bytes(), i) {
                let i = choose|i: int| #[trigger] occurs_at(self@, needle.like_bytes(), i);
                assert(i <= self@.len());
            }
        }
        found.is_some()
    }

    /// Whether the cord starts with `prefix`.
    pub fn starts_with<P: CordLike + ?Sized>(&self, prefix: &P) -> (r: bool)
        ensures
            r == prefix.like_bytes().is_prefix_of(self@),
    {
        let size: usize = prefix.len();
        if self.len() < size {
            return false;
        }
        proof {
            let wanted = prefix.like_bytes();
            law_lex_equal(self@.take(at(size)), wanted.take(at(size)));
            assert(wanted.take(at(size)) =~= wanted);
            assert(self@.take(at(size)) =~= self@.subrange(0, at(size)));
        }
        matches!(self.compare_prefix(prefix, size), Ordering::Equal)
    }

    /// Whether the cord ends with `suffix`.
    pub fn ends_with<S: CordLike + ?Sized>(&self, suffix: &S) -> (r: bool)
        ensures
            r == suffix.like_bytes().is_suffix_of(self@),
    {
        let len: usize = self.len();
        let size: usize = suffix.len();
        if len < size {
            return false;
        }
        let mut tail = self.clone();
        tail.advance(len - size);
        proof {
            let wanted = suffix.like_bytes();
            law_lex_equal(tail@.take(at(size)), wanted.take(at(size)));
            assert(wanted.take(at(size)) =~= wanted);
            assert(tail@.take(at(size)) =~= self@.subrange(len - size, at(len)));
        }
        matches!(tail.compare_prefix(suffix, size), Ordering::Equal)
    }

    /// How the cord compares with `rhs` in lexicographic order.
    pub fn compare<R: CordLike + ?Sized>(&self, rhs: &R) -> (r: Ordering)
        ensures
            r == lex(self@, rhs.like_bytes()),
    {
        if let Some(other) = rhs.as_cord() {
            if self.data().is_same(other.data()) {
                proof {
                    law_lex_equal(self@, other@);
                }
                return Ordering::Equal;
            }
            if !self.data().is_tree() && !other.data().is_tree() {
                return self.data().compare(other.data());
            }
        }
        let lhs_size: usize = self.len();
        let rhs_size: usize = rhs.len();
        let size: usize = if lhs_size <= rhs_size {
            lhs_size
        } else {
            rhs_size
        };
        let result = self.compare_prefix(rhs, size);
        proof {
            lemma_lex_take(self@, rhs.like_bytes(), at(size));
        }
        match result {
            Ordering::Equal => {
                if lhs_size < rhs_size {
                    Ordering::Less
                } else if lhs_size > rhs_size {
                    Ordering::Greater
                } else {
                    Ordering::Equal
                }
            },
            _ => result,
        }
    }

    /// Whether the cord has the same bytes as `rhs`.
    pub fn equals<R: CordLike + ?Sized>(&self, rhs: &R) -> (r: bool)
        ensures
            r == (self@ == rhs.like_bytes()),
    {
        let size: usize = rhs.len();
        if self.len() != size {
            return false;
        }
        if let Some(other) = rhs.as_cord() {
            if self.data().is_same(other.data()) {
                return true;
            }
        }
        proof {
            law_lex_equal(self@, rhs.like_bytes());
            assert(self@.take(at(size)) =~= self@);
            assert(rhs.like_bytes().take(at(size)) =~= rhs.like_bytes());
        }
        matches!(self.compare_prefix(rhs, size), Ordering::Equal)
    }

    /// How the first `size` bytes of the cord and of `rhs` compare.
    fn compare_prefix<R: CordLike + ?Sized>(&self, rhs: &R, size: usize) -> (r: Ordering)
        requires
            size <= self@.len(),
            size <= rhs.like_bytes().len(),
            size == self@.len() || size == rhs.like_bytes().len(),
        ensures
            r == lex(self@.take(at(size)), rhs.like_bytes().take(at(size))),
    {
        let lhs_chunk = self.first_chunk();
        let rhs_chunk = rhs.first_chunk();
        let shorter: usize = if lhs_chunk.len() <= rhs_chunk.len() {
            lhs_chunk.len()
        } else {
            rhs_chunk.len()
        };
        // Only one of the two may be as long as its first chunk, so this is no more than `size`.
        let compared: usize = if shorter <= size {
            shorter
        } else {
            size
        };
        let ghost a = self@.take(at(size));
        let ghost b = rhs.like_bytes().take(at(size));
        let lhs_head = slice_subrange(lhs_chunk, 0, compared);
        let rhs_head = slice_subrange(rhs_chunk, 0, compared);
        let result = compare_slices(lhs_head, rhs_head);
        proof {
            assert(lhs_head@ =~= a.take(at(compared)));
            assert(rhs_head@ =~= b.take(at(compared)));
            assert(lhs_head@ =~= self@.take(at(compared)));
            assert(rhs_head@ =~= rhs.like_bytes().take(at(compared)));
            lemma_lex_take(a, b, at(compared));
            if compared == size {
                assert(a.take(at(compared)) =~= a);
                assert(b.take(at(compared)) =~= b);
            }
        }
        match result {
            Ordering::Equal => {
                if compared == size {
                    return result;
                }
                self.compare_slow_path(rhs, compared, size)
            },
            _ => result,
        }
    }

    /// How the first `size` bytes of the cord and of `rhs` compare, where the
    /// first `compared` of them are equal.
    fn compare_slow_path<R: CordLike + ?Sized>(&self, rhs: &R, compared: usize, size: usize) -> (r: Ordering)
        requires
            compared <= size <= self@.len(),
            size <= rhs.like_bytes().len(),
            lex(self@.take(at(compared)), rhs.like_bytes().take(at(compared))) == Ordering::Equal,
        ensures
            r == lex(self@.take(at(size)), rhs.like_bytes().take(at(size))),
    {
        let ghost a = self@;
        let ghost b = rhs.like_bytes();
        let mut lhs_it = self.chunks();
        let mut rhs_it = rhs.chunks();
        lhs_it.advance_bytes(compared);
        rhs_it.advance_bytes(compared);
        let mut lhs_chunk: &[u8] = &[];
        let mut rhs_chunk: &[u8] = &[];
        let mut done: usize = compared;
        proof {
            law_lex_equal(a.take(at(compared)), b.take(at(compared)));
            assert(lhs_chunk@ + lhs_it.rest() =~= a.skip(at(done)));
            assert(rhs_chunk@ + rhs_it.rest() =~= b.skip(at(done)));
        }
        while done < size
            invariant
                lhs_it.wf(),
                rhs_it.wf(),
                compared <= done <= size <= a.len(),
                size <= b.len(),
                a == self@,
                b == rhs.like_bytes(),
                a.take(at(done)) == b.take(at(done)),
                lhs_chunk@ + lhs_it.rest() == a.skip(at(done)),
                rhs_chunk@ + rhs_it.rest() == b.skip(at(done)),
            decreases size - done,
        {
            lhs_chunk = refill(&mut lhs_it, lhs_chunk);
            rhs_chunk = refill(&mut rhs_it, rhs_chunk);
            let lhs_len: usize = lhs_chunk.len();
            let rhs_len: usize = rhs_chunk.len();
            let shorter: usize = if lhs_len <= rhs_len {
                lhs_len
            } else {
                rhs_len
            };
            let n: usize = if shorter <= size - done {
                shorter
            } else {
                size - done
            };
            let lhs_head = slice_subrange(lhs_chunk, 0, n);
            let rhs_head = slice_subrange(rhs_chunk, 0, n);
            let result = compare_slices(lhs_head, rhs_head);
            proof {
                lemma_split(lhs_chunk@, lhs_it.rest(), a, at(done), at(n));
                lemma_split(rhs_chunk@, rhs_it.rest(), b, at(done), at(n));
                lemma_step(a, b, at(done), at(n), at(size), lhs_head@, rhs_head@);
            }
            match result {
                Ordering::Equal => {},
                _ => {
                    return result;
                },
            }
            lhs_chunk = slice_subrange(lhs_chunk, n, lhs_len);
            rhs_chunk = slice_subrange(rhs_chunk, n, rhs_len);
            done = done + n;
        }
        proof {
            law_lex_equal(a.take(at(size)), b.take(at(size)));
        }
        Ordering::Equal
    }
}

/// `chunk`, or the next chunk of `it` if `chunk` is used up.
fn refill<'a>(it: &mut Chunks<'a>, chunk: &'a [u8]) -> (r: &'a [u8])
    requires
        old(it).wf(),
        (chunk@ + old(it).rest()).len() > 0,
    ensures
        final(it).wf(),
        r@.len() > 0,
        r@ + final(it).rest() == chunk@ + old(it).rest(),
{
    if chunk.len() > 0 {
        return chunk;
    }
    assert(chunk@ + it.rest() =~= it.rest());
    it.next().unwrap()
}

/// The first `n` bytes of `chunk`, and what follows them, among the bytes `all` from `done` on.
proof fn lemma_split(chunk: Seq<u8>, rest: Seq<u8>, all: Seq<u8>, done: int, n: int)
    requires
        0 <= done <= all.len(),
        0 <= n <= chunk.len(),
        chunk + rest == all.skip(done),
    ensures
        chunk.subrange(0, n) == all.skip(done).take(n),
        chunk.subrange(n, chunk.len() as int) + rest == all.skip(done + n),
{
    let tail = all.skip(done);
    assert(chunk.subrange(0, n) =~= tail.take(n));
    assert(chunk.subrange(n, chunk.len() as int) + rest =~= tail.skip(n));
    assert(tail.skip(n) =~= all.skip(done + n));
}

/// Equal bytes continue an equal start, and the first difference decides.
proof fn lemma_step(a: Seq<u8>, b: Seq<u8>, done: int, n: int, size: int, x: Seq<u8>, y: Seq<u8>)
    requires
        0 <= done,
        0 <= n,
        done + n <= size <= a.len(),
        size <= b.len(),
        a.take(done) == b.take(done),
        x == a.skip(done).take(n),
        y == b.skip(done).take(n),
    ensures
        lex(x, y) == Ordering::Equal ==> a.take(done + n) == b.take(done + n),
        lex(x, y) != Ordering::Equal ==> lex(a.take(size), b.take(size)) == lex(x, y),
{
    law_lex_equal(x, y);
    assert(a.take(done + n) =~= a.take(done) + x);
    assert(b.take(done + n) =~= b.take(done) + y);
    lemma_lex_common(a.take(done), x, y);
    let c = a.take(size);
    let d = b.take(size);
    assert(c.take(done + n) =~= a.take(done + n));
    assert(d.take(done + n) =~= b.take(done + n));
    lemma_lex_take(c, d, done + n);
}

/// The order of two sequences from that of their starts.
proof fn lemma_lex_take(a: Seq<u8>, b: Seq<u8>, n: int)
    requires
        0 <= n <= a.len(),
        n <= b.len(),
    ensures
        lex(a.take(n), b.take(n)) != Ordering::Equal ==> lex(a, b) == lex(a.take(n), b.take(n)),
        lex(a.take(n), b.take(n)) == Ordering::Equal && (n == a.len() || n == b.len()) ==> lex(a, b)
            == if a.len() < b.len() {
            Ordering::Less
        } else if a.len() > b.len() {
            Ordering::Greater
        } else {
            Ordering::Equal
        },
    decreases n,
{
    law_lex_equal(a.take(n), b.take(n));
    if a.take(n) == b.take(n) {
        if n == a.len() {
            assert(a =~= a.take(n));
            lemma_lex_prefix(a, b);
        } else if n == b.len() {
            assert(b =~= b.take(n));
            lemma_lex_prefix(b, a);
        }
    } else if n > 0 && a[0] == b[0] {
        assert(a.take(n).drop_first() =~= a.drop_first().take(n - 1));
        assert(b.take(n).drop_first() =~= b.drop_first().take(n - 1));
        assert(a.take(n)[0] == a[0] && b.take(n)[0] == b[0]);
        lemma_lex_take(a.drop_first(), b.drop_first(), n - 1);
    } else if n > 0 {
        assert(a.take(n)[0] == a[0] && b.take(n)[0] == b[0]);
    } else {
        assert(a.take(n) =~= b.take(n));
    }
}

} // verus!
