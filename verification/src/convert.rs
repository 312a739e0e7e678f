//! Conversions to and from cords, and operators.

use crate::buffer::CordBuffer;
use crate::cord::{is_flat_of, Cord};
use crate::edit::{
    copied_in_parts, extends_back, lemma_copied_part, lemma_extends_same, lemma_extends_twice, made_of_owner,
};
use crate::inline_data::InlineData;
use crate::iter::chunks_of;
use crate::order::{law_lex_reverse, lex};
use crate::rep::external::{CordRepExternal, Owner};
use crate::rep::flat::MAX_FLAT_LENGTH;
use crate::rep::pieces::cut;
use crate::rep::{CordRep, MAX_BYTES_TO_COPY, MAX_INLINE};
use crate::source::{boxed_bytes, string_capacity, vec_capacity, CordLike, CordSource, StaticSource};
use core::cmp::Ordering;
use core::ops::Index;
use std::borrow::Cow;
use std::string::FromUtf8Error;
use std::sync::Arc;
use vstd::prelude::*;
use vstd::slice::slice_subrange;
use vstd::std_specs::convert::{FromSpecImpl, TryFromSpecImpl};
use vstd::utf8::{encode_utf8, valid_utf8};

verus! {

impl From<&[u8]> for Cord {
    /// A copy of `data`.
    fn from(data: &[u8]) -> (cord: Cord)
        ensures
            cord@ == data@,
            data@.len() <= MAX_INLINE <==> cord.contents() is Inline,
            MAX_INLINE < data@.len() <= MAX_FLAT_LENGTH ==> is_flat_of(cord.contents(), data@.len() as int),
            chunks_of(cord.contents()) == cut(true, data@),
    {
        Cord::copy_from_slice(data)
    }
}

impl FromSpecImpl<&[u8]> for Cord {
    open spec fn obeys_from_spec() -> bool {
        false
    }

    open spec fn from_spec(data: &[u8]) -> Cord {
        arbitrary()
    }
}

impl From<&str> for Cord {
    /// A copy of the bytes of `data`.
    fn from(data: &str) -> (cord: Cord)
        ensures
            cord@ == encode_utf8(data@),
            encode_utf8(data@).len() <= MAX_INLINE <==> cord.contents() is Inline,
            MAX_INLINE < encode_utf8(data@).len() <= MAX_FLAT_LENGTH ==> is_flat_of(
                cord.contents(),
                encode_utf8(data@).len() as int,
            ),
            chunks_of(cord.contents()) == cut(true, encode_utf8(data@)),
    {
        Cord::copy_from_slice(data.as_bytes())
    }
}

impl FromSpecImpl<&str> for Cord {
    open spec fn obeys_from_spec() -> bool {
        false
    }

    open spec fn from_spec(data: &str) -> Cord {
        arbitrary()
    }
}

impl From<&Vec<u8>> for Cord {
    /// A copy of `data`.
    fn from(data: &Vec<u8>) -> (cord: Cord)
        ensures
            cord@ == data@,
            data@.len() <= MAX_INLINE <==> cord.contents() is Inline,
            MAX_INLINE < data@.len() <= MAX_FLAT_LENGTH ==> is_flat_of(cord.contents(), data@.len() as int),
            chunks_of(cord.contents()) == cut(true, data@),
    {
        Cord::copy_from_slice(data.as_slice())
    }
}

impl FromSpecImpl<&Vec<u8>> for Cord {
    open spec fn obeys_from_spec() -> bool {
        false
    }

    open spec fn from_spec(data: &Vec<u8>) -> Cord {
        arbitrary()
    }
}

impl From<&String> for Cord {
    /// A copy of the bytes of `data`.
    fn from(data: &String) -> (cord: Cord)
        ensures
            cord@ == encode_utf8(data@),
            encode_utf8(data@).len() <= MAX_INLINE <==> cord.contents() is Inline,
            MAX_INLINE < encode_utf8(data@).len() <= MAX_FLAT_LENGTH ==> is_flat_of(
                cord.contents(),
                encode_utf8(data@).len() as int,
            ),
            chunks_of(cord.contents()) == cut(true, encode_utf8(data@)),
    {
        Cord::copy_from_slice(data.as_str().as_bytes())
    }
}

impl FromSpecImpl<&String> for Cord {
    open spec fn obeys_from_spec() -> bool {
        false
    }

    open spec fn from_spec(data: &String) -> Cord {
        arbitrary()
    }
}

impl<const N: usize> From<&[u8; N]> for Cord {
    /// A copy of `data`.
    fn from(data: &[u8; N]) -> (cord: Cord)
        ensures
            cord@ == data@,
            data@.len() <= MAX_INLINE <==> cord.contents() is Inline,
            MAX_INLINE < data@.len() <= MAX_FLAT_LENGTH ==> is_flat_of(cord.contents(), data@.len() as int),
            chunks_of(cord.contents()) == cut(true, data@),
    {
        Cord::copy_from_slice(data.as_slice())
    }
}

impl<const N: usize> FromSpecImpl<&[u8; N]> for Cord {
    open spec fn obeys_from_spec() -> bool {
        false
    }

    open spec fn from_spec(data: &[u8; N]) -> Cord {
        arbitrary()
    }
}

impl<const N: usize> From<[u8; N]> for Cord {
    /// A copy of `data`.
    fn from(data: [u8; N]) -> (cord: Cord)
        ensures
            cord@ == data@,
            data@.len() <= MAX_INLINE <==> cord.contents() is Inline,
            MAX_INLINE < data@.len() <= MAX_FLAT_LENGTH ==> is_flat_of(cord.contents(), data@.len() as int),
            chunks_of(cord.contents()) == cut(true, data@),
    {
        Cord::copy_from_slice(data.as_slice())
    }
}

impl<const N: usize> FromSpecImpl<[u8; N]> for Cord {
    open spec fn obeys_from_spec() -> bool {
        false
    }

    open spec fn from_spec(data: [u8; N]) -> Cord {
        arbitrary()
    }
}

impl From<Vec<u8>> for Cord {
    /// The bytes of `data`: `data` itself if they are many and fill at least half of it, and otherwise a copy.
    fn from(data: Vec<u8>) -> (cord: Cord)
        ensures
            cord@ == data@,
            data@.len() <= MAX_INLINE <==> cord.contents() is Inline,
            MAX_INLINE < data@.len() <= MAX_BYTES_TO_COPY ==> is_flat_of(cord.contents(), data@.len() as int),
            data@.len() <= MAX_BYTES_TO_COPY ==> chunks_of(cord.contents()) == cut(true, data@),
            made_of_owner(cord, Owner::Vector(data)),
    {
        let capacity: usize = vec_capacity(&data);
        Cord::from_owned(Owner::Vector(data), capacity)
    }
}

impl FromSpecImpl<Vec<u8>> for Cord {
    open spec fn obeys_from_spec() -> bool {
        false
    }

    open spec fn from_spec(data: Vec<u8>) -> Cord {
        arbitrary()
    }
}

impl From<String> for Cord {
    /// The bytes of `data`: `data` itself if they are many and fill at least half of it, and otherwise a copy.
    fn from(data: String) -> (cord: Cord)
        ensures
            cord@ == encode_utf8(data@),
            encode_utf8(data@).len() <= MAX_INLINE <==> cord.contents() is Inline,
            MAX_INLINE < encode_utf8(data@).len() <= MAX_BYTES_TO_COPY ==> is_flat_of(
                cord.contents(),
                encode_utf8(data@).len() as int,
            ),
            encode_utf8(data@).len() <= MAX_BYTES_TO_COPY ==> chunks_of(cord.contents()) == cut(true, encode_utf8(data@)),
            made_of_owner(cord, Owner::Text(data)),
    {
        let capacity: usize = string_capacity(&data);
        Cord::from_owned(Owner::Text(data), capacity)
    }
}

impl FromSpecImpl<String> for Cord {
    open spec fn obeys_from_spec() -> bool {
        false
    }

    open spec fn from_spec(data: String) -> Cord {
        arbitrary()
    }
}

impl<'a> From<Cow<'a, [u8]>> for Cord {
    /// A copy of borrowed bytes; owned ones are treated like any owned value.
    fn from(data: Cow<'a, [u8]>) -> (cord: Cord)
        ensures
            cord@ == data@,
            data@.len() <= MAX_INLINE <==> cord.contents() is Inline,
            data is Borrowed ==> chunks_of(cord.contents()) == cut(true, data@),
            MAX_INLINE < data@.len() <= MAX_BYTES_TO_COPY ==> is_flat_of(
                cord.contents(),
                data@.len() as int,
            ),
            data matches Cow::Owned(owned) ==> made_of_owner(cord, Owner::Vector(owned)),
    {
        match data {
            Cow::Borrowed(data) => Cord::from(data),
            Cow::Owned(data) => Cord::from(data),
        }
    }
}

impl<'a> FromSpecImpl<Cow<'a, [u8]>> for Cord {
    open spec fn obeys_from_spec() -> bool {
        false
    }

    open spec fn from_spec(data: Cow<'a, [u8]>) -> Cord {
        arbitrary()
    }
}

impl<'a> From<Cow<'a, str>> for Cord {
    /// A copy of borrowed bytes; owned ones are treated like any owned value.
    fn from(data: Cow<'a, str>) -> (cord: Cord)
        ensures
            cord@ == encode_utf8(data@),
            encode_utf8(data@).len() <= MAX_INLINE <==> cord.contents() is Inline,
            data is Borrowed ==> chunks_of(cord.contents()) == cut(true, encode_utf8(data@)),
            MAX_INLINE < encode_utf8(data@).len() <= MAX_BYTES_TO_COPY ==> is_flat_of(
                cord.contents(),
                encode_utf8(data@).len() as int,
            ),
            data matches Cow::Owned(owned) ==> made_of_owner(cord, Owner::Text(owned)),
    {
        match data {
            Cow::Borrowed(data) => Cord::from(data),
            Cow::Owned(data) => Cord::from(data),
        }
    }
}

impl<'a> FromSpecImpl<Cow<'a, str>> for Cord {
    open spec fn obeys_from_spec() -> bool {
        false
    }

    open spec fn from_spec(data: Cow<'a, str>) -> Cord {
        arbitrary()
    }
}

impl From<Box<[u8]>> for Cord {
    /// The bytes of `data`: `data` itself if they are many, and otherwise a copy.
    fn from(data: Box<[u8]>) -> (cord: Cord)
        ensures
            cord@ == data@,
            data@.len() <= MAX_INLINE <==> cord.contents() is Inline,
            MAX_INLINE < data@.len() <= MAX_BYTES_TO_COPY ==> is_flat_of(cord.contents(), data@.len() as int),
            data@.len() > MAX_BYTES_TO_COPY ==> cord.contents() is Tree && *cord.contents()->Tree_0
                == CordRep::External(CordRepExternal { owner: Owner::Boxed(data) }),
    {
        let capacity: usize = data.len();
        Cord::from_owned(Owner::Boxed(data), capacity)
    }
}

impl FromSpecImpl<Box<[u8]>> for Cord {
    open spec fn obeys_from_spec() -> bool {
        false
    }

    open spec fn from_spec(data: Box<[u8]>) -> Cord {
        arbitrary()
    }
}

impl From<Box<str>> for Cord {
    /// The bytes of `data`: `data` itself if they are many, and otherwise a copy.
    fn from(data: Box<str>) -> (cord: Cord)
        ensures
            cord@ == encode_utf8(data@),
            encode_utf8(data@).len() <= MAX_INLINE <==> cord.contents() is Inline,
            MAX_INLINE < encode_utf8(data@).len() <= MAX_BYTES_TO_COPY ==> is_flat_of(
                cord.contents(),
                encode_utf8(data@).len() as int,
            ),
            encode_utf8(data@).len() > MAX_BYTES_TO_COPY ==> cord.contents() is Tree && *cord.contents()->Tree_0 is External,
            encode_utf8(data@).len() > MAX_BYTES_TO_COPY ==> exists|boxed: Box<[u8]>|
                #[trigger] boxed@ == encode_utf8(data@) && *cord.contents()->Tree_0 == CordRep::External(
                    CordRepExternal { owner: Owner::Boxed(boxed) },
                ),
    {
        Cord::from(boxed_bytes(data))
    }
}

impl FromSpecImpl<Box<str>> for Cord {
    open spec fn obeys_from_spec() -> bool {
        false
    }

    open spec fn from_spec(data: Box<str>) -> Cord {
        arbitrary()
    }
}

impl From<Arc<[u8]>> for Cord {
    /// The bytes of `data`: `data` itself if they are many, and otherwise a copy.
    fn from(data: Arc<[u8]>) -> (cord: Cord)
        ensures
            cord@ == data@,
            data@.len() <= MAX_INLINE <==> cord.contents() is Inline,
            MAX_INLINE < data@.len() <= MAX_BYTES_TO_COPY ==> is_flat_of(cord.contents(), data@.len() as int),
            data@.len() > MAX_BYTES_TO_COPY ==> cord.contents() is Tree && *cord.contents()->Tree_0
                == CordRep::External(CordRepExternal { owner: Owner::SharedSlice(data) }),
    {
        let capacity: usize = data.len();
        Cord::from_owned(Owner::SharedSlice(data), capacity)
    }
}

impl FromSpecImpl<Arc<[u8]>> for Cord {
    open spec fn obeys_from_spec() -> bool {
        false
    }

    open spec fn from_spec(data: Arc<[u8]>) -> Cord {
        arbitrary()
    }
}

impl From<Arc<str>> for Cord {
    /// The bytes of `data`: `data` itself if they are many, and otherwise a copy.
    fn from(data: Arc<str>) -> (cord: Cord)
        ensures
            cord@ == encode_utf8(data@),
            encode_utf8(data@).len() <= MAX_INLINE <==> cord.contents() is Inline,
            MAX_INLINE < encode_utf8(data@).len() <= MAX_BYTES_TO_COPY ==> is_flat_of(
                cord.contents(),
                encode_utf8(data@).len() as int,
            ),
            encode_utf8(data@).len() > MAX_BYTES_TO_COPY ==> cord.contents() is Tree && *cord.contents()->Tree_0
                == CordRep::External(CordRepExternal { owner: Owner::SharedStr(data) }),
    {
        let capacity: usize = data.as_bytes().len();
        Cord::from_owned(Owner::SharedStr(data), capacity)
    }
}

impl FromSpecImpl<Arc<str>> for Cord {
    open spec fn obeys_from_spec() -> bool {
        false
    }

    open spec fn from_spec(data: Arc<str>) -> Cord {
        arbitrary()
    }
}

impl From<Arc<Vec<u8>>> for Cord {
    /// The bytes of `data`: `data` itself if they are many, and otherwise a copy.
    fn from(data: Arc<Vec<u8>>) -> (cord: Cord)
        ensures
            cord@ == data@,
            data@.len() <= MAX_INLINE <==> cord.contents() is Inline,
            MAX_INLINE < data@.len() <= MAX_BYTES_TO_COPY ==> is_flat_of(cord.contents(), data@.len() as int),
            data@.len() > MAX_BYTES_TO_COPY ==> cord.contents() is Tree && *cord.contents()->Tree_0
                == CordRep::External(CordRepExternal { owner: Owner::SharedVector(data) }),
    {
        let capacity: usize = data.len();
        Cord::from_owned(Owner::SharedVector(data), capacity)
    }
}

impl FromSpecImpl<Arc<Vec<u8>>> for Cord {
    open spec fn obeys_from_spec() -> bool {
        false
    }

    open spec fn from_spec(data: Arc<Vec<u8>>) -> Cord {
        arbitrary()
    }
}

impl From<Arc<String>> for Cord {
    /// The bytes of `data`: `data` itself if they are many, and otherwise a copy.
    fn from(data: Arc<String>) -> (cord: Cord)
        ensures
            cord@ == encode_utf8(data@),
            encode_utf8(data@).len() <= MAX_INLINE <==> cord.contents() is Inline,
            MAX_INLINE < encode_utf8(data@).len() <= MAX_BYTES_TO_COPY ==> is_flat_of(
                cord.contents(),
                encode_utf8(data@).len() as int,
            ),
            encode_utf8(data@).len() > MAX_BYTES_TO_COPY ==> cord.contents() is Tree && *cord.contents()->Tree_0
                == CordRep::External(CordRepExternal { owner: Owner::SharedText(data) }),
    {
        let capacity: usize = data.as_str().as_bytes().len();
        Cord::from_owned(Owner::SharedText(data), capacity)
    }
}

impl FromSpecImpl<Arc<String>> for Cord {
    open spec fn obeys_from_spec() -> bool {
        false
    }

    open spec fn from_spec(data: Arc<String>) -> Cord {
        arbitrary()
    }
}

impl From<CordBuffer> for Cord {
    /// The contents of `data`: its block, or a copy of the bytes in place.
    fn from(data: CordBuffer) -> (cord: Cord)
        ensures
            cord@ == data@,
            data@.len() == 0 || data.spec_is_short() <==> cord.contents() is Inline,
            cord.contents() matches InlineData::Tree(tree) ==> *tree == CordRep::Flat(data.block()),
    {
        let _len: usize = data.len();
        let _capacity: usize = data.capacity();
        let mut cord = Cord::new();
        cord.append_buffer(data);
        assert(cord@ =~= data@);
        cord
    }
}

impl FromSpecImpl<CordBuffer> for Cord {
    open spec fn obeys_from_spec() -> bool {
        false
    }

    open spec fn from_spec(data: CordBuffer) -> Cord {
        arbitrary()
    }
}

impl From<Cord> for Vec<u8> {
    /// A copy of the bytes of `cord`.
    fn from(cord: Cord) -> (data: Vec<u8>)
        ensures
            data@ == cord@,
    {
        cord.to_vec()
    }
}

impl FromSpecImpl<Cord> for Vec<u8> {
    open spec fn obeys_from_spec() -> bool {
        false
    }

    open spec fn from_spec(cord: Cord) -> Vec<u8> {
        arbitrary()
    }
}

impl Cord {
    /// A cord that refers to `data` without copying it, unless there are few bytes.
    pub fn from_static<T: StaticSource + ?Sized>(data: &'static T) -> (cord: Cord)
        ensures
            cord@ == data.static_bytes(),
            data.static_bytes().len() <= MAX_INLINE <==> cord.contents() is Inline,
            data.static_bytes().len() > MAX_INLINE ==> is_static(cord.contents()),
    {
        let owner = data.owner();
        let bytes = owner.as_bytes();
        if bytes.len() <= MAX_INLINE {
            return Cord::from_data(InlineData::inline_from(bytes));
        }
        Cord::from_data(InlineData::Tree(CordRep::external(owner)))
    }

    /// Appends `items`, in order.
    pub fn extend<S: CordSource>(&mut self, items: Vec<S>)
        requires
            old(self)@.len() + sources_bytes(items@).len() <= usize::MAX,
        ensures
            final(self)@ == old(self)@ + sources_bytes(items@),
            added_in_turn(*old(self), *final(self), items@),
            extends_back(*old(self), *final(self)),
    {
        let _data = self.data();
        proof {
            lemma_extends_same(*self);
        }
        let ghost all = items@;
        let mut items = items;
        let mut reversed: Vec<S> = Vec::new();
        while items.len() > 0
            invariant
                items@ + reversed@.reverse() == all,
            decreases items@.len(),
        {
            let ghost left = items@;
            let ghost done = reversed@;
            let item = items.pop().unwrap();
            reversed.push(item);
            proof {
                assert(left =~= items@ + seq![item]);
                assert(reversed@.reverse() =~= seq![item] + done.reverse());
                assert(items@ + reversed@.reverse() =~= all);
            }
        }
        let ghost mut done: Seq<S> = Seq::empty();
        proof {
            assert(reversed@.reverse() =~= all);
            assert(done + reversed@.reverse() =~= all);
            assert(self@ =~= old(self)@ + sources_bytes(done));
        }
        while reversed.len() > 0
            invariant
                done + reversed@.reverse() == all,
                self@ == old(self)@ + sources_bytes(done),
                old(self)@.len() + sources_bytes(all).len() <= usize::MAX,
                added_in_turn(*old(self), *self, done),
                extends_back(*old(self), *self),
                old(self).contents() is Tree ==> old(self).edges().len() > 0,
            decreases reversed@.len(),
        {
            let ghost held = *self;
            let ghost before = done;
            let ghost left = reversed@;
            let item = reversed.pop().unwrap();
            proof {
                assert(left.reverse() =~= seq![item] + reversed@.reverse());
                assert(done + left.reverse() =~= done.push(item) + reversed@.reverse());
                lemma_sources_bytes(done.push(item), reversed@.reverse());
                assert(done.push(item).drop_last() =~= done);
                assert(old(self)@ + sources_bytes(done.push(item)) =~= self@ + item.source_bytes());
                done = done.push(item);
            }
            self.append(item);
            proof {
                assert(before.push(item).drop_last() =~= before);
                assert(item.added_at_back(held, *self));
                assert(added_once(held, *self, before.push(item).last()));
                lemma_extends_twice(*old(self), held, *self);
            }
        }
        assert(done =~= all);
    }

    /// A cord of `items`, in order.
    pub fn from_items<S: CordSource>(items: Vec<S>) -> (cord: Cord)
        requires
            sources_bytes(items@).len() <= usize::MAX,
        ensures
            cord@ == sources_bytes(items@),
            exists|empty: Cord| #[trigger] is_empty_cord(empty) && added_in_turn(empty, cord, items@),
    {
        let mut cord = Cord::new();
        let ghost empty = cord;
        cord.extend(items);
        proof {
            assert(cord@ =~= sources_bytes(items@));
            assert(is_empty_cord(empty));
        }
        cord
    }

    /// Appends the bytes `data`, in pieces of up to 256 bytes.
    #[verifier::rlimit(40)]
    pub fn extend_bytes(&mut self, data: &[u8])
        requires
            old(self)@.len() + data@.len() <= usize::MAX,
        ensures
            final(self)@ == old(self)@ + data@,
            copied_in_parts(*old(self), *final(self), portions(data@)),
            extends_back(*old(self), *final(self)),
    {
        let len: usize = data.len();
        let mut done: usize = 0;
        let _data = self.data();
        proof {
            assert(self@ =~= old(self)@ + data@.take(0));
            lemma_extends_same(*self);
        }
        while done < len
            invariant
                done <= len,
                len == data@.len(),
                old(self)@.len() + data@.len() <= usize::MAX,
                self@ == old(self)@ + data@.take(done as int),
                done == len || done as int % 256 == 0,
                copied_in_parts(*old(self), *self, portions(data@.take(done as int))),
                extends_back(*old(self), *self),
                old(self).contents() is Tree ==> old(self).edges().len() > 0,
            decreases len - done,
        {
            let ghost held = *self;
            let n: usize = if len - done <= 256 {
                len - done
            } else {
                256
            };
            let piece = slice_subrange(data, done, done + n);
            self.append_slice(piece);
            proof {
                lemma_next_portion(data@, done as int, n as int);
                assert(piece@ =~= data@.subrange(done as int, done + n));
                assert(self@ =~= old(self)@ + data@.take(done + n));
                lemma_copied_part(*old(self), held, *self, portions(data@.take(done as int)), piece@);
                lemma_extends_twice(*old(self), held, *self);
            }
            done = done + n;
        }
        assert(data@.take(len as int) =~= data@);
    }
}

/// `data` is a single block that refers to bytes which live as long as the program.
pub open spec fn is_static(data: InlineData) -> bool {
    match data {
        InlineData::Tree(tree) => match *tree {
            CordRep::External(ext) => ext.owner is Static || ext.owner is StaticStr,
            _ => false,
        },
        InlineData::Inline(_) => false,
    }
}

/// `item` was appended to `before`.
pub open spec fn added_once<S: CordSource>(before: Cord, after: Cord, item: S) -> bool {
    item.added_at_back(before, after)
}

/// `items` were appended to `before`, one after the other.
pub open spec fn added_in_turn<S: CordSource>(before: Cord, after: Cord, items: Seq<S>) -> bool
    decreases items.len(),
{
    if items.len() == 0 {
        after == before
    } else {
        exists|mid: Cord|
            added_in_turn(before, mid, items.drop_last()) && #[trigger] added_once(mid, after, items.last())
    }
}

/// A cord without bytes, which it holds in place.
pub open spec fn is_empty_cord(cord: Cord) -> bool {
    cord@.len() == 0 && cord.contents() is Inline
}

/// `data` in portions of 256 bytes, of which only the last may be shorter.
pub open spec fn portions(data: Seq<u8>) -> Seq<Seq<u8>>
    decreases data.len(),
{
    if data.len() == 0 {
        Seq::empty()
    } else {
        let cut = (data.len() - 1) / 256 * 256;
        portions(data.take(cut)).push(data.skip(cut))
    }
}

/// The portion behind whole ones.
proof fn lemma_next_portion(data: Seq<u8>, done: int, n: int)
    requires
        0 <= done,
        0 < n <= 256,
        done + n <= data.len(),
        done % 256 == 0,
    ensures
        portions(data.take(done + n)) == portions(data.take(done)).push(data.subrange(done, done + n)),
        data.take(done) + data.subrange(done, done + n) == data.take(done + n),
{
    let now = data.take(done + n);
    let cut = (now.len() - 1) / 256 * 256;
    assert(cut == done);
    assert(now.take(cut) =~= data.take(done));
    assert(now.skip(cut) =~= data.subrange(done, done + n));
    assert(data.take(done) + data.subrange(done, done + n) =~= now);
}

/// The bytes of `items`, in order.
pub open spec fn sources_bytes<S: CordSource>(items: Seq<S>) -> Seq<u8>
    decreases items.len(),
{
    if items.len() == 0 {
        Seq::empty()
    } else {
        sources_bytes(items.drop_last()) + items.last().source_bytes()
    }
}

/// The bytes of joined lists of items.
proof fn lemma_sources_bytes<S: CordSource>(a: Seq<S>, b: Seq<S>)
    ensures
        sources_bytes(a + b) == sources_bytes(a) + sources_bytes(b),
    decreases b.len(),
{
    if b.len() == 0 {
        assert(a + b =~= a);
        assert(sources_bytes(a) + sources_bytes(b) =~= sources_bytes(a));
    } else {
        lemma_sources_bytes(a, b.drop_last());
        assert((a + b).drop_last() =~= a + b.drop_last());
        assert(sources_bytes(a + b) =~= sources_bytes(a) + sources_bytes(b));
    }
}

impl Index<usize> for Cord {
    type Output = u8;

    /// The byte at `index`.
    fn index(&self, index: usize) -> (byte: &u8)
        ensures
            *byte == self@[index as int],
    {
        self.byte_ref(index)
    }
}

impl vstd::std_specs::core::IndexSpecImpl<usize> for Cord {
    open spec fn index_req(&self, index: &usize) -> bool {
        *index < self@.len()
    }
}

/// The error of a conversion of bytes that are not UTF-8.
#[verifier::external_type_specification]
#[verifier::external_body]
pub struct ExFromUtf8Error(FromUtf8Error);

/// `String::from_utf8`: the text whose UTF-8 encoding is `data`, or an error
/// if and only if `data` is not valid UTF-8.
#[verifier::external_body]
fn string_from_utf8(data: Vec<u8>) -> (r: Result<String, FromUtf8Error>)
    ensures
        r is Ok <==> valid_utf8(data@),
        r matches Ok(text) ==> encode_utf8(text@) == data@,
{
    String::from_utf8(data)
}

impl TryFrom<Cord> for String {
    type Error = FromUtf8Error;

    /// A copy of the bytes as text, if they are valid UTF-8.
    fn try_from(cord: Cord) -> (r: Result<String, FromUtf8Error>)
        ensures
            r is Ok <==> valid_utf8(cord@),
            r matches Ok(text) ==> encode_utf8(text@) == cord@,
    {
        string_from_utf8(cord.to_vec())
    }
}

impl TryFromSpecImpl<Cord> for String {
    open spec fn obeys_try_from_spec() -> bool {
        false
    }

    open spec fn try_from_spec(cord: Cord) -> Result<String, FromUtf8Error> {
        arbitrary()
    }
}

impl<T: CordLike + ?Sized> PartialEq<T> for Cord {
    fn eq(&self, other: &T) -> (r: bool) {
        self.equals(other)
    }
}

impl<T: CordLike + ?Sized> vstd::std_specs::cmp::PartialEqSpecImpl<T> for Cord {
    open spec fn obeys_eq_spec() -> bool {
        true
    }

    open spec fn eq_spec(&self, other: &T) -> bool {
        self@ == other.like_bytes()
    }
}

impl Eq for Cord {

}

impl<T: CordLike + ?Sized> PartialOrd<T> for Cord {
    fn partial_cmp(&self, other: &T) -> (r: Option<Ordering>) {
        Some(self.compare(other))
    }
}

impl<T: CordLike + ?Sized> vstd::std_specs::cmp::PartialOrdSpecImpl<T> for Cord {
    open spec fn obeys_partial_cmp_spec() -> bool {
        true
    }

    open spec fn partial_cmp_spec(&self, other: &T) -> Option<Ordering> {
        Some(lex(self@, other.like_bytes()))
    }
}

/// The opposite order.
fn reverse(order: Ordering) -> (r: Ordering)
    ensures
        r == match order {
            Ordering::Less => Ordering::Greater,
            Ordering::Equal => Ordering::Equal,
            Ordering::Greater => Ordering::Less,
        },
{
    match order {
        Ordering::Less => Ordering::Greater,
        Ordering::Equal => Ordering::Equal,
        Ordering::Greater => Ordering::Less,
    }
}

impl PartialEq<Cord> for [u8] {
    fn eq(&self, other: &Cord) -> (r: bool) {
        other.equals(self)
    }
}

impl vstd::std_specs::cmp::PartialEqSpecImpl<Cord> for [u8] {
    open spec fn obeys_eq_spec() -> bool {
        true
    }

    open spec fn eq_spec(&self, other: &Cord) -> bool {
        other@ == self@
    }
}

impl PartialOrd<Cord> for [u8] {
    fn partial_cmp(&self, other: &Cord) -> (r: Option<Ordering>) {
        proof {
            law_lex_reverse(other@, self@);
        }
        Some(reverse(other.compare(self)))
    }
}

impl vstd::std_specs::cmp::PartialOrdSpecImpl<Cord> for [u8] {
    open spec fn obeys_partial_cmp_spec() -> bool {
        true
    }

    open spec fn partial_cmp_spec(&self, other: &Cord) -> Option<Ordering> {
        Some(lex(self@, other@))
    }
}

impl PartialEq<Cord> for &[u8] {
    fn eq(&self, other: &Cord) -> (r: bool) {
        other.equals(self)
    }
}

impl vstd::std_specs::cmp::PartialEqSpecImpl<Cord> for &[u8] {
    open spec fn obeys_eq_spec() -> bool {
        true
    }

    open spec fn eq_spec(&self, other: &Cord) -> bool {
        other@ == self@
    }
}

impl PartialOrd<Cord> for &[u8] {
    fn partial_cmp(&self, other: &Cord) -> (r: Option<Ordering>) {
        proof {
            law_lex_reverse(other@, self@);
        }
        Some(reverse(other.compare(self)))
    }
}

impl vstd::std_specs::cmp::PartialOrdSpecImpl<Cord> for &[u8] {
    open spec fn obeys_partial_cmp_spec() -> bool {
        true
    }

    open spec fn partial_cmp_spec(&self, other: &Cord) -> Option<Ordering> {
        Some(lex(self@, other@))
    }
}

impl PartialEq<Cord> for str {
    fn eq(&self, other: &Cord) -> (r: bool) {
        other.equals(self)
    }
}

impl vstd::std_specs::cmp::PartialEqSpecImpl<Cord> for str {
    open spec fn obeys_eq_spec() -> bool {
        true
    }

    open spec fn eq_spec(&self, other: &Cord) -> bool {
        other@ == encode_utf8(self@)
    }
}

impl PartialOrd<Cord> for str {
    fn partial_cmp(&self, other: &Cord) -> (r: Option<Ordering>) {
        proof {
            law_lex_reverse(other@, encode_utf8(self@));
        }
        Some(reverse(other.compare(self)))
    }
}

impl vstd::std_specs::cmp::PartialOrdSpecImpl<Cord> for str {
    open spec fn obeys_partial_cmp_spec() -> bool {
        true
    }

    open spec fn partial_cmp_spec(&self, other: &Cord) -> Option<Ordering> {
        Some(lex(encode_utf8(self@), other@))
    }
}

impl PartialEq<Cord> for &str {
    fn eq(&self, other: &Cord) -> (r: bool) {
        other.equals(self)
    }
}

impl vstd::std_specs::cmp::PartialEqSpecImpl<Cord> for &str {
    open spec fn obeys_eq_spec() -> bool {
        true
    }

    open spec fn eq_spec(&self, other: &Cord) -> bool {
        other@ == encode_utf8(self@)
    }
}

impl PartialOrd<Cord> for &str {
    fn partial_cmp(&self, other: &Cord) -> (r: Option<Ordering>) {
        proof {
            law_lex_reverse(other@, encode_utf8(self@));
        }
        Some(reverse(other.compare(self)))
    }
}

impl vstd::std_specs::cmp::PartialOrdSpecImpl<Cord> for &str {
    open spec fn obeys_partial_cmp_spec() -> bool {
        true
    }

    open spec fn partial_cmp_spec(&self, other: &Cord) -> Option<Ordering> {
        Some(lex(encode_utf8(self@), other@))
    }
}

impl PartialEq<Cord> for Vec<u8> {
    fn eq(&self, other: &Cord) -> (r: bool) {
        other.equals(self)
    }
}

impl vstd::std_specs::cmp::PartialEqSpecImpl<Cord> for Vec<u8> {
    open spec fn obeys_eq_spec() -> bool {
        true
    }

    open spec fn eq_spec(&self, other: &Cord) -> bool {
        other@ == self@
    }
}

impl PartialOrd<Cord> for Vec<u8> {
    fn partial_cmp(&self, other: &Cord) -> (r: Option<Ordering>) {
        proof {
            law_lex_reverse(other@, self@);
        }
        Some(reverse(other.compare(self)))
    }
}

impl vstd::std_specs::cmp::PartialOrdSpecImpl<Cord> for Vec<u8> {
    open spec fn obeys_partial_cmp_spec() -> bool {
        true
    }

    open spec fn partial_cmp_spec(&self, other: &Cord) -> Option<Ordering> {
        Some(lex(self@, other@))
    }
}

impl PartialEq<Cord> for String {
    fn eq(&self, other: &Cord) -> (r: bool) {
        other.equals(self)
    }
}

impl vstd::std_specs::cmp::PartialEqSpecImpl<Cord> for String {
    open spec fn obeys_eq_spec() -> bool {
        true
    }

    open spec fn eq_spec(&self, other: &Cord) -> bool {
        other@ == encode_utf8(self@)
    }
}

impl PartialOrd<Cord> for String {
    fn partial_cmp(&self, other: &Cord) -> (r: Option<Ordering>) {
        proof {
            law_lex_reverse(other@, encode_utf8(self@));
        }
        Some(reverse(other.compare(self)))
    }
}

impl vstd::std_specs::cmp::PartialOrdSpecImpl<Cord> for String {
    open spec fn obeys_partial_cmp_spec() -> bool {
        true
    }

    open spec fn partial_cmp_spec(&self, other: &Cord) -> Option<Ordering> {
        Some(lex(encode_utf8(self@), other@))
    }
}

impl<const N: usize> PartialEq<Cord> for [u8; N] {
    fn eq(&self, other: &Cord) -> (r: bool) {
        other.equals(self)
    }
}

impl<const N: usize> vstd::std_specs::cmp::PartialEqSpecImpl<Cord> for [u8; N] {
    open spec fn obeys_eq_spec() -> bool {
        true
    }

    open spec fn eq_spec(&self, other: &Cord) -> bool {
        other@ == self@
    }
}

impl<const N: usize> PartialEq<Cord> for &[u8; N] {
    fn eq(&self, other: &Cord) -> (r: bool) {
        other.equals(*self)
    }
}

impl<const N: usize> vstd::std_specs::cmp::PartialEqSpecImpl<Cord> for &[u8; N] {
    open spec fn obeys_eq_spec() -> bool {
        true
    }

    open spec fn eq_spec(&self, other: &Cord) -> bool {
        other@ == self@
    }
}

impl<const N: usize> PartialOrd<Cord> for [u8; N] {
    fn partial_cmp(&self, other: &Cord) -> (r: Option<Ordering>) {
        proof {
            law_lex_reverse(other@, self@);
        }
        Some(reverse(other.compare(self)))
    }
}

impl<const N: usize> vstd::std_specs::cmp::PartialOrdSpecImpl<Cord> for [u8; N] {
    open spec fn obeys_partial_cmp_spec() -> bool {
        true
    }

    open spec fn partial_cmp_spec(&self, other: &Cord) -> Option<Ordering> {
        Some(lex(self@, other@))
    }
}

} // verus!
