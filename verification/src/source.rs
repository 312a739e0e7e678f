//! Input traits: `CordSource` for values that can be added to a cord, and
//! `CordLike` for values that a cord can be compared with.

use crate::buffer::CordBuffer;
use crate::cord::Cord;
use crate::edit::{
    buffer_at_back, buffer_at_front, copied_to_back, copied_to_front, cord_at_back, cord_at_front,
    extends_back, extends_front, owned_at_back, owned_at_front, owner_at_back, owner_at_front,
};
use crate::iter::Chunks;
use crate::rep::external::{buffer_bytes, buffer_slice, occupies, Owner};
use bytes::Bytes as SharedBuffer;
use std::borrow::Cow;
use std::sync::Arc;
use vstd::prelude::*;
use vstd::utf8::encode_utf8;

verus! {

/// Marks the types that `CordSource` is for.
pub trait SourceSealed {

}

/// Marks the types that `CordLike` is for.
pub trait LikeSealed {

}

/// Values that can be appended or prepended to a cord.
pub trait CordSource: SourceSealed + Sized {
    /// The bytes of the value.
    spec fn source_bytes(&self) -> Seq<u8>;

    /// How `after` holds the value, where it came from appending that to
    /// `before`: what is copied where, and what is held without copying.
    spec fn added_at_back(&self, before: Cord, after: Cord) -> bool;

    /// How `after` holds the value, where it came from prepending that to
    /// `before`: what is copied where, and what is held without copying.
    spec fn added_at_front(&self, before: Cord, after: Cord) -> bool;

    /// Appends the value to `cord`.
    fn append_to(self, cord: &mut Cord)
        requires
            old(cord)@.len() + self.source_bytes().len() <= usize::MAX,
        ensures
            final(cord)@ == old(cord)@ + self.source_bytes(),
            extends_back(*old(cord), *final(cord)),
            self.added_at_back(*old(cord), *final(cord)),
    ;

    /// Prepends the value to `cord`.
    fn prepend_to(self, cord: &mut Cord)
        requires
            old(cord)@.len() + self.source_bytes().len() <= usize::MAX,
        ensures
            final(cord)@ == self.source_bytes() + old(cord)@,
            extends_front(*old(cord), *final(cord)),
            self.added_at_front(*old(cord), *final(cord)),
    ;
}

impl Cord {
    /// Appends `src`.
    pub fn append<S: CordSource>(&mut self, src: S)
        requires
            old(self)@.len() + src.source_bytes().len() <= usize::MAX,
        ensures
            final(self)@ == old(self)@ + src.source_bytes(),
            extends_back(*old(self), *final(self)),
            src.added_at_back(*old(self), *final(self)),
    {
        src.append_to(self);
    }

    /// Prepends `src`.
    pub fn prepend<S: CordSource>(&mut self, src: S)
        requires
            old(self)@.len() + src.source_bytes().len() <= usize::MAX,
        ensures
            final(self)@ == src.source_bytes() + old(self)@,
            extends_front(*old(self), *final(self)),
            src.added_at_front(*old(self), *final(self)),
    {
        src.prepend_to(self);
    }
}

impl SourceSealed for &[u8] {

}

impl CordSource for &[u8] {
    open spec fn source_bytes(&self) -> Seq<u8> {
        self@
    }

    open spec fn added_at_back(&self, before: Cord, after: Cord) -> bool {
        copied_to_back(before, after, self@)
    }

    open spec fn added_at_front(&self, before: Cord, after: Cord) -> bool {
        copied_to_front(before, after, self@)
    }

    fn append_to(self, cord: &mut Cord) {
        cord.append_slice(self);
    }

    fn prepend_to(self, cord: &mut Cord) {
        cord.prepend_slice(self);
    }
}

impl SourceSealed for &str {

}

impl CordSource for &str {
    open spec fn source_bytes(&self) -> Seq<u8> {
        encode_utf8(self@)
    }

    open spec fn added_at_back(&self, before: Cord, after: Cord) -> bool {
        copied_to_back(before, after, encode_utf8(self@))
    }

    open spec fn added_at_front(&self, before: Cord, after: Cord) -> bool {
        copied_to_front(before, after, encode_utf8(self@))
    }

    fn append_to(self, cord: &mut Cord) {
        cord.append_slice(self.as_bytes());
    }

    fn prepend_to(self, cord: &mut Cord) {
        cord.prepend_slice(self.as_bytes());
    }
}

impl SourceSealed for &Vec<u8> {

}

impl CordSource for &Vec<u8> {
    open spec fn source_bytes(&self) -> Seq<u8> {
        self@
    }

    open spec fn added_at_back(&self, before: Cord, after: Cord) -> bool {
        copied_to_back(before, after, self@)
    }

    open spec fn added_at_front(&self, before: Cord, after: Cord) -> bool {
        copied_to_front(before, after, self@)
    }

    fn append_to(self, cord: &mut Cord) {
        cord.append_slice(self.as_slice());
    }

    fn prepend_to(self, cord: &mut Cord) {
        cord.prepend_slice(self.as_slice());
    }
}

impl SourceSealed for &String {

}

impl CordSource for &String {
    open spec fn source_bytes(&self) -> Seq<u8> {
        encode_utf8(self@)
    }

    open spec fn added_at_back(&self, before: Cord, after: Cord) -> bool {
        copied_to_back(before, after, encode_utf8(self@))
    }

    open spec fn added_at_front(&self, before: Cord, after: Cord) -> bool {
        copied_to_front(before, after, encode_utf8(self@))
    }

    fn append_to(self, cord: &mut Cord) {
        cord.append_slice(self.as_str().as_bytes());
    }

    fn prepend_to(self, cord: &mut Cord) {
        cord.prepend_slice(self.as_str().as_bytes());
    }
}

impl<const N: usize> SourceSealed for &[u8; N] {

}

impl<const N: usize> CordSource for &[u8; N] {
    open spec fn source_bytes(&self) -> Seq<u8> {
        self@
    }

    open spec fn added_at_back(&self, before: Cord, after: Cord) -> bool {
        copied_to_back(before, after, self@)
    }

    open spec fn added_at_front(&self, before: Cord, after: Cord) -> bool {
        copied_to_front(before, after, self@)
    }

    fn append_to(self, cord: &mut Cord) {
        cord.append_slice(self.as_slice());
    }

    fn prepend_to(self, cord: &mut Cord) {
        cord.prepend_slice(self.as_slice());
    }
}

impl SourceSealed for &CordBuffer {

}

impl CordSource for &CordBuffer {
    open spec fn source_bytes(&self) -> Seq<u8> {
        self@
    }

    open spec fn added_at_back(&self, before: Cord, after: Cord) -> bool {
        copied_to_back(before, after, self@)
    }

    open spec fn added_at_front(&self, before: Cord, after: Cord) -> bool {
        copied_to_front(before, after, self@)
    }

    fn append_to(self, cord: &mut Cord) {
        cord.append_slice(self.as_slice());
    }

    fn prepend_to(self, cord: &mut Cord) {
        cord.prepend_slice(self.as_slice());
    }
}

impl SourceSealed for &Box<[u8]> {

}

impl CordSource for &Box<[u8]> {
    open spec fn source_bytes(&self) -> Seq<u8> {
        self@
    }

    open spec fn added_at_back(&self, before: Cord, after: Cord) -> bool {
        copied_to_back(before, after, self@)
    }

    open spec fn added_at_front(&self, before: Cord, after: Cord) -> bool {
        copied_to_front(before, after, self@)
    }

    fn append_to(self, cord: &mut Cord) {
        cord.append_slice(self);
    }

    fn prepend_to(self, cord: &mut Cord) {
        cord.prepend_slice(self);
    }
}

impl SourceSealed for &Arc<[u8]> {

}

impl CordSource for &Arc<[u8]> {
    open spec fn source_bytes(&self) -> Seq<u8> {
        self@
    }

    open spec fn added_at_back(&self, before: Cord, after: Cord) -> bool {
        copied_to_back(before, after, self@)
    }

    open spec fn added_at_front(&self, before: Cord, after: Cord) -> bool {
        copied_to_front(before, after, self@)
    }

    fn append_to(self, cord: &mut Cord) {
        cord.append_slice(self);
    }

    fn prepend_to(self, cord: &mut Cord) {
        cord.prepend_slice(self);
    }
}

impl SourceSealed for &SharedBuffer {

}

impl CordSource for &SharedBuffer {
    open spec fn source_bytes(&self) -> Seq<u8> {
        buffer_bytes(**self)
    }

    open spec fn added_at_back(&self, before: Cord, after: Cord) -> bool {
        copied_to_back(before, after, buffer_bytes(**self))
    }

    open spec fn added_at_front(&self, before: Cord, after: Cord) -> bool {
        copied_to_front(before, after, buffer_bytes(**self))
    }

    fn append_to(self, cord: &mut Cord) {
        cord.append_slice(buffer_slice(self));
    }

    fn prepend_to(self, cord: &mut Cord) {
        cord.prepend_slice(buffer_slice(self));
    }
}

impl SourceSealed for &Cord {

}

impl CordSource for &Cord {
    open spec fn source_bytes(&self) -> Seq<u8> {
        self@
    }

    open spec fn added_at_back(&self, before: Cord, after: Cord) -> bool {
        cord_at_back(before, after, **self)
    }

    open spec fn added_at_front(&self, before: Cord, after: Cord) -> bool {
        cord_at_front(before, after, **self)
    }

    fn append_to(self, cord: &mut Cord) {
        cord.append_cord(self);
    }

    fn prepend_to(self, cord: &mut Cord) {
        cord.prepend_cord(self);
    }
}

impl SourceSealed for Cord {

}

impl CordSource for Cord {
    open spec fn source_bytes(&self) -> Seq<u8> {
        self@
    }

    open spec fn added_at_back(&self, before: Cord, after: Cord) -> bool {
        cord_at_back(before, after, *self)
    }

    open spec fn added_at_front(&self, before: Cord, after: Cord) -> bool {
        cord_at_front(before, after, *self)
    }

    fn append_to(self, cord: &mut Cord) {
        cord.append_owned_cord(self);
    }

    fn prepend_to(self, cord: &mut Cord) {
        cord.prepend_owned_cord(self);
    }
}

impl SourceSealed for CordBuffer {

}

impl CordSource for CordBuffer {
    open spec fn source_bytes(&self) -> Seq<u8> {
        self@
    }

    open spec fn added_at_back(&self, before: Cord, after: Cord) -> bool {
        buffer_at_back(before, after, *self)
    }

    open spec fn added_at_front(&self, before: Cord, after: Cord) -> bool {
        buffer_at_front(before, after, *self)
    }

    fn append_to(self, cord: &mut Cord) {
        cord.append_buffer(self);
    }

    fn prepend_to(self, cord: &mut Cord) {
        cord.prepend_buffer(self);
    }
}

/// `Vec::capacity`: the number of bytes that `data` has room for, which is
/// not below its length. What it is beyond that depends on the allocator, so
/// all that is said of it is that it was read from `data`.
#[verifier::external_body]
pub(crate) fn vec_capacity(data: &Vec<u8>) -> (capacity: usize)
    ensures
        capacity >= data@.len(),
        occupies(Owner::Vector(*data), capacity),
{
    data.capacity()
}

/// `String::capacity`: the number of bytes that `data` has room for, which is
/// not below its length. What it is beyond that depends on the allocator, so
/// all that is said of it is that it was read from `data`.
#[verifier::external_body]
pub(crate) fn string_capacity(data: &String) -> (capacity: usize)
    ensures
        capacity >= encode_utf8(data@).len(),
        occupies(Owner::Text(*data), capacity),
{
    data.capacity()
}

/// `str::into_boxed_bytes`: the bytes of `data`, without copying.
#[verifier::external_body]
pub(crate) fn boxed_bytes(data: Box<str>) -> (bytes: Box<[u8]>)
    ensures
        bytes@ == encode_utf8(data@),
{
    data.into_boxed_bytes()
}

impl SourceSealed for Vec<u8> {

}

impl CordSource for Vec<u8> {
    open spec fn source_bytes(&self) -> Seq<u8> {
        self@
    }

    open spec fn added_at_back(&self, before: Cord, after: Cord) -> bool {
        owner_at_back(before, after, Owner::Vector(*self))
    }

    open spec fn added_at_front(&self, before: Cord, after: Cord) -> bool {
        owner_at_front(before, after, Owner::Vector(*self))
    }

    fn append_to(self, cord: &mut Cord) {
        let capacity: usize = vec_capacity(&self);
        cord.append_owned(Owner::Vector(self), capacity);
    }

    fn prepend_to(self, cord: &mut Cord) {
        let capacity: usize = vec_capacity(&self);
        cord.prepend_owned(Owner::Vector(self), capacity);
    }
}

impl SourceSealed for String {

}

impl CordSource for String {
    open spec fn source_bytes(&self) -> Seq<u8> {
        encode_utf8(self@)
    }

    open spec fn added_at_back(&self, before: Cord, after: Cord) -> bool {
        owner_at_back(before, after, Owner::Text(*self))
    }

    open spec fn added_at_front(&self, before: Cord, after: Cord) -> bool {
        owner_at_front(before, after, Owner::Text(*self))
    }

    fn append_to(self, cord: &mut Cord) {
        let capacity: usize = string_capacity(&self);
        cord.append_owned(Owner::Text(self), capacity);
    }

    fn prepend_to(self, cord: &mut Cord) {
        let capacity: usize = string_capacity(&self);
        cord.prepend_owned(Owner::Text(self), capacity);
    }
}

impl<'a> SourceSealed for Cow<'a, [u8]> {

}

impl<'a> CordSource for Cow<'a, [u8]> {
    open spec fn source_bytes(&self) -> Seq<u8> {
        self@
    }

    open spec fn added_at_back(&self, before: Cord, after: Cord) -> bool {
        match self {
            Cow::Borrowed(data) => copied_to_back(before, after, data@),
            Cow::Owned(data) => owner_at_back(before, after, Owner::Vector(*data)),
        }
    }

    open spec fn added_at_front(&self, before: Cord, after: Cord) -> bool {
        match self {
            Cow::Borrowed(data) => copied_to_front(before, after, data@),
            Cow::Owned(data) => owner_at_front(before, after, Owner::Vector(*data)),
        }
    }

    fn append_to(self, cord: &mut Cord) {
        match self {
            Cow::Borrowed(data) => cord.append(data),
            Cow::Owned(data) => cord.append(data),
        }
    }

    fn prepend_to(self, cord: &mut Cord) {
        match self {
            Cow::Borrowed(data) => cord.prepend(data),
            Cow::Owned(data) => cord.prepend(data),
        }
    }
}

impl<'a> SourceSealed for Cow<'a, str> {

}

impl<'a> CordSource for Cow<'a, str> {
    open spec fn source_bytes(&self) -> Seq<u8> {
        encode_utf8(self@)
    }

    open spec fn added_at_back(&self, before: Cord, after: Cord) -> bool {
        match self {
            Cow::Borrowed(data) => copied_to_back(before, after, encode_utf8(data@)),
            Cow::Owned(data) => owner_at_back(before, after, Owner::Text(*data)),
        }
    }

    open spec fn added_at_front(&self, before: Cord, after: Cord) -> bool {
        match self {
            Cow::Borrowed(data) => copied_to_front(before, after, encode_utf8(data@)),
            Cow::Owned(data) => owner_at_front(before, after, Owner::Text(*data)),
        }
    }

    fn append_to(self, cord: &mut Cord) {
        match self {
            Cow::Borrowed(data) => cord.append(data),
            Cow::Owned(data) => cord.append(data),
        }
    }

    fn prepend_to(self, cord: &mut Cord) {
        match self {
            Cow::Borrowed(data) => cord.prepend(data),
            Cow::Owned(data) => cord.prepend(data),
        }
    }
}

impl SourceSealed for Box<[u8]> {

}

impl CordSource for Box<[u8]> {
    open spec fn source_bytes(&self) -> Seq<u8> {
        self@
    }

    open spec fn added_at_back(&self, before: Cord, after: Cord) -> bool {
        owned_at_back(before, after, Owner::Boxed(*self), true)
    }

    open spec fn added_at_front(&self, before: Cord, after: Cord) -> bool {
        owned_at_front(before, after, Owner::Boxed(*self), true)
    }

    fn append_to(self, cord: &mut Cord) {
        let capacity: usize = self.len();
        cord.append_owned(Owner::Boxed(self), capacity);
    }

    fn prepend_to(self, cord: &mut Cord) {
        let capacity: usize = self.len();
        cord.prepend_owned(Owner::Boxed(self), capacity);
    }
}

impl SourceSealed for Box<str> {

}

impl CordSource for Box<str> {
    open spec fn source_bytes(&self) -> Seq<u8> {
        encode_utf8(self@)
    }

    open spec fn added_at_back(&self, before: Cord, after: Cord) -> bool {
        exists|data: Box<[u8]>|
            data@ == encode_utf8(self@) && #[trigger] owned_at_back(before, after, Owner::Boxed(data), true)
    }

    open spec fn added_at_front(&self, before: Cord, after: Cord) -> bool {
        exists|data: Box<[u8]>|
            data@ == encode_utf8(self@) && #[trigger] owned_at_front(before, after, Owner::Boxed(data), true)
    }

    fn append_to(self, cord: &mut Cord) {
        let data = boxed_bytes(self);
        let capacity: usize = data.len();
        cord.append_owned(Owner::Boxed(data), capacity);
        assert(owned_at_back(*old(cord), *cord, Owner::Boxed(data), true));
    }

    fn prepend_to(self, cord: &mut Cord) {
        let data = boxed_bytes(self);
        let capacity: usize = data.len();
        cord.prepend_owned(Owner::Boxed(data), capacity);
        assert(owned_at_front(*old(cord), *cord, Owner::Boxed(data), true));
    }
}

impl SourceSealed for Arc<[u8]> {

}

impl CordSource for Arc<[u8]> {
    open spec fn source_bytes(&self) -> Seq<u8> {
        self@
    }

    open spec fn added_at_back(&self, before: Cord, after: Cord) -> bool {
        owned_at_back(before, after, Owner::SharedSlice(*self), true)
    }

    open spec fn added_at_front(&self, before: Cord, after: Cord) -> bool {
        owned_at_front(before, after, Owner::SharedSlice(*self), true)
    }

    fn append_to(self, cord: &mut Cord) {
        let capacity: usize = self.len();
        cord.append_owned(Owner::SharedSlice(self), capacity);
    }

    fn prepend_to(self, cord: &mut Cord) {
        let capacity: usize = self.len();
        cord.prepend_owned(Owner::SharedSlice(self), capacity);
    }
}

impl SourceSealed for Arc<str> {

}

impl CordSource for Arc<str> {
    open spec fn source_bytes(&self) -> Seq<u8> {
        encode_utf8(self@)
    }

    open spec fn added_at_back(&self, before: Cord, after: Cord) -> bool {
        owned_at_back(before, after, Owner::SharedStr(*self), true)
    }

    open spec fn added_at_front(&self, before: Cord, after: Cord) -> bool {
        owned_at_front(before, after, Owner::SharedStr(*self), true)
    }

    fn append_to(self, cord: &mut Cord) {
        let capacity: usize = self.as_bytes().len();
        cord.append_owned(Owner::SharedStr(self), capacity);
    }

    fn prepend_to(self, cord: &mut Cord) {
        let capacity: usize = self.as_bytes().len();
        cord.prepend_owned(Owner::SharedStr(self), capacity);
    }
}

impl SourceSealed for Arc<Vec<u8>> {

}

impl CordSource for Arc<Vec<u8>> {
    open spec fn source_bytes(&self) -> Seq<u8> {
        self@
    }

    open spec fn added_at_back(&self, before: Cord, after: Cord) -> bool {
        owned_at_back(before, after, Owner::SharedVector(*self), true)
    }

    open spec fn added_at_front(&self, before: Cord, after: Cord) -> bool {
        owned_at_front(before, after, Owner::SharedVector(*self), true)
    }

    fn append_to(self, cord: &mut Cord) {
        let capacity: usize = self.len();
        cord.append_owned(Owner::SharedVector(self), capacity);
    }

    fn prepend_to(self, cord: &mut Cord) {
        let capacity: usize = self.len();
        cord.prepend_owned(Owner::SharedVector(self), capacity);
    }
}

impl SourceSealed for Arc<String> {

}

impl CordSource for Arc<String> {
    open spec fn source_bytes(&self) -> Seq<u8> {
        encode_utf8(self@)
    }

    open spec fn added_at_back(&self, before: Cord, after: Cord) -> bool {
        owned_at_back(before, after, Owner::SharedText(*self), true)
    }

    open spec fn added_at_front(&self, before: Cord, after: Cord) -> bool {
        owned_at_front(before, after, Owner::SharedText(*self), true)
    }

    fn append_to(self, cord: &mut Cord) {
        let capacity: usize = self.as_str().as_bytes().len();
        cord.append_owned(Owner::SharedText(self), capacity);
    }

    fn prepend_to(self, cord: &mut Cord) {
        let capacity: usize = self.as_str().as_bytes().len();
        cord.prepend_owned(Owner::SharedText(self), capacity);
    }
}

impl SourceSealed for SharedBuffer {

}

impl CordSource for SharedBuffer {
    open spec fn source_bytes(&self) -> Seq<u8> {
        buffer_bytes(*self)
    }

    open spec fn added_at_back(&self, before: Cord, after: Cord) -> bool {
        owned_at_back(before, after, Owner::Buffer(*self), true)
    }

    open spec fn added_at_front(&self, before: Cord, after: Cord) -> bool {
        owned_at_front(before, after, Owner::Buffer(*self), true)
    }

    fn append_to(self, cord: &mut Cord) {
        let owner = Owner::Buffer(self);
        let capacity: usize = owner.as_bytes().len();
        cord.append_owned(owner, capacity);
    }

    fn prepend_to(self, cord: &mut Cord) {
        let owner = Owner::Buffer(self);
        let capacity: usize = owner.as_bytes().len();
        cord.prepend_owned(owner, capacity);
    }
}

/// Marks the types that `StaticSource` is for.
pub trait StaticSealed {

}

/// Values that live as long as the program, which a cord can hold without copying.
pub trait StaticSource: StaticSealed {
    /// The bytes of the value.
    spec fn static_bytes(&self) -> Seq<u8>;

    /// What holds the bytes.
    fn owner(&'static self) -> (owner: Owner)
        ensures
            owner is Static || owner is StaticStr,
            owner.bytes() == self.static_bytes(),
    ;
}

impl StaticSealed for [u8] {

}

impl StaticSource for [u8] {
    open spec fn static_bytes(&self) -> Seq<u8> {
        self@
    }

    fn owner(&'static self) -> (owner: Owner) {
        Owner::Static(self)
    }
}

impl StaticSealed for str {

}

impl StaticSource for str {
    open spec fn static_bytes(&self) -> Seq<u8> {
        encode_utf8(self@)
    }

    fn owner(&'static self) -> (owner: Owner) {
        Owner::StaticStr(self)
    }
}

impl<const N: usize> StaticSealed for [u8; N] {

}

impl<const N: usize> StaticSource for [u8; N] {
    open spec fn static_bytes(&self) -> Seq<u8> {
        self@
    }

    fn owner(&'static self) -> (owner: Owner) {
        Owner::Static(self.as_slice())
    }
}

impl StaticSealed for Vec<u8> {

}

impl StaticSource for Vec<u8> {
    open spec fn static_bytes(&self) -> Seq<u8> {
        self@
    }

    fn owner(&'static self) -> (owner: Owner) {
        Owner::Static(self.as_slice())
    }
}

impl StaticSealed for String {

}

impl StaticSource for String {
    open spec fn static_bytes(&self) -> Seq<u8> {
        encode_utf8(self@)
    }

    fn owner(&'static self) -> (owner: Owner) {
        Owner::StaticStr(self.as_str())
    }
}

/// Byte sequences that a cord can be compared with and searched for.
pub trait CordLike: LikeSealed {
    /// The bytes of the sequence.
    spec fn like_bytes(&self) -> Seq<u8>;

    /// The number of bytes.
    fn len(&self) -> (len: usize)
        ensures
            len == self.like_bytes().len(),
    ;

    /// Whether there are no bytes.
    fn is_empty(&self) -> (r: bool)
        ensures
            r == (self.like_bytes().len() == 0),
    {
        self.len() == 0
    }

    /// The first contiguous chunk, empty only if there are no bytes.
    fn first_chunk(&self) -> (chunk: &[u8])
        ensures
            chunk@.len() <= self.like_bytes().len(),
            chunk@ == self.like_bytes().take(chunk@.len() as int),
            chunk@.len() == 0 <==> self.like_bytes().len() == 0,
    ;

    /// The contiguous chunks.
    fn chunks(&self) -> (chunks: Chunks<'_>)
        ensures
            chunks.wf(),
            chunks.rest() == self.like_bytes(),
    ;

    /// The cord, if the sequence is one.
    fn as_cord(&self) -> (cord: Option<&Cord>)
        ensures
            cord matches Some(cord) ==> cord@ == self.like_bytes(),
    {
        None
    }
}

impl LikeSealed for Cord {

}

impl CordLike for Cord {
    open spec fn like_bytes(&self) -> Seq<u8> {
        self@
    }

    fn len(&self) -> (len: usize) {
        Cord::len(self)
    }

    fn first_chunk(&self) -> (chunk: &[u8]) {
        Cord::first_chunk(self)
    }

    fn chunks(&self) -> (chunks: Chunks<'_>) {
        Cord::chunks(self)
    }

    fn as_cord(&self) -> (cord: Option<&Cord>) {
        Some(self)
    }
}

impl LikeSealed for [u8] {

}

impl CordLike for [u8] {
    open spec fn like_bytes(&self) -> Seq<u8> {
        self@
    }

    fn len(&self) -> (len: usize) {
        <[u8]>::len(self)
    }

    fn first_chunk(&self) -> (chunk: &[u8]) {
        assert(self@.take(self@.len() as int) =~= self@);
        self
    }

    fn chunks(&self) -> (chunks: Chunks<'_>) {
        Chunks::single(self)
    }
}

impl LikeSealed for str {

}

impl CordLike for str {
    open spec fn like_bytes(&self) -> Seq<u8> {
        encode_utf8(self@)
    }

    fn len(&self) -> (len: usize) {
        self.as_bytes().len()
    }

    fn first_chunk(&self) -> (chunk: &[u8]) {
        let data = self.as_bytes();
        assert(data@.take(data@.len() as int) =~= data@);
        data
    }

    fn chunks(&self) -> (chunks: Chunks<'_>) {
        Chunks::single(self.as_bytes())
    }
}

impl LikeSealed for Vec<u8> {

}

impl CordLike for Vec<u8> {
    open spec fn like_bytes(&self) -> Seq<u8> {
        self@
    }

    fn len(&self) -> (len: usize) {
        self.as_slice().len()
    }

    fn first_chunk(&self) -> (chunk: &[u8]) {
        assert(self@.take(self@.len() as int) =~= self@);
        self.as_slice()
    }

    fn chunks(&self) -> (chunks: Chunks<'_>) {
        Chunks::single(self.as_slice())
    }
}

impl LikeSealed for String {

}

impl CordLike for String {
    open spec fn like_bytes(&self) -> Seq<u8> {
        encode_utf8(self@)
    }

    fn len(&self) -> (len: usize) {
        self.as_str().as_bytes().len()
    }

    fn first_chunk(&self) -> (chunk: &[u8]) {
        let data = self.as_str().as_bytes();
        assert(data@.take(data@.len() as int) =~= data@);
        data
    }

    fn chunks(&self) -> (chunks: Chunks<'_>) {
        Chunks::single(self.as_str().as_bytes())
    }
}

impl LikeSealed for CordBuffer {

}

impl CordLike for CordBuffer {
    open spec fn like_bytes(&self) -> Seq<u8> {
        self@
    }

    fn len(&self) -> (len: usize) {
        CordBuffer::len(self)
    }

    fn first_chunk(&self) -> (chunk: &[u8]) {
        assert(self@.take(self@.len() as int) =~= self@);
        self.as_slice()
    }

    fn chunks(&self) -> (chunks: Chunks<'_>) {
        Chunks::single(self.as_slice())
    }
}

impl<const N: usize> LikeSealed for [u8; N] {

}

impl<const N: usize> CordLike for [u8; N] {
    open spec fn like_bytes(&self) -> Seq<u8> {
        self@
    }

    fn len(&self) -> (len: usize) {
        self.as_slice().len()
    }

    fn first_chunk(&self) -> (chunk: &[u8]) {
        assert(self@.take(self@.len() as int) =~= self@);
        self.as_slice()
    }

    fn chunks(&self) -> (chunks: Chunks<'_>) {
        Chunks::single(self.as_slice())
    }
}

impl LikeSealed for SharedBuffer {

}

impl CordLike for SharedBuffer {
    open spec fn like_bytes(&self) -> Seq<u8> {
        buffer_bytes(*self)
    }

    fn len(&self) -> (len: usize) {
        buffer_slice(self).len()
    }

    fn first_chunk(&self) -> (chunk: &[u8]) {
        let data = buffer_slice(self);
        assert(data@.take(data@.len() as int) =~= data@);
        data
    }

    fn chunks(&self) -> (chunks: Chunks<'_>) {
        Chunks::single(buffer_slice(self))
    }
}

impl<T: CordLike + ?Sized> LikeSealed for &T {

}

impl<T: CordLike + ?Sized> CordLike for &T {
    open spec fn like_bytes(&self) -> Seq<u8> {
        (**self).like_bytes()
    }

    fn len(&self) -> (len: usize) {
        T::len(*self)
    }

    fn first_chunk(&self) -> (chunk: &[u8]) {
        T::first_chunk(*self)
    }

    fn chunks(&self) -> (chunks: Chunks<'_>) {
        T::chunks(*self)
    }

    fn as_cord(&self) -> (cord: Option<&Cord>) {
        T::as_cord(*self)
    }
}

} // verus!
