//! What each kind of value adds to a cord, and how.

use super::pieces::law_cut;
use crate::buffer::CordBuffer;
use crate::convert::{added_in_turn, added_once, is_empty_cord, is_static, sources_bytes};
use crate::cord::Cord;
use crate::edit::{
    adopted, buffer_at_back, buffer_at_front, copied_to_back, copied_to_front, cord_at_back, cord_at_front,
    made_of_owner, owned_at_back, owned_at_front, owner_at_back, owner_at_front,
};
use crate::inline_data::InlineData;
use crate::iter::chunks_of;
use crate::rep::external::{buffer_bytes, occupies, CordRepExternal, Owner};
use crate::rep::pieces::cut;
use crate::rep::CordRep;
use crate::source::{CordSource, StaticSource};
use bytes::Bytes as SharedBuffer;
use std::borrow::Cow;
use std::sync::Arc;
use vstd::prelude::*;
use vstd::utf8::encode_utf8;

verus! {

/// A slice adds its bytes, which are copied.
pub proof fn law_source_slice(t: &[u8], before: Cord, after: Cord)
    ensures
        CordSource::source_bytes(&t) == t@,
        CordSource::added_at_back(&t, before, after) <==> copied_to_back(before, after, t@),
        CordSource::added_at_front(&t, before, after) <==> copied_to_front(before, after, t@),
{
}

/// A text adds its bytes, which are copied.
pub proof fn law_source_str(t: &str, before: Cord, after: Cord)
    ensures
        CordSource::source_bytes(&t) == encode_utf8(t@),
        CordSource::added_at_back(&t, before, after) <==> copied_to_back(before, after, encode_utf8(t@)),
        CordSource::added_at_front(&t, before, after) <==> copied_to_front(before, after, encode_utf8(t@)),
{
}

/// A borrowed vector adds its bytes, which are copied.
pub proof fn law_source_vec_ref(t: &Vec<u8>, before: Cord, after: Cord)
    ensures
        CordSource::source_bytes(&t) == t@,
        CordSource::added_at_back(&t, before, after) <==> copied_to_back(before, after, t@),
        CordSource::added_at_front(&t, before, after) <==> copied_to_front(before, after, t@),
{
}

/// A borrowed string adds its bytes, which are copied.
pub proof fn law_source_string_ref(t: &String, before: Cord, after: Cord)
    ensures
        CordSource::source_bytes(&t) == encode_utf8(t@),
        CordSource::added_at_back(&t, before, after) <==> copied_to_back(before, after, encode_utf8(t@)),
        CordSource::added_at_front(&t, before, after) <==> copied_to_front(before, after, encode_utf8(t@)),
{
}

/// A borrowed array adds its bytes, which are copied.
pub proof fn law_source_array<const N: usize>(t: &[u8; N], before: Cord, after: Cord)
    ensures
        CordSource::source_bytes(&t) == t@,
        CordSource::added_at_back(&t, before, after) <==> copied_to_back(before, after, t@),
        CordSource::added_at_front(&t, before, after) <==> copied_to_front(before, after, t@),
{
}

/// A borrowed buffer adds its bytes, which are copied.
pub proof fn law_source_buffer_ref(t: &CordBuffer, before: Cord, after: Cord)
    ensures
        CordSource::source_bytes(&t) == t@,
        CordSource::added_at_back(&t, before, after) <==> copied_to_back(before, after, t@),
        CordSource::added_at_front(&t, before, after) <==> copied_to_front(before, after, t@),
{
}

/// A borrowed boxed slice adds its bytes, which are copied.
pub proof fn law_source_boxed_ref(t: &Box<[u8]>, before: Cord, after: Cord)
    ensures
        CordSource::source_bytes(&t) == t@,
        CordSource::added_at_back(&t, before, after) <==> copied_to_back(before, after, t@),
        CordSource::added_at_front(&t, before, after) <==> copied_to_front(before, after, t@),
{
}

/// A borrowed shared slice adds its bytes, which are copied.
pub proof fn law_source_shared_slice_ref(t: &Arc<[u8]>, before: Cord, after: Cord)
    ensures
        CordSource::source_bytes(&t) == t@,
        CordSource::added_at_back(&t, before, after) <==> copied_to_back(before, after, t@),
        CordSource::added_at_front(&t, before, after) <==> copied_to_front(before, after, t@),
{
}

/// A borrowed buffer of the `bytes` crate adds its bytes, which are copied.
pub proof fn law_source_shared_buffer_ref(t: &SharedBuffer, before: Cord, after: Cord)
    ensures
        CordSource::source_bytes(&t) == buffer_bytes(*t),
        CordSource::added_at_back(&t, before, after) <==> copied_to_back(before, after, buffer_bytes(*t)),
        CordSource::added_at_front(&t, before, after) <==> copied_to_front(before, after, buffer_bytes(*t)),
{
}

/// A boxed slice adds its bytes. More than 511 of them are not copied:
/// it becomes the last, or the first, data edge.
pub proof fn law_source_boxed(t: Box<[u8]>, before: Cord, after: Cord)
    ensures
        CordSource::source_bytes(&t) == t@,
        Owner::Boxed(t).bytes() == t@,
        t@.len() <= 511 && CordSource::added_at_back(&t, before, after) ==> copied_to_back(before, after, t@),
        t@.len() <= 511 && CordSource::added_at_front(&t, before, after) ==> copied_to_front(before, after, t@),
        t@.len() > 511 && CordSource::added_at_back(&t, before, after) ==> after.edges().len() > 0
            && *after.edges().last() == CordRep::External(CordRepExternal { owner: Owner::Boxed(t) }),
        t@.len() > 511 && CordSource::added_at_front(&t, before, after) ==> after.edges().len() > 0
            && *after.edges().first() == CordRep::External(CordRepExternal { owner: Owner::Boxed(t) }),
{
}

/// A shared slice adds its bytes. More than 511 of them are not copied:
/// it becomes the last, or the first, data edge.
pub proof fn law_source_shared_slice(t: Arc<[u8]>, before: Cord, after: Cord)
    ensures
        CordSource::source_bytes(&t) == t@,
        Owner::SharedSlice(t).bytes() == t@,
        t@.len() <= 511 && CordSource::added_at_back(&t, before, after) ==> copied_to_back(before, after, t@),
        t@.len() <= 511 && CordSource::added_at_front(&t, before, after) ==> copied_to_front(before, after, t@),
        t@.len() > 511 && CordSource::added_at_back(&t, before, after) ==> after.edges().len() > 0
            && *after.edges().last() == CordRep::External(CordRepExternal { owner: Owner::SharedSlice(t) }),
        t@.len() > 511 && CordSource::added_at_front(&t, before, after) ==> after.edges().len() > 0
            && *after.edges().first() == CordRep::External(CordRepExternal { owner: Owner::SharedSlice(t) }),
{
}

/// A shared text adds its bytes. More than 511 of them are not copied:
/// it becomes the last, or the first, data edge.
pub proof fn law_source_shared_str(t: Arc<str>, before: Cord, after: Cord)
    ensures
        CordSource::source_bytes(&t) == encode_utf8(t@),
        Owner::SharedStr(t).bytes() == encode_utf8(t@),
        encode_utf8(t@).len() <= 511 && CordSource::added_at_back(&t, before, after) ==> copied_to_back(before, after, encode_utf8(t@)),
        encode_utf8(t@).len() <= 511 && CordSource::added_at_front(&t, before, after) ==> copied_to_front(before, after, encode_utf8(t@)),
        encode_utf8(t@).len() > 511 && CordSource::added_at_back(&t, before, after) ==> after.edges().len() > 0
            && *after.edges().last() == CordRep::External(CordRepExternal { owner: Owner::SharedStr(t) }),
        encode_utf8(t@).len() > 511 && CordSource::added_at_front(&t, before, after) ==> after.edges().len() > 0
            && *after.edges().first() == CordRep::External(CordRepExternal { owner: Owner::SharedStr(t) }),
{
}

/// A shared vector adds its bytes. More than 511 of them are not copied:
/// it becomes the last, or the first, data edge.
pub proof fn law_source_shared_vec(t: Arc<Vec<u8>>, before: Cord, after: Cord)
    ensures
        CordSource::source_bytes(&t) == t@,
        Owner::SharedVector(t).bytes() == t@,
        t@.len() <= 511 && CordSource::added_at_back(&t, before, after) ==> copied_to_back(before, after, t@),
        t@.len() <= 511 && CordSource::added_at_front(&t, before, after) ==> copied_to_front(before, after, t@),
        t@.len() > 511 && CordSource::added_at_back(&t, before, after) ==> after.edges().len() > 0
            && *after.edges().last() == CordRep::External(CordRepExternal { owner: Owner::SharedVector(t) }),
        t@.len() > 511 && CordSource::added_at_front(&t, before, after) ==> after.edges().len() > 0
            && *after.edges().first() == CordRep::External(CordRepExternal { owner: Owner::SharedVector(t) }),
{
}

/// A shared string adds its bytes. More than 511 of them are not copied:
/// it becomes the last, or the first, data edge.
pub proof fn law_source_shared_string(t: Arc<String>, before: Cord, after: Cord)
    ensures
        CordSource::source_bytes(&t) == encode_utf8(t@),
        Owner::SharedText(t).bytes() == encode_utf8(t@),
        encode_utf8(t@).len() <= 511 && CordSource::added_at_back(&t, before, after) ==> copied_to_back(before, after, encode_utf8(t@)),
        encode_utf8(t@).len() <= 511 && CordSource::added_at_front(&t, before, after) ==> copied_to_front(before, after, encode_utf8(t@)),
        encode_utf8(t@).len() > 511 && CordSource::added_at_back(&t, before, after) ==> after.edges().len() > 0
            && *after.edges().last() == CordRep::External(CordRepExternal { owner: Owner::SharedText(t) }),
        encode_utf8(t@).len() > 511 && CordSource::added_at_front(&t, before, after) ==> after.edges().len() > 0
            && *after.edges().first() == CordRep::External(CordRepExternal { owner: Owner::SharedText(t) }),
{
}

/// A buffer of the `bytes` crate adds its bytes. More than 511 of them are not copied:
/// it becomes the last, or the first, data edge.
pub proof fn law_source_shared_buffer(t: SharedBuffer, before: Cord, after: Cord)
    ensures
        CordSource::source_bytes(&t) == buffer_bytes(t),
        Owner::Buffer(t).bytes() == buffer_bytes(t),
        buffer_bytes(t).len() <= 511 && CordSource::added_at_back(&t, before, after) ==> copied_to_back(before, after, buffer_bytes(t)),
        buffer_bytes(t).len() <= 511 && CordSource::added_at_front(&t, before, after) ==> copied_to_front(before, after, buffer_bytes(t)),
        buffer_bytes(t).len() > 511 && CordSource::added_at_back(&t, before, after) ==> after.edges().len() > 0
            && *after.edges().last() == CordRep::External(CordRepExternal { owner: Owner::Buffer(t) }),
        buffer_bytes(t).len() > 511 && CordSource::added_at_front(&t, before, after) ==> after.edges().len() > 0
            && *after.edges().first() == CordRep::External(CordRepExternal { owner: Owner::Buffer(t) }),
{
}

/// A vector adds its bytes: a copy of up to 511, and of more that
/// are less than half of what it occupies; otherwise it
/// becomes the last, or the first, data edge.
pub proof fn law_source_vec(t: Vec<u8>, before: Cord, after: Cord)
    ensures
        CordSource::source_bytes(&t) == t@,
        Owner::Vector(t).bytes() == t@,
        CordSource::added_at_back(&t, before, after) <==> owner_at_back(before, after, Owner::Vector(t)),
        CordSource::added_at_front(&t, before, after) <==> owner_at_front(before, after, Owner::Vector(t)),
        t@.len() <= 511 && CordSource::added_at_back(&t, before, after) ==> copied_to_back(before, after, t@),
        t@.len() <= 511 && CordSource::added_at_front(&t, before, after) ==> copied_to_front(before, after, t@),
{
}

/// A string adds its bytes: a copy of up to 511, and of more that
/// are less than half of what it occupies; otherwise it
/// becomes the last, or the first, data edge.
pub proof fn law_source_string(t: String, before: Cord, after: Cord)
    ensures
        CordSource::source_bytes(&t) == encode_utf8(t@),
        Owner::Text(t).bytes() == encode_utf8(t@),
        CordSource::added_at_back(&t, before, after) <==> owner_at_back(before, after, Owner::Text(t)),
        CordSource::added_at_front(&t, before, after) <==> owner_at_front(before, after, Owner::Text(t)),
        encode_utf8(t@).len() <= 511 && CordSource::added_at_back(&t, before, after) ==> copied_to_back(before, after, encode_utf8(t@)),
        encode_utf8(t@).len() <= 511 && CordSource::added_at_front(&t, before, after) ==> copied_to_front(before, after, encode_utf8(t@)),
{
}

/// A borrowed slice in a `Cow` is copied, and an owned one is added like any owned value.
pub proof fn law_source_cow_bytes(t: Cow<'_, [u8]>, before: Cord, after: Cord)
    ensures
        CordSource::source_bytes(&t) == t@,
        t matches Cow::Borrowed(data) ==> {
            &&& CordSource::added_at_back(&t, before, after) <==> copied_to_back(before, after, data@)
            &&& CordSource::added_at_front(&t, before, after) <==> copied_to_front(before, after, data@)
        },
        t matches Cow::Owned(data) ==> {
            &&& CordSource::added_at_back(&t, before, after) <==> owner_at_back(before, after, Owner::Vector(data))
            &&& CordSource::added_at_front(&t, before, after) <==> owner_at_front(before, after, Owner::Vector(data))
        },
{
}

/// A borrowed text in a `Cow` is copied, and an owned one is added like any owned value.
pub proof fn law_source_cow_str(t: Cow<'_, str>, before: Cord, after: Cord)
    ensures
        CordSource::source_bytes(&t) == encode_utf8(t@),
        t matches Cow::Borrowed(data) ==> {
            &&& CordSource::added_at_back(&t, before, after) <==> copied_to_back(before, after, encode_utf8(data@))
            &&& CordSource::added_at_front(&t, before, after) <==> copied_to_front(before, after, encode_utf8(data@))
        },
        t matches Cow::Owned(data) ==> {
            &&& CordSource::added_at_back(&t, before, after) <==> owner_at_back(before, after, Owner::Text(data))
            &&& CordSource::added_at_front(&t, before, after) <==> owner_at_front(before, after, Owner::Text(data))
        },
{
}

/// A boxed text adds its bytes: more than 511 of them stay in one boxed slice,
/// which becomes the last, or the first, data edge.
pub proof fn law_source_boxed_str(t: Box<str>, before: Cord, after: Cord)
    ensures
        CordSource::source_bytes(&t) == encode_utf8(t@),
        encode_utf8(t@).len() > 511 && CordSource::added_at_back(&t, before, after) ==> after.edges().len() > 0
            && *after.edges().last() is External && after.edges().last().bytes() == encode_utf8(t@),
        encode_utf8(t@).len() > 511 && CordSource::added_at_front(&t, before, after) ==> after.edges().len() > 0
            && *after.edges().first() is External && after.edges().first().bytes() == encode_utf8(t@),
{
}

/// Cords and buffers add their bytes.
pub proof fn law_source_cords(cord: Cord, borrowed: &Cord, buffer: CordBuffer, before: Cord, after: Cord)
    ensures
        CordSource::source_bytes(&cord) == cord@,
        CordSource::source_bytes(&borrowed) == borrowed@,
        CordSource::source_bytes(&buffer) == buffer@,
        CordSource::added_at_back(&cord, before, after) <==> cord_at_back(before, after, cord),
        CordSource::added_at_front(&cord, before, after) <==> cord_at_front(before, after, cord),
        CordSource::added_at_back(&borrowed, before, after) <==> cord_at_back(before, after, *borrowed),
        CordSource::added_at_front(&borrowed, before, after) <==> cord_at_front(before, after, *borrowed),
        CordSource::added_at_back(&buffer, before, after) <==> buffer_at_back(before, after, buffer),
        CordSource::added_at_front(&buffer, before, after) <==> buffer_at_front(before, after, buffer),
{
}

/// A value is held as it is, rather than copied, exactly where it has more
/// than 511 bytes and they are at least half of what it occupies.
pub proof fn law_adopted(len: nat, capacity: usize)
    ensures
        adopted(len, capacity) <==> len >= 512 && 2 * len + 1 >= capacity,
        len >= 512 && len >= capacity ==> adopted(len, capacity),
{
}

/// What a value occupies decides how it is added: it is the last, or the first,
/// data edge where it is adopted.
pub proof fn law_owner_added(before: Cord, after: Cord, owner: Owner)
    ensures
        owner_at_back(before, after, owner) ==> exists|capacity: usize|
            {
                &&& #[trigger] occupies(owner, capacity)
                &&& owner.bytes().len() >= 512 && 2 * owner.bytes().len() + 1 >= capacity ==> after.edges().len() > 0
                    && *after.edges().last() == CordRep::External(CordRepExternal { owner })
            },
        owner_at_front(before, after, owner) ==> exists|capacity: usize|
            {
                &&& #[trigger] occupies(owner, capacity)
                &&& owner.bytes().len() >= 512 && 2 * owner.bytes().len() + 1 >= capacity ==> after.edges().len() > 0
                    && *after.edges().first() == CordRep::External(CordRepExternal { owner })
            },
        made_of_owner(after, owner) ==> exists|capacity: usize|
            {
                &&& #[trigger] occupies(owner, capacity)
                &&& owner.bytes().len() >= 512 && 2 * owner.bytes().len() + 1 >= capacity ==> after.contents() is Tree
                    && *after.contents()->Tree_0 == CordRep::External(CordRepExternal { owner })
            },
{
    if owner_at_back(before, after, owner) {
        let capacity = choose|capacity: usize| #[trigger]
            occupies(owner, capacity) && owned_at_back(before, after, owner, adopted(owner.bytes().len(), capacity));
        law_adopted(owner.bytes().len(), capacity);
        assert(occupies(owner, capacity));
    }
    if owner_at_front(before, after, owner) {
        let capacity = choose|capacity: usize| #[trigger]
            occupies(owner, capacity) && owned_at_front(before, after, owner, adopted(owner.bytes().len(), capacity));
        law_adopted(owner.bytes().len(), capacity);
        assert(occupies(owner, capacity));
    }
}

/// An adopted value is one more chunk, and the bytes of another one are copied
/// into blocks of their own; either way all other chunks stay.
pub proof fn law_owned_chunks(before: Cord, after: Cord, owner: Owner, adopt: bool)
    requires
        owner.bytes().len() > 511,
    ensures
        owned_at_back(before, after, owner, adopt) ==> {
            let chunks = chunks_of(after.contents());
            let n = chunks_of(before.contents()).len() as int;
            &&& chunks.len() >= n
            &&& chunks.take(n) == chunks_of(before.contents())
            &&& chunks.skip(n).flatten() == owner.bytes()
            &&& adopt ==> chunks.len() == n + 1
            &&& !adopt ==> forall|i: int| n <= i < chunks.len() - 1 ==> (#[trigger] chunks[i]).len() == 4083
        },
        owned_at_front(before, after, owner, adopt) ==> {
            let chunks = chunks_of(after.contents());
            let m = chunks.len() - chunks_of(before.contents()).len();
            &&& m >= 0
            &&& chunks.skip(m) == chunks_of(before.contents())
            &&& chunks.take(m).flatten() == owner.bytes()
            &&& adopt ==> m == 1
            &&& !adopt ==> forall|i: int| 0 <= i < m - 1 ==> (#[trigger] chunks[i]).len() == 4083
        },
{
    let src = owner.bytes();
    let old_chunks = chunks_of(before.contents());
    let chunks = chunks_of(after.contents());
    let new = if adopt {
        seq![src]
    } else {
        cut(true, src)
    };
    law_cut(true, src);
    seq![src].lemma_flatten_one_element();
    if owned_at_back(before, after, owner, adopt) {
        assert(chunks =~= old_chunks + new);
        assert(chunks.take(old_chunks.len() as int) =~= old_chunks);
        assert(chunks.skip(old_chunks.len() as int) =~= new);
        assert forall|i: int| old_chunks.len() <= i < chunks.len() implies #[trigger] chunks[i] == new[i
            - old_chunks.len()] by {
        }
    }
    if owned_at_front(before, after, owner, adopt) {
        assert(chunks =~= new + old_chunks);
        assert(chunks.take(new.len() as int) =~= new);
        assert(chunks.skip(new.len() as int) =~= old_chunks);
        assert forall|i: int| 0 <= i < new.len() implies #[trigger] chunks[i] == new[i] by {
        }
    }
}

/// Items add their bytes in order: what comes after other items comes behind
/// their bytes, and adding none changes nothing.
pub proof fn law_items_in_order<S: CordSource>(items: Seq<S>, item: S, before: Cord, mid: Cord, after: Cord)
    ensures
        sources_bytes(Seq::<S>::empty()) == Seq::<u8>::empty(),
        sources_bytes(items.push(item)) == sources_bytes(items) + item.source_bytes(),
        added_in_turn(before, after, Seq::<S>::empty()) <==> after == before,
        added_in_turn(before, mid, items) && item.added_at_back(mid, after) ==> added_in_turn(
            before,
            after,
            items.push(item),
        ),
        added_in_turn(before, after, seq![item]) <==> item.added_at_back(before, after),
{
    assert(items.push(item).drop_last() =~= items);
    if added_in_turn(before, mid, items) && item.added_at_back(mid, after) {
        assert(added_once(mid, after, items.push(item).last()));
    }
    let one = seq![item];
    assert(one.drop_last() =~= Seq::<S>::empty());
    reveal_with_fuel(added_in_turn, 2);
    if item.added_at_back(before, after) {
        assert(added_once(before, after, one.last()));
    }
}

/// The bytes of a value that lives as long as the program are its bytes.
pub proof fn law_static_bytes<const N: usize>(
    slice: &[u8],
    text: &str,
    array: &[u8; N],
    vector: &Vec<u8>,
    string: &String,
)
    ensures
        slice.static_bytes() == slice@,
        text.static_bytes() == encode_utf8(text@),
        array.static_bytes() == array@,
        vector.static_bytes() == vector@,
        string.static_bytes() == encode_utf8(string@),
{
}

/// A cord that refers to a value which lives as long as the program consists of one external block.
pub proof fn law_static_block(data: InlineData)
    requires
        is_static(data),
    ensures
        data is Tree,
        *data->Tree_0 is External,
        ({
            let owner = (*data->Tree_0)->External_0.owner;
            owner is Static || owner is StaticStr
        }),
{
}

/// An empty cord has no bytes and no block.
pub proof fn law_empty_cord(cord: Cord)
    ensures
        is_empty_cord(cord) <==> cord@ == Seq::<u8>::empty() && !(cord.contents() is Tree),
{
    assert(cord@.len() == 0 ==> cord@ =~= Seq::<u8>::empty());
}

} // verus!
