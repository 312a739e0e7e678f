//! Buffers as slices, and their equality with other byte sequences.

use crate::buffer::CordBuffer;
use crate::order::equal_slices;
use core::ops::{Deref, DerefMut};
use vstd::prelude::*;
use vstd::utf8::encode_utf8;

verus! {

impl AsRef<[u8]> for CordBuffer {
    fn as_ref(&self) -> (data: &[u8])
        ensures
            data@ == self@,
    {
        self.as_slice()
    }
}

impl AsMut<[u8]> for CordBuffer {
    fn as_mut(&mut self) -> (data: &mut [u8])
        ensures
            data@ == old(self)@,
            final(self)@ == final(data)@,
            final(data)@.len() == old(self)@.len(),
            final(self).spec_capacity() == old(self).spec_capacity(),
            final(self).spec_is_short() == old(self).spec_is_short(),
    {
        self.as_mut_slice()
    }
}

impl Deref for CordBuffer {
    type Target = [u8];

    fn deref(&self) -> (data: &[u8])
        ensures
            data@ == self@,
    {
        self.as_slice()
    }
}

impl DerefMut for CordBuffer {
    fn deref_mut(&mut self) -> (data: &mut [u8])
        ensures
            data@ == old(self)@,
            final(self)@ == final(data)@,
            final(data)@.len() == old(self)@.len(),
            final(self).spec_capacity() == old(self).spec_capacity(),
            final(self).spec_is_short() == old(self).spec_is_short(),
    {
        self.as_mut_slice()
    }
}

impl PartialEq<[u8]> for CordBuffer {
    fn eq(&self, other: &[u8]) -> (r: bool) {
        equal_slices(self.as_slice(), other)
    }
}

impl vstd::std_specs::cmp::PartialEqSpecImpl<[u8]> for CordBuffer {
    open spec fn obeys_eq_spec() -> bool {
        true
    }

    open spec fn eq_spec(&self, other: &[u8]) -> bool {
        self@ == other@
    }
}

impl PartialEq<CordBuffer> for [u8] {
    fn eq(&self, other: &CordBuffer) -> (r: bool) {
        equal_slices(self, other.as_slice())
    }
}

impl vstd::std_specs::cmp::PartialEqSpecImpl<CordBuffer> for [u8] {
    open spec fn obeys_eq_spec() -> bool {
        true
    }

    open spec fn eq_spec(&self, other: &CordBuffer) -> bool {
        self@ == other@
    }
}

impl PartialEq<&[u8]> for CordBuffer {
    fn eq(&self, other: &&[u8]) -> (r: bool) {
        equal_slices(self.as_slice(), other)
    }
}

impl vstd::std_specs::cmp::PartialEqSpecImpl<&[u8]> for CordBuffer {
    open spec fn obeys_eq_spec() -> bool {
        true
    }

    open spec fn eq_spec(&self, other: &&[u8]) -> bool {
        self@ == other@
    }
}

impl PartialEq<CordBuffer> for &[u8] {
    fn eq(&self, other: &CordBuffer) -> (r: bool) {
        equal_slices(self, other.as_slice())
    }
}

impl vstd::std_specs::cmp::PartialEqSpecImpl<CordBuffer> for &[u8] {
    open spec fn obeys_eq_spec() -> bool {
        true
    }

    open spec fn eq_spec(&self, other: &CordBuffer) -> bool {
        self@ == other@
    }
}

impl PartialEq<Vec<u8>> for CordBuffer {
    fn eq(&self, other: &Vec<u8>) -> (r: bool) {
        equal_slices(self.as_slice(), other.as_slice())
    }
}

impl vstd::std_specs::cmp::PartialEqSpecImpl<Vec<u8>> for CordBuffer {
    open spec fn obeys_eq_spec() -> bool {
        true
    }

    open spec fn eq_spec(&self, other: &Vec<u8>) -> bool {
        self@ == other@
    }
}

impl PartialEq<CordBuffer> for Vec<u8> {
    fn eq(&self, other: &CordBuffer) -> (r: bool) {
        equal_slices(self.as_slice(), other.as_slice())
    }
}

impl vstd::std_specs::cmp::PartialEqSpecImpl<CordBuffer> for Vec<u8> {
    open spec fn obeys_eq_spec() -> bool {
        true
    }

    open spec fn eq_spec(&self, other: &CordBuffer) -> bool {
        self@ == other@
    }
}

impl PartialEq<str> for CordBuffer {
    fn eq(&self, other: &str) -> (r: bool) {
        equal_slices(self.as_slice(), other.as_bytes())
    }
}

impl vstd::std_specs::cmp::PartialEqSpecImpl<str> for CordBuffer {
    open spec fn obeys_eq_spec() -> bool {
        true
    }

    open spec fn eq_spec(&self, other: &str) -> bool {
        self@ == encode_utf8(other@)
    }
}

impl PartialEq<CordBuffer> for str {
    fn eq(&self, other: &CordBuffer) -> (r: bool) {
        equal_slices(self.as_bytes(), other.as_slice())
    }
}

impl vstd::std_specs::cmp::PartialEqSpecImpl<CordBuffer> for str {
    open spec fn obeys_eq_spec() -> bool {
        true
    }

    open spec fn eq_spec(&self, other: &CordBuffer) -> bool {
        encode_utf8(self@) == other@
    }
}

impl PartialEq<&str> for CordBuffer {
    fn eq(&self, other: &&str) -> (r: bool) {
        equal_slices(self.as_slice(), other.as_bytes())
    }
}

impl vstd::std_specs::cmp::PartialEqSpecImpl<&str> for CordBuffer {
    open spec fn obeys_eq_spec() -> bool {
        true
    }

    open spec fn eq_spec(&self, other: &&str) -> bool {
        self@ == encode_utf8(other@)
    }
}

impl PartialEq<CordBuffer> for &str {
    fn eq(&self, other: &CordBuffer) -> (r: bool) {
        equal_slices(self.as_bytes(), other.as_slice())
    }
}

impl vstd::std_specs::cmp::PartialEqSpecImpl<CordBuffer> for &str {
    open spec fn obeys_eq_spec() -> bool {
        true
    }

    open spec fn eq_spec(&self, other: &CordBuffer) -> bool {
        encode_utf8(self@) == other@
    }
}

impl PartialEq<String> for CordBuffer {
    fn eq(&self, other: &String) -> (r: bool) {
        equal_slices(self.as_slice(), other.as_str().as_bytes())
    }
}

impl vstd::std_specs::cmp::PartialEqSpecImpl<String> for CordBuffer {
    open spec fn obeys_eq_spec() -> bool {
        true
    }

    open spec fn eq_spec(&self, other: &String) -> bool {
        self@ == encode_utf8(other@)
    }
}

impl PartialEq<CordBuffer> for String {
    fn eq(&self, other: &CordBuffer) -> (r: bool) {
        equal_slices(self.as_str().as_bytes(), other.as_slice())
    }
}

impl vstd::std_specs::cmp::PartialEqSpecImpl<CordBuffer> for String {
    open spec fn obeys_eq_spec() -> bool {
        true
    }

    open spec fn eq_spec(&self, other: &CordBuffer) -> bool {
        encode_utf8(self@) == other@
    }
}

impl<const N: usize> PartialEq<[u8; N]> for CordBuffer {
    fn eq(&self, other: &[u8; N]) -> (r: bool) {
        equal_slices(self.as_slice(), other.as_slice())
    }
}

impl<const N: usize> vstd::std_specs::cmp::PartialEqSpecImpl<[u8; N]> for CordBuffer {
    open spec fn obeys_eq_spec() -> bool {
        true
    }

    open spec fn eq_spec(&self, other: &[u8; N]) -> bool {
        self@ == other@
    }
}

impl<const N: usize> PartialEq<CordBuffer> for [u8; N] {
    fn eq(&self, other: &CordBuffer) -> (r: bool) {
        equal_slices(self.as_slice(), other.as_slice())
    }
}

impl<const N: usize> vstd::std_specs::cmp::PartialEqSpecImpl<CordBuffer> for [u8; N] {
    open spec fn obeys_eq_spec() -> bool {
        true
    }

    open spec fn eq_spec(&self, other: &CordBuffer) -> bool {
        self@ == other@
    }
}

impl<const N: usize> PartialEq<&[u8; N]> for CordBuffer {
    fn eq(&self, other: &&[u8; N]) -> (r: bool) {
        equal_slices(self.as_slice(), other.as_slice())
    }
}

impl<const N: usize> vstd::std_specs::cmp::PartialEqSpecImpl<&[u8; N]> for CordBuffer {
    open spec fn obeys_eq_spec() -> bool {
        true
    }

    open spec fn eq_spec(&self, other: &&[u8; N]) -> bool {
        self@ == other@
    }
}

impl<const N: usize> PartialEq<CordBuffer> for &[u8; N] {
    fn eq(&self, other: &CordBuffer) -> (r: bool) {
        equal_slices(self.as_slice(), other.as_slice())
    }
}

impl<const N: usize> vstd::std_specs::cmp::PartialEqSpecImpl<CordBuffer> for &[u8; N] {
    open spec fn obeys_eq_spec() -> bool {
        true
    }

    open spec fn eq_spec(&self, other: &CordBuffer) -> bool {
        self@ == other@
    }
}

} // verus!
