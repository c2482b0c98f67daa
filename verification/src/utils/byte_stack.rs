//! A bounded vector of bytes.

use heapless::Vec as HeaplessVec;
use vstd::prelude::*;

verus! {

/// `heapless::Vec`: a vector with a fixed capacity.
#[verifier::external_type_specification]
#[verifier::external_body]
#[verifier::reject_recursive_types(T)]
pub struct ExHeaplessVec<T, const N: usize>(HeaplessVec<T, N>);

/// The bytes of a vector, in their order.
pub uninterp spec fn vec_bytes(v: HeaplessVec<u8, 256>) -> Seq<u8>;

/// Calls `heapless::Vec::new`: the vector is empty.
#[verifier::external_body]
pub(crate) fn vec_new() -> (r: HeaplessVec<u8, 256>)
    ensures
        vec_bytes(r) == Seq::<u8>::empty(),
{
    HeaplessVec::new()
}

/// Calls `heapless::Vec::push`: appends a byte, or hands it back if the vector is full.
#[verifier::external_body]
pub(crate) fn vec_push(v: &mut HeaplessVec<u8, 256>, byte: u8) -> (r: Result<(), u8>)
    ensures
        r == (if vec_bytes(*old(v)).len() < 256 { Ok(()) } else { Err(byte) }),
        vec_bytes(*final(v)) == (if vec_bytes(*old(v)).len() < 256 {
            vec_bytes(*old(v)).push(byte)
        } else {
            vec_bytes(*old(v))
        }),
{
    v.push(byte)
}

/// Calls `heapless::Vec::pop`: takes the last byte out.
#[verifier::external_body]
pub(crate) fn vec_pop(v: &mut HeaplessVec<u8, 256>) -> (r: Option<u8>)
    ensures
        r == (if vec_bytes(*old(v)).len() > 0 { Some(vec_bytes(*old(v)).last()) } else { None }),
        vec_bytes(*final(v)) == (if vec_bytes(*old(v)).len() > 0 {
            vec_bytes(*old(v)).drop_last()
        } else {
            vec_bytes(*old(v))
        }),
{
    v.pop()
}

/// Calls `heapless::Vec::as_slice`: the bytes in their order, not more than the capacity.
#[verifier::external_body]
pub(crate) fn vec_as_slice(v: &HeaplessVec<u8, 256>) -> (r: &[u8])
    ensures
        r@ == vec_bytes(*v),
        r@.len() <= 256,
{
    v.as_slice()
}

/// Calls `heapless::Vec::clone`: a vector of the same bytes in the same order.
#[verifier::external_body]
pub(crate) fn vec_clone(v: &HeaplessVec<u8, 256>) -> (r: HeaplessVec<u8, 256>)
    ensures
        vec_bytes(r) == vec_bytes(*v),
{
    v.clone()
}

/// A stack of at most 256 bytes.
pub struct ByteStack {
    items: HeaplessVec<u8, 256>,
}

impl View for ByteStack {
    type V = Seq<u8>;

    closed spec fn view(&self) -> Seq<u8> {
        vec_bytes(self.items)
    }
}

impl ByteStack {
    /// Returns an empty stack.
    pub fn new() -> (r: Self)
        ensures
            r@ == Seq::<u8>::empty(),
    {
        ByteStack { items: vec_new() }
    }

    /// Puts a byte on top, or hands it back if the stack is full.
    pub fn push(&mut self, byte: u8) -> (r: Result<(), u8>)
        ensures
            r == (if old(self)@.len() < 256 { Ok(()) } else { Err(byte) }),
            final(self)@ == (if old(self)@.len() < 256 { old(self)@.push(byte) } else { old(self)@ }),
    {
        vec_push(&mut self.items, byte)
    }

    /// Takes the top off.
    pub fn pop(&mut self) -> (r: Option<u8>)
        ensures
            r == (if old(self)@.len() > 0 { Some(old(self)@.last()) } else { None }),
            final(self)@ == (if old(self)@.len() > 0 { old(self)@.drop_last() } else { old(self)@ }),
    {
        vec_pop(&mut self.items)
    }
}

} // verus!
