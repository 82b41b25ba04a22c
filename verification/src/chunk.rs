//! A chunk: an immutable, fixed-size byte buffer anchored at an aligned file
//! offset. Its bytes live behind a reference-counted pointer, so the cache
//! table and any number of mappings can hold the same buffer without copying.

use vstd::prelude::*;
use std::sync::Arc;
use crate::CHUNK_SIZE;
use crate::model::aligned;

verus! {

/// An immutable, fixed-size byte buffer read from one aligned file offset.
#[derive(Debug)]
pub struct Chunk {
    /// The aligned file offset the buffer was read from.
    pub offset: u64,
    /// The buffer itself, shared between the cache table and the mappings
    /// that reference it.
    pub data: Arc<Vec<u8>>,
}

impl Chunk {
    /// A chunk is well formed when its offset is aligned and its buffer holds
    /// exactly `CHUNK_SIZE` bytes.
    pub open spec fn wf(self) -> bool {
        &&& aligned(self.offset)
        &&& self.data@.len() == CHUNK_SIZE
    }

    /// Wrap a freshly read buffer. The buffer is never mutated afterwards.
    pub fn new(offset: u64, data: Vec<u8>) -> (c: Chunk)
        requires
            aligned(offset),
            data@.len() == CHUNK_SIZE,
        ensures
            c.offset == offset,
            c.data@ == data@,
            c.wf(),
    {
        Chunk { offset, data: Arc::new(data) }
    }

    /// Another reference to the same buffer, no copy made.
    ///
    /// Relies on `alloc::sync::Arc::clone`: the clone points to the very
    /// value the original points to.
    #[verifier::external_body]
    pub(crate) fn share(&self) -> (r: Chunk)
        ensures
            r == *self,
    {
        Chunk { offset: self.offset, data: Arc::clone(&self.data) }
    }

    /// The byte at position `i` of the buffer.
    pub fn byte_at(&self, i: usize) -> (b: u8)
        requires
            i < self.data@.len(),
        ensures
            b == self.data@[i as int],
    {
        let v: &Vec<u8> = &self.data;
        v[i]
    }

    /// The bytes at `[lo, hi)` of the buffer, as a borrowed slice.
    pub fn slice_at<'a>(&'a self, lo: usize, hi: usize) -> (s: &'a [u8])
        requires
            lo <= hi <= self.data@.len(),
        ensures
            s@ == self.data@.subrange(lo as int, hi as int),
    {
        let v: &Vec<u8> = &self.data;
        vstd::slice::slice_subrange(v.as_slice(), lo, hi)
    }
}

} // verus!
