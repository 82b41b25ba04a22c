//! A read mapping: an immutable, caller-held view spanning one or more chunks
//! for one requested byte range. The first and last chunks are clipped by an
//! in-chunk start and end offset; concatenating the clipped slices in order
//! reproduces exactly the requested bytes.

use vstd::prelude::*;
use vstd::arithmetic::div_mod::{
    lemma_mod_division_less_than_divisor, lemma_multiply_divide_lt,
};
use vstd::arithmetic::mul::lemma_mul_inequality;
use crate::CHUNK_SIZE;
use crate::chunk::Chunk;
use crate::model::csz;

verus! {

/// A view over the chunks a successful read touched. It keeps one reference
/// per chunk; the owning cache counts those references, so the mapping must
/// be given back to it exactly once.
#[derive(Debug)]
pub struct FileViewMapping {
    /// The touched chunks, at consecutive aligned offsets, in file order.
    pub buffers: Vec<Chunk>,
    /// Where the requested range begins inside the first chunk.
    pub start_offset: usize,
    /// Where the requested range ends inside the last chunk.
    pub end_offset: usize,
    /// The number of requested bytes.
    pub length: usize,
}

impl FileViewMapping {
    /// Well-formedness: the chunks sit at consecutive aligned offsets, the
    /// clip offsets lie inside the first and last chunk, and the length is
    /// what the clipped chunks hold together. An empty mapping has no chunk.
    pub open spec fn wf(self) -> bool {
        &&& forall|i: int| 0 <= i < self.buffers@.len() ==> (#[trigger] self.buffers@[i]).wf()
        &&& forall|i: int| 0 <= i < self.buffers@.len()
            ==> (#[trigger] self.buffers@[i]).offset == self.buffers@[0].offset + i * csz()
        &&& if self.buffers@.len() == 0 {
            self.start_offset == 0 && self.end_offset == 0 && self.length == 0
        } else {
            &&& self.start_offset < CHUNK_SIZE
            &&& 0 < self.end_offset <= CHUNK_SIZE
            &&& self.length > 0
            &&& self.length == (self.buffers@.len() - 1) * csz() + self.end_offset
                - self.start_offset
            &&& self.start_offset + self.length <= u64::MAX
        }
    }

    /// The mapping's bytes: the requested range, reconstructed. Byte `i`
    /// lives at in-chunk position `(start_offset + i) % CHUNK_SIZE` of chunk
    /// `(start_offset + i) / CHUNK_SIZE`.
    pub open spec fn bytes(self) -> Seq<u8> {
        Seq::new(self.length as nat, |i: int| {
            let p = self.start_offset + i;
            self.buffers@[p / csz()].data@[p % csz()]
        })
    }

    /// Where the slice of chunk `i` begins: the start offset clips the first
    /// chunk, every other chunk begins at zero.
    pub open spec fn clip_lo(self, i: int) -> int {
        if i == 0 { self.start_offset as int } else { 0 }
    }

    /// Where the slice of chunk `i` ends: the end offset clips the last
    /// chunk, every other chunk runs to `CHUNK_SIZE`.
    pub open spec fn clip_hi(self, i: int) -> int {
        if i == self.buffers@.len() - 1 { self.end_offset as int } else { csz() }
    }

    /// One clipped slice per chunk, in order.
    pub open spec fn slice_seq(self) -> Seq<Seq<u8>> {
        Seq::new(self.buffers@.len(), |i: int|
            self.buffers@[i].data@.subrange(self.clip_lo(i), self.clip_hi(i)))
    }

    /// The concatenation of the clipped slices from chunk `i` on.
    pub open spec fn stitch_from(self, i: int) -> Seq<u8>
        decreases self.buffers@.len() - i,
    {
        if i < 0 || i >= self.buffers@.len() {
            Seq::empty()
        } else {
            self.slice_seq()[i] + self.stitch_from(i + 1)
        }
    }

    /// All clipped slices, concatenated in order: the first chunk from the
    /// start offset, the middle chunks whole, the last up to the end offset.
    pub open spec fn stitched(self) -> Seq<u8> {
        self.stitch_from(0)
    }

    /// An empty mapping: no chunk, no bytes.
    pub fn empty() -> (m: FileViewMapping)
        ensures
            m.buffers@.len() == 0,
            m.length == 0,
            m.wf(),
            m.bytes() == Seq::<u8>::empty(),
    {
        let m = FileViewMapping { buffers: Vec::new(), start_offset: 0, end_offset: 0, length: 0 };
        proof {
            assert(m.bytes() =~= Seq::<u8>::empty());
        }
        m
    }

    /// Eagerly concatenate the clipped chunks into one contiguous owned
    /// buffer holding exactly the requested bytes.
    pub fn to_vec(&self) -> (v: Vec<u8>)
        requires
            self.wf(),
        ensures
            v@ == self.bytes(),
    {
        let mut v: Vec<u8> = Vec::with_capacity(self.length);
        let mut i: usize = 0;
        proof {
            assert(v@ =~= self.bytes().subrange(0, 0));
        }
        while i < self.length
            invariant
                self.wf(),
                i <= self.length,
                v@ == self.bytes().subrange(0, i as int),
            decreases self.length - i,
        {
            let p: u64 = self.start_offset as u64 + i as u64;
            proof {
                self.lemma_position_in_range(p as int);
            }
            let idx: usize = (p / (CHUNK_SIZE as u64)) as usize;
            let pos: usize = (p % (CHUNK_SIZE as u64)) as usize;
            let b = self.buffers[idx].byte_at(pos);
            v.push(b);
            proof {
                assert(v@ =~= self.bytes().subrange(0, i + 1));
            }
            i = i + 1;
        }
        proof {
            assert(v@ =~= self.bytes());
        }
        v
    }

    /// A lazy walk over the clipped chunk slices, without copying. Calling
    /// `chunks` again restarts the walk.
    pub fn chunks<'a>(&'a self) -> (it: FileViewMappingChunks<'a>)
        ensures
            it.mapping == self,
            it.index == 0,
    {
        FileViewMappingChunks { mapping: self, index: 0 }
    }

    /// A mapping's chunk offsets ascend strictly, so no chunk is held twice.
    pub proof fn lemma_offsets_increasing(self)
        requires
            self.wf(),
        ensures
            forall|i: int, j: int|
                0 <= i < j < self.buffers@.len()
                    ==> self.buffers@[i].offset < self.buffers@[j].offset,
    {
        assert(csz() == 0x8000);
        assert forall|i: int, j: int| 0 <= i < j < self.buffers@.len()
            implies self.buffers@[i].offset < self.buffers@[j].offset by {
            lemma_mul_inequality(i, j - 1, csz());
            assert((j - 1) * csz() + csz() == j * csz()) by (nonlinear_arith);
        }
    }

    /// A position `p` inside the mapping's span selects a real chunk and a
    /// real position inside its buffer.
    pub proof fn lemma_position_in_range(self, p: int)
        requires
            self.wf(),
            self.start_offset <= p < self.start_offset + self.length,
        ensures
            0 <= p / csz() < self.buffers@.len(),
            0 <= p % csz() < csz(),
            self.buffers@[p / csz()].data@.len() == csz(),
    {
        let n = self.buffers@.len() as int;
        assert(csz() == 0x8000);
        assert(p < self.start_offset + self.length);
        assert(self.length == (n - 1) * csz() + self.end_offset - self.start_offset);
        assert(p < (n - 1) * csz() + self.end_offset);
        assert((n - 1) * csz() + csz() == n * csz()) by (nonlinear_arith);
        assert(p < n * csz());
        lemma_multiply_divide_lt(p, n, csz());
        lemma_mod_division_less_than_divisor(p, csz());
        assert(self.buffers@[p / csz()].wf());
    }
}

/// A walk over a mapping's clipped chunk slices: slice `i` is chunk `i`'s
/// buffer, clipped to the start offset at the first chunk and to the end
/// offset at the last.
pub struct FileViewMappingChunks<'a> {
    /// The mapping walked over.
    pub mapping: &'a FileViewMapping,
    /// The next chunk to hand out.
    pub index: usize,
}

impl<'a> FileViewMappingChunks<'a> {
    /// The next clipped slice, or `None` once every chunk was handed out.
    /// No byte is copied: the slice borrows the chunk's shared buffer.
    pub fn next(&mut self) -> (r: Option<&'a [u8]>)
        requires
            old(self).mapping.wf(),
        ensures
            final(self).mapping == old(self).mapping,
            old(self).index < old(self).mapping.buffers@.len() ==> {
                &&& r matches Some(s)
                    && s@ == old(self).mapping.slice_seq()[old(self).index as int]
                &&& final(self).index == old(self).index + 1
            },
            old(self).index >= old(self).mapping.buffers@.len() ==> {
                &&& r is None
                &&& final(self).index == old(self).index
            },
    {
        let index = self.index;
        if index < self.mapping.buffers.len() {
            self.index = index + 1;
            let begin: usize = if index == 0 {
                self.mapping.start_offset
            } else {
                0
            };
            let end: usize = if index == self.mapping.buffers.len() - 1 {
                self.mapping.end_offset
            } else {
                CHUNK_SIZE
            };
            Some(self.mapping.buffers[index].slice_at(begin, end))
        } else {
            None
        }
    }
}

} // verus!
