//! The public handle over one file's chunk cache. It validates requested
//! ranges, tells the caller which aligned chunks a range still needs from
//! disk, builds read mappings out of cached and freshly read chunks, and
//! takes mappings back, releasing their chunk references.
//!
//! The file itself stays with the caller: the cache captures only the file's
//! length, and a read takes the bytes of the missing chunks as arguments.
//! Each such buffer must hold `CHUNK_SIZE` bytes; a reader that hits the end
//! of the file is expected to leave the remainder of the buffer zero-filled.

use vstd::prelude::*;
use crate::CHUNK_SIZE;
use crate::chunk::Chunk;
use crate::mapping::FileViewMapping;
use crate::model::{
    base_of, chunk_of, csz, datas_of, lemma_empty_to_set, lemma_missing_monotone,
    lemma_missing_step, lemma_planned_index, lemma_planned_len, lemma_take_all,
    lemma_take_set_step, lemma_touched, lemma_touched_increasing, missing_list, planned_data,
    touched_addresses,
};
use crate::table::{release_all, ChunkEntry, ChunkTable};

verus! {

/// The aligned offsets of the chunks a mapping holds, in order.
pub open spec fn mapping_offsets(m: FileViewMapping) -> Seq<u64> {
    m.buffers@.map_values(|c: Chunk| c.offset)
}

/// What a successful `read` of `[start, end)` did, stated over the state
/// `pre` it began in, the state `post` it left, the mapping `m` it returned
/// and the chunk buffers `fills` it was handed: the mapping spans exactly the
/// touched chunks with the right clip offsets; each chunk holds the cached
/// bytes where the address was cached (the very cached chunk, no copy) and
/// the matching fill where it was not; the touched entries gained a reader
/// (new ones start at one and hold the mapping's chunk), and no other entry
/// changed.
pub open spec fn read_ok_rel(
    pre: FileView,
    post: FileView,
    m: FileViewMapping,
    fills: Seq<Seq<u8>>,
    start: u64,
    end: u64,
) -> bool {
    let addrs = touched_addresses(start, end);
    let n = addrs.len() as int;
    &&& post.length == pre.length
    &&& m.wf()
    &&& m.length == end - start
    &&& m.buffers@.len() == n
    &&& (n > 0 ==> m.start_offset == (start % (CHUNK_SIZE as u64)) as usize && m.end_offset
        == end - addrs.last())
    &&& forall|i: int| 0 <= i < n ==> (#[trigger] m.buffers@[i]).offset == addrs[i]
    &&& forall|i: int|
        0 <= i < n ==> (#[trigger] m.buffers@[i]).data@ == planned_data(pre.table@, addrs, fills)[i]
    &&& forall|i: int|
        0 <= i < n && pre.table@.contains_key(addrs[i])
            ==> (#[trigger] m.buffers@[i]) == pre.table@[addrs[i]].chunk
    &&& post.table@.dom() == pre.table@.dom() + addrs.to_set()
    &&& forall|a: u64|
        pre.table@.contains_key(a) && !addrs.to_set().contains(a)
            ==> #[trigger] post.table@[a] == pre.table@[a]
    &&& forall|i: int|
        0 <= i < n ==> post.table@[#[trigger] addrs[i]] == (ChunkEntry {
            readers: if pre.table@.contains_key(addrs[i]) {
                (pre.table@[addrs[i]].readers + 1) as u64
            } else {
                1u64
            },
            chunk: m.buffers@[i],
        })
}

/// The read loop's progress after the first `k` touched addresses were
/// served, with `used` fills consumed so far.
spec fn read_progress(
    t0: Map<u64, ChunkEntry>,
    addrs: Seq<u64>,
    fills: Seq<Seq<u8>>,
    now: Map<u64, ChunkEntry>,
    bufs: Seq<Chunk>,
    used: int,
    k: int,
) -> bool {
    &&& bufs.len() == k
    &&& used == missing_list(t0, addrs.take(k)).len()
    &&& forall|i: int| 0 <= i < k ==> (#[trigger] bufs[i]).offset == addrs[i]
    &&& forall|i: int| 0 <= i < k ==> (#[trigger] bufs[i]).wf()
    &&& forall|i: int| 0 <= i < k ==> (#[trigger] bufs[i]).data@ == planned_data(t0, addrs, fills)[i]
    &&& forall|i: int|
        0 <= i < k && t0.contains_key(addrs[i]) ==> (#[trigger] bufs[i]) == t0[addrs[i]].chunk
    &&& now.dom() == t0.dom() + addrs.take(k).to_set()
    &&& forall|a: u64|
        t0.contains_key(a) && !addrs.take(k).to_set().contains(a) ==> #[trigger] now[a] == t0[a]
    &&& forall|i: int|
        0 <= i < k ==> now[#[trigger] addrs[i]] == (ChunkEntry {
            readers: if t0.contains_key(addrs[i]) {
                (t0[addrs[i]].readers + 1) as u64
            } else {
                1u64
            },
            chunk: bufs[i],
        })
}

/// What can go wrong when reading through a view.
#[derive(Debug, Clone, PartialEq, Eq, Structural)]
pub enum FileViewError {
    /// An underlying disk operation failed, including a short or missing
    /// buffer for a chunk that had to be read.
    IOError,
    /// The requested range ends beyond the file's captured length.
    OutOfBoundsError,
    /// The requested length exceeds the platform's addressable size.
    RangeTooBigError,
}

/// The handle over one file's chunk cache: the file's length, captured once,
/// and the table of cached chunks.
pub struct FileView {
    /// The file's size in bytes, fixed at construction.
    pub length: u64,
    /// The cached chunks with their reader counts.
    pub table: ChunkTable,
}

impl FileView {
    pub open spec fn wf(self) -> bool {
        self.table.wf()
    }

    /// Whether `[start, end)` passes the view's validation: it must end
    /// within the file and its length must be addressable.
    pub open spec fn range_ok(self, start: u64, end: u64) -> bool {
        &&& end <= self.length
        &&& end - start <= usize::MAX
    }

    /// No touched cached entry may have its reader count at the machine
    /// limit; acquiring it once more must be able to count the new reader.
    pub open spec fn can_acquire(self, start: u64, end: u64) -> bool {
        let addrs = touched_addresses(start, end);
        forall|i: int| 0 <= i < addrs.len() && self.table@.contains_key(#[trigger] addrs[i])
            ==> self.table@[addrs[i]].readers < u64::MAX
    }

    /// Whether `fills` fits what a read of `[start, end)` needs right now:
    /// one buffer of exactly `CHUNK_SIZE` bytes per missing chunk, in order.
    pub open spec fn fills_ok(self, start: u64, end: u64, fills: Seq<Vec<u8>>) -> bool {
        &&& fills.len() == missing_list(self.table@, touched_addresses(start, end)).len()
        &&& forall|j: int| 0 <= j < fills.len() ==> (#[trigger] fills[j])@.len() == CHUNK_SIZE
    }

    /// Every chunk of `m` is cached, and the cached chunk is the very one the
    /// mapping holds.
    pub open spec fn registered(self, m: FileViewMapping) -> bool {
        forall|i: int| 0 <= i < m.buffers@.len() ==> {
            &&& self.table@.contains_key((#[trigger] m.buffers@[i]).offset)
            &&& self.table@[m.buffers@[i].offset].chunk == m.buffers@[i]
        }
    }

    /// Every cached chunk holds exactly the bytes of `file` at its offset
    /// (zero-filled past the file's end), and the view's length is the
    /// file's. The collaborator that reads chunks from disk keeps this true;
    /// everything the cache itself does preserves it.
    pub open spec fn consistent_with(self, file: Seq<u8>) -> bool {
        &&& file.len() == self.length
        &&& forall|a: u64| self.table@.contains_key(a)
            ==> (#[trigger] self.table@[a]).chunk.data@ == chunk_of(file, a)
    }

    /// A fresh view over a file of `length` bytes, with an empty cache.
    pub fn new(length: u64) -> (v: FileView)
        ensures
            v.length == length,
            v.table@ == Map::<u64, ChunkEntry>::empty(),
            v.wf(),
    {
        FileView { length, table: ChunkTable::new() }
    }

    /// Validate `[start, end)` as every read path does, and return its length
    /// when it is readable: `OutOfBoundsError` when the range ends past the
    /// file, then `RangeTooBigError` when its length is not addressable.
    pub fn validate_range(&self, start: u64, end: u64) -> (r: Result<usize, FileViewError>)
        requires
            start <= end,
        ensures
            (end > self.length <==> r == Err::<usize, FileViewError>(
                FileViewError::OutOfBoundsError,
            )),
            (end <= self.length && end - start > usize::MAX <==> r == Err::<
                usize,
                FileViewError,
            >(FileViewError::RangeTooBigError)),
            (self.range_ok(start, end) <==> (r matches Ok(n) && n == end - start)),
    {
        if end > self.length {
            return Err(FileViewError::OutOfBoundsError);
        }
        let len_u64 = end - start;
        if len_u64 > usize::MAX as u64 {
            return Err(FileViewError::RangeTooBigError);
        }
        Ok(len_u64 as usize)
    }

    /// The aligned addresses of the chunks `[start, end)` touches that are
    /// not cached right now, in ascending order; a caller reads these from
    /// disk and hands their bytes to `read`.
    pub fn missing_chunks(&self, start: u64, end: u64) -> (r: Result<Vec<u64>, FileViewError>)
        requires
            self.wf(),
            start <= end,
        ensures
            (end > self.length <==> r == Err::<Vec<u64>, FileViewError>(
                FileViewError::OutOfBoundsError,
            )),
            (end <= self.length && end - start > usize::MAX <==> r == Err::<
                Vec<u64>,
                FileViewError,
            >(FileViewError::RangeTooBigError)),
            r matches Ok(v) ==> v@ == missing_list(
                self.table@,
                touched_addresses(start, end),
            ),
            (self.range_ok(start, end) <==> r is Ok),
    {
        match self.validate_range(start, end) {
            Err(e) => Err(e),
            Ok(_) => Ok(self.collect_missing(start, end)),
        }
    }

    /// Walk the touched addresses and gather the uncached ones.
    fn collect_missing(&self, start: u64, end: u64) -> (v: Vec<u64>)
        requires
            self.wf(),
            start <= end,
        ensures
            v@ == missing_list(self.table@, touched_addresses(start, end)),
    {
        let ghost addrs = touched_addresses(start, end);
        let mut v: Vec<u64> = Vec::new();
        if start == end {
            proof {
                assert(v@ =~= missing_list(self.table@, addrs));
            }
            return v;
        }
        proof {
            lemma_touched(start, end);
        }
        let base = start - start % (CHUNK_SIZE as u64);
        let mut address: u64 = base;
        let ghost k: int = 0;
        proof {
            assert(addrs.take(0) =~= Seq::<u64>::empty());
        }
        loop
            invariant_except_break
                self.wf(),
                start < end,
                0 <= k < addrs.len(),
                address == addrs[k],
                address < end,
                addrs == touched_addresses(start, end),
                v@ == missing_list(self.table@, addrs.take(k)),
            ensures
                v@ == missing_list(self.table@, addrs),
            decreases end - address,
        {
            proof {
                lemma_touched(start, end);
                lemma_missing_step(self.table@, addrs, k);
            }
            if !self.table.contains(address) {
                v.push(address);
            }
            proof {
                assert(v@ =~= missing_list(self.table@, addrs.take(k + 1)));
            }
            if end - address <= CHUNK_SIZE as u64 {
                proof {
                    assert(k == addrs.len() - 1);
                    lemma_take_all(addrs);
                }
                break;
            }
            address = address + CHUNK_SIZE as u64;
            proof {
                k = k + 1;
            }
        }
        v
    }

    /// Read `[start, end)` through the cache. `fills` holds the bytes of the
    /// chunks the cache is missing (as `missing_chunks` listed them, in
    /// order, `CHUNK_SIZE` bytes each); cached chunks are served without any
    /// of them. On success every touched chunk gains a reader and the
    /// returned mapping holds the stitched range; on any error the cache is
    /// left untouched.
    pub fn read(&mut self, start: u64, end: u64, fills: &Vec<Vec<u8>>) -> (r: Result<
        FileViewMapping,
        FileViewError,
    >)
        requires
            old(self).wf(),
            start <= end,
            old(self).can_acquire(start, end),
        ensures
            final(self).wf(),
            final(self).length == old(self).length,
            (end > old(self).length <==> r == Err::<FileViewMapping, FileViewError>(
                FileViewError::OutOfBoundsError,
            )),
            (end <= old(self).length && end - start > usize::MAX <==> r == Err::<
                FileViewMapping,
                FileViewError,
            >(FileViewError::RangeTooBigError)),
            ((old(self).range_ok(start, end) && !old(self).fills_ok(start, end, fills@)) <==> r
                == Err::<FileViewMapping, FileViewError>(FileViewError::IOError)),
            ((old(self).range_ok(start, end) && old(self).fills_ok(start, end, fills@)) <==> r
                is Ok),
            r is Err ==> *final(self) == *old(self),
            r matches Ok(m) ==> read_ok_rel(
                *old(self),
                *final(self),
                m,
                datas_of(fills@),
                start,
                end,
            ) && final(self).registered(m),
    {
        match self.validate_range(start, end) {
            Err(e) => {
                return Err(e);
            },
            Ok(_) => {},
        }
        let miss = self.collect_missing(start, end);
        if fills.len() != miss.len() {
            return Err(FileViewError::IOError);
        }
        let mut j: usize = 0;
        while j < fills.len()
            invariant
                *self == *old(self),
                self.wf(),
                start <= end,
                end <= self.length,
                end - start <= usize::MAX,
                fills@.len() == missing_list(self.table@, touched_addresses(start, end)).len(),
                j <= fills@.len(),
                forall|i: int| 0 <= i < j ==> (#[trigger] fills@[i])@.len() == CHUNK_SIZE,
            decreases fills@.len() - j,
        {
            if fills[j].len() != CHUNK_SIZE {
                return Err(FileViewError::IOError);
            }
            j = j + 1;
        }
        let ghost t0 = self.table@;
        let ghost addrs = touched_addresses(start, end);
        let ghost fillsv = datas_of(fills@);
        if start == end {
            let m = FileViewMapping::empty();
            proof {
                lemma_empty_to_set::<u64>();
                assert(addrs =~= Seq::<u64>::empty());
                assert(self.table@.dom() =~= t0.dom() + addrs.to_set());
            }
            return Ok(m);
        }
        proof {
            lemma_touched(start, end);
            assert(addrs.take(0) =~= Seq::<u64>::empty());
            lemma_empty_to_set::<u64>();
            assert(self.table@.dom() =~= t0.dom() + addrs.take(0).to_set());
        }
        let base = start - start % (CHUNK_SIZE as u64);
        let mut buffers: Vec<Chunk> = Vec::new();
        let mut used: usize = 0;
        let mut address: u64 = base;
        let mut end_offset: usize = 0;
        let ghost k: int = 0;
        loop
            invariant_except_break
                self.wf(),
                self.length == old(self).length,
                start < end,
                addrs == touched_addresses(start, end),
                t0 == old(self).table@,
                fillsv == datas_of(fills@),
                fillsv.len() == missing_list(t0, addrs).len(),
                fillsv.len() <= usize::MAX,
                forall|i: int| 0 <= i < fillsv.len() ==> (#[trigger] fillsv[i]).len() == CHUNK_SIZE,
                old(self).can_acquire(start, end),
                0 <= k < addrs.len(),
                address == addrs[k],
                address < end,
                base == base_of(start),
                used <= fillsv.len(),
                read_progress(t0, addrs, fillsv, self.table@, buffers@, used as int, k),
            ensures
                self.wf(),
                self.length == old(self).length,
                read_progress(
                    t0,
                    addrs,
                    fillsv,
                    self.table@,
                    buffers@,
                    missing_list(t0, addrs).len() as int,
                    addrs.len() as int,
                ),
                addrs == touched_addresses(start, end),
                t0 == old(self).table@,
                fillsv == datas_of(fills@),
                end_offset == end - addrs.last(),
                0 < end_offset <= csz(),
            decreases end - address,
        {
            proof {
                lemma_touched(start, end);
                lemma_touched_increasing(start, end);
                lemma_missing_step(t0, addrs, k);
                lemma_planned_index(t0, addrs, fillsv, k);
                lemma_missing_monotone(t0, addrs, k + 1, addrs.len() as int);
                lemma_take_all(addrs);
                assert(!addrs.take(k).to_set().contains(address)) by {
                    if addrs.take(k).to_set().contains(address) {
                        let i = choose|i: int| 0 <= i < k && addrs.take(k)[i] == address;
                        assert(addrs[i] < addrs[k]);
                    }
                }
                assert(self.table@.contains_key(address) <==> t0.contains_key(address));
                if t0.contains_key(address) {
                    assert(self.table@[address] == t0[address]);
                }
            }
            let ghost t_at = self.table@;
            let copt = self.table.acquire_cached(address);
            let chunk = match copt {
                Some(c) => c,
                None => {
                    proof {
                        assert(used < fillsv.len());
                        assert(fillsv[used as int] == fills@[used as int]@);
                    }
                    let data = vstd::slice::slice_to_vec(fills[used].as_slice());
                    let c = self.table.insert_new(address, data);
                    used = used + 1;
                    c
                },
            };
            buffers.push(chunk);
            proof {
                lemma_take_set_step(addrs, k);
                assert(self.table@.dom() =~= t0.dom() + addrs.take(k + 1).to_set());
                assert forall|a: u64|
                    t0.contains_key(a) && !addrs.take(k + 1).to_set().contains(a)
                        implies #[trigger] self.table@[a] == t0[a] by {
                    assert(!addrs.take(k).to_set().contains(a));
                    assert(a != address);
                    assert(t_at[a] == t0[a]);
                }
                assert forall|i: int| 0 <= i < k + 1 implies self.table@[#[trigger] addrs[i]]
                    == (ChunkEntry {
                    readers: if t0.contains_key(addrs[i]) {
                        (t0[addrs[i]].readers + 1) as u64
                    } else {
                        1u64
                    },
                    chunk: buffers@[i],
                }) by {
                    if i < k {
                        assert(addrs[i] < addrs[k]);
                        assert(t_at[addrs[i]] == self.table@[addrs[i]]);
                    }
                }
                assert(read_progress(t0, addrs, fillsv, self.table@, buffers@, used as int, k + 1));
            }
            if end - address <= CHUNK_SIZE as u64 {
                end_offset = (end - address) as usize;
                proof {
                    assert(k == addrs.len() - 1);
                    lemma_take_all(addrs);
                }
                break;
            }
            address = address + CHUNK_SIZE as u64;
            proof {
                k = k + 1;
            }
        }
        let start_offset = (start % (CHUNK_SIZE as u64)) as usize;
        let length = (end - start) as usize;
        let m = FileViewMapping { buffers, start_offset, end_offset, length };
        proof {
            lemma_touched(start, end);
            lemma_take_all(addrs);
            lemma_planned_len(t0, addrs, fillsv);
            let n = addrs.len() as int;
            assert(csz() == 0x8000);
            assert(addrs.last() == base_of(start) + (n - 1) * csz());
            assert(m.buffers@[0].offset == base_of(start));
            assert forall|i: int| 0 <= i < n implies (#[trigger] m.buffers@[i]).offset
                == m.buffers@[0].offset + i * csz() by {
                assert(addrs[i] == base_of(start) + i * csz());
            }
            assert(m.length == (n - 1) * csz() + m.end_offset - m.start_offset);
            assert(m.wf());
            assert(read_ok_rel(*old(self), *self, m, fillsv, start, end));
            assert forall|i: int| 0 <= i < m.buffers@.len() implies {
                &&& self.table@.contains_key((#[trigger] m.buffers@[i]).offset)
                &&& self.table@[m.buffers@[i].offset].chunk == m.buffers@[i]
            } by {
                assert(addrs.to_set().contains(addrs[i]));
                assert(self.table@.dom().contains(addrs[i]));
            }
        }
        Ok(m)
    }

    /// Take a finished mapping back: every chunk it held gives back one
    /// reader, and a chunk left with no reader is evicted at once. A mapping
    /// must be given back to the view it was read from, exactly once.
    pub fn release_mapping(&mut self, m: FileViewMapping)
        requires
            old(self).wf(),
            m.wf(),
            old(self).registered(m),
        ensures
            final(self).wf(),
            final(self).length == old(self).length,
            final(self).table@ == release_all(old(self).table@, mapping_offsets(m)),
    {
        let ghost t0 = self.table@;
        let ghost offs = mapping_offsets(m);
        let n = m.buffers.len();
        let mut i: usize = 0;
        proof {
            m.lemma_offsets_increasing();
            assert(offs.take(0) =~= Seq::<u64>::empty());
        }
        while i < n
            invariant
                self.wf(),
                self.length == old(self).length,
                m.wf(),
                t0 == old(self).table@,
                old(self).registered(m),
                offs == mapping_offsets(m),
                n == m.buffers@.len(),
                i <= n,
                self.table@ == release_all(t0, offs.take(i as int)),
                forall|j: int| i <= j < n ==> self.table@.contains_key(#[trigger] offs[j]),
            decreases n - i,
        {
            proof {
                m.lemma_offsets_increasing();
                assert(offs.take(i + 1).drop_last() =~= offs.take(i as int));
                assert(offs.take(i + 1).last() == offs[i as int]);
            }
            let address = m.buffers[i].offset;
            self.table.release_at(address);
            proof {
                assert(self.table@ == release_all(t0, offs.take(i + 1)));
                assert forall|j: int| i + 1 <= j < n implies self.table@.contains_key(
                    #[trigger] offs[j],
                ) by {
                    assert(offs[j] != address);
                }
            }
            i = i + 1;
        }
        proof {
            lemma_take_all(offs);
        }
    }

    /// Whether a chunk for `address` is cached right now.
    pub fn cached(&self, address: u64) -> (b: bool)
        ensures
            b == self.table@.contains_key(address),
    {
        self.table.contains(address)
    }

    /// How many chunks are cached right now.
    pub fn cached_count(&self) -> (n: usize)
        ensures
            n == self.table@.len(),
    {
        self.table.len()
    }

    /// Whether a read of `[start, end)` can count one more reader on every
    /// touched cached chunk; false only with a reader count at the machine
    /// limit.
    pub fn can_read(&self, start: u64, end: u64) -> (b: bool)
        requires
            start <= end,
        ensures
            b == self.can_acquire(start, end),
    {
        let ghost addrs = touched_addresses(start, end);
        if start == end {
            return true;
        }
        proof {
            lemma_touched(start, end);
        }
        let base = start - start % (CHUNK_SIZE as u64);
        let mut address: u64 = base;
        let ghost k: int = 0;
        loop
            invariant_except_break
                start < end,
                addrs == touched_addresses(start, end),
                0 <= k < addrs.len(),
                address == addrs[k],
                address < end,
                forall|i: int|
                    0 <= i < k && self.table@.contains_key(#[trigger] addrs[i])
                        ==> self.table@[addrs[i]].readers < u64::MAX,
            ensures
                self.can_acquire(start, end),
            decreases end - address,
        {
            proof {
                lemma_touched(start, end);
            }
            match self.table.readers_at(address) {
                Some(readers) => {
                    if readers == u64::MAX {
                        proof {
                            assert(!self.can_acquire(start, end));
                        }
                        return false;
                    }
                },
                None => {},
            }
            if end - address <= CHUNK_SIZE as u64 {
                proof {
                    assert(k == addrs.len() - 1);
                }
                break;
            }
            address = address + CHUNK_SIZE as u64;
            proof {
                k = k + 1;
            }
        }
        true
    }
}

} // verus!
