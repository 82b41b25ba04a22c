//! The chunk table: a mapping from aligned file offset to a reference-counted
//! chunk entry. It serves a chunk for an aligned address either from cache or
//! from a freshly read buffer, tracks how many mappings reference each chunk,
//! and evicts an entry the moment its reader count reaches zero.

use vstd::prelude::*;
use std::collections::HashMap;
use crate::CHUNK_SIZE;
use crate::chunk::Chunk;
use crate::model::aligned;

verus! {

broadcast use vstd::std_specs::hash::group_hash_axioms;

/// One cache entry: a chunk and the number of live mappings holding it.
pub struct ChunkEntry {
    /// How many live mappings currently reference this chunk.
    pub readers: u64,
    /// The cached chunk.
    pub chunk: Chunk,
}

/// The cache state: at most one entry per aligned offset.
pub struct ChunkTable {
    pub entries: HashMap<u64, ChunkEntry>,
}

impl View for ChunkTable {
    type V = Map<u64, ChunkEntry>;

    open spec fn view(&self) -> Map<u64, ChunkEntry> {
        self.entries@
    }
}

/// `table` after one reference to the entry at `address` is given back:
/// the reader count drops by one, and an entry left with no reader is
/// removed at once.
pub open spec fn release_one(t: Map<u64, ChunkEntry>, address: u64) -> Map<u64, ChunkEntry> {
    if t[address].readers <= 1 {
        t.remove(address)
    } else {
        t.insert(address, ChunkEntry {
            readers: (t[address].readers - 1) as u64,
            chunk: t[address].chunk,
        })
    }
}

/// `t` after one reference to each address of `addrs` is given back, in
/// order.
pub open spec fn release_all(t: Map<u64, ChunkEntry>, addrs: Seq<u64>) -> Map<u64, ChunkEntry>
    decreases addrs.len(),
{
    if addrs.len() == 0 {
        t
    } else {
        release_one(release_all(t, addrs.drop_last()), addrs.last())
    }
}

/// What giving back one reference per address of `addrs` does to one key:
/// a key not listed keeps its entry; a listed key (each address is listed at
/// most once) loses one reader, and loses its entry if that was the last.
pub proof fn lemma_release_all_at(t: Map<u64, ChunkEntry>, addrs: Seq<u64>, a: u64)
    requires
        forall|i: int, j: int| 0 <= i < j < addrs.len() ==> addrs[i] != addrs[j],
    ensures
        !addrs.contains(a) ==> {
            &&& (release_all(t, addrs).contains_key(a) <==> t.contains_key(a))
            &&& (t.contains_key(a) ==> release_all(t, addrs)[a] == t[a])
        },
        addrs.contains(a) && t.contains_key(a) && t[a].readers > 1 ==> {
            &&& release_all(t, addrs).contains_key(a)
            &&& release_all(t, addrs)[a].readers == t[a].readers - 1
            &&& release_all(t, addrs)[a].chunk == t[a].chunk
        },
        addrs.contains(a) && t.contains_key(a) && t[a].readers <= 1
            ==> !release_all(t, addrs).contains_key(a),
    decreases addrs.len(),
{
    if addrs.len() > 0 {
        let init = addrs.drop_last();
        let last = addrs.last();
        assert(forall|i: int, j: int| 0 <= i < j < init.len() ==> init[i] != init[j]);
        lemma_release_all_at(t, init, a);
        if last == a {
            assert(!init.contains(a)) by {
                if init.contains(a) {
                    let i = choose|i: int| 0 <= i < init.len() && init[i] == a;
                    assert(addrs[i] == a && addrs[addrs.len() - 1] == a);
                }
            }
            assert(addrs.contains(a)) by {
                assert(addrs[addrs.len() - 1] == a);
            }
        } else {
            if addrs.contains(a) {
                let i = choose|i: int| 0 <= i < addrs.len() && addrs[i] == a;
                assert(init[i] == a);
                assert(init.contains(a));
            }
            if init.contains(a) {
                let i = choose|i: int| 0 <= i < init.len() && init[i] == a;
                assert(addrs[i] == a);
                assert(addrs.contains(a));
            }
        }
    }
}

impl ChunkTable {
    /// Every key is an aligned offset; every entry is well formed, anchored
    /// at its key, and referenced by at least one live mapping.
    /// The entry at `a` is well formed: anchored at its aligned key and
    /// referenced by at least one live mapping.
    pub open spec fn entry_ok(self, a: u64) -> bool {
        &&& aligned(a)
        &&& self@[a].readers >= 1
        &&& self@[a].chunk.offset == a
        &&& self@[a].chunk.wf()
    }

    pub open spec fn wf(self) -> bool {
        forall|a: u64| #[trigger] self@.contains_key(a) ==> self.entry_ok(a)
    }

    /// An empty table.
    pub fn new() -> (t: ChunkTable)
        ensures
            t@ == Map::<u64, ChunkEntry>::empty(),
            t.wf(),
    {
        ChunkTable { entries: HashMap::new() }
    }

    /// Whether an entry for `address` is cached.
    pub fn contains(&self, address: u64) -> (b: bool)
        ensures
            b == self@.contains_key(address),
    {
        self.entries.contains_key(&address)
    }

    /// How many chunks are cached.
    pub fn len(&self) -> (n: usize)
        ensures
            n == self@.len(),
    {
        self.entries.len()
    }

    /// The reader count of the entry at `address`, if one is cached.
    pub fn readers_at(&self, address: u64) -> (r: Option<u64>)
        ensures
            match r {
                Some(n) => self@.contains_key(address) && n == self@[address].readers,
                None => !self@.contains_key(address),
            },
    {
        match self.entries.get(&address) {
            Some(e) => Some(e.readers),
            None => None,
        }
    }

    /// Serve `address` from cache: on a hit the entry's reader count rises by
    /// one and the cached chunk itself is returned; on a miss nothing changes.
    pub fn acquire_cached(&mut self, address: u64) -> (r: Option<Chunk>)
        requires
            old(self).wf(),
            old(self)@.contains_key(address) ==> old(self)@[address].readers < u64::MAX,
        ensures
            final(self).wf(),
            old(self)@.contains_key(address) ==> {
                &&& r matches Some(c) && c == old(self)@[address].chunk
                &&& final(self)@ == old(self)@.insert(address, (ChunkEntry {
                        readers: (old(self)@[address].readers + 1) as u64,
                        chunk: old(self)@[address].chunk,
                    }))
            },
            !old(self)@.contains_key(address) ==> {
                &&& r is None
                &&& final(self)@ == old(self)@
            },
    {
        let found = match self.entries.get(&address) {
            Some(e) => Some((e.readers, e.chunk.share())),
            None => None,
        };
        match found {
            Some((readers, chunk)) => {
                let shared = chunk.share();
                self.entries.insert(address, ChunkEntry { readers: readers + 1, chunk });
                proof {
                    assert forall|a: u64| self@.contains_key(a) implies self.entry_ok(a) by {
                        if a != address {
                            assert(old(self)@.contains_key(a));
                        }
                    }
                }
                Some(shared)
            },
            None => None,
        }
    }

    /// Insert a freshly read buffer for an uncached address, with one reader,
    /// and return the new chunk.
    pub fn insert_new(&mut self, address: u64, data: Vec<u8>) -> (c: Chunk)
        requires
            old(self).wf(),
            !old(self)@.contains_key(address),
            aligned(address),
            data@.len() == CHUNK_SIZE,
        ensures
            final(self).wf(),
            c.offset == address,
            c.data@ == data@,
            c.wf(),
            final(self)@ == old(self)@.insert(address, (ChunkEntry { readers: 1, chunk: c })),
    {
        let chunk = Chunk::new(address, data);
        let shared = chunk.share();
        self.entries.insert(address, ChunkEntry { readers: 1, chunk });
        proof {
            assert forall|a: u64| self@.contains_key(a) implies self.entry_ok(a) by {
                if a != address {
                    assert(old(self)@.contains_key(a));
                }
            }
        }
        shared
    }

    /// Give back one reference to the entry at `address`: its reader count
    /// drops by one, and the entry is evicted if no reader is left.
    pub fn release_at(&mut self, address: u64)
        requires
            old(self).wf(),
            old(self)@.contains_key(address),
        ensures
            final(self).wf(),
            final(self)@ == release_one(old(self)@, address),
    {
        let found = match self.entries.get(&address) {
            Some(e) => (e.readers, e.chunk.share()),
            None => unreached(),
        };
        let (readers, chunk) = found;
        if readers <= 1 {
            self.entries.remove(&address);
        } else {
            self.entries.insert(address, ChunkEntry { readers: readers - 1, chunk });
        }
        proof {
            assert forall|a: u64| self@.contains_key(a) implies self.entry_ok(a) by {
                if a != address {
                    assert(old(self)@.contains_key(a));
                }
            }
        }
    }
}

} // verus!
