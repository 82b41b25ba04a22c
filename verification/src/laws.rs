//! The laws the cache obeys, stated over the read and release relations and
//! proved once for all states, ranges and files.

use vstd::prelude::*;
use vstd::arithmetic::div_mod::{
    lemma_fundamental_div_mod, lemma_fundamental_div_mod_converse,
};
use vstd::arithmetic::mul::lemma_mul_inequality;
use crate::mapping::FileViewMapping;
use crate::model::{
    base_of, chunk_of, csz, fills_match, lemma_missing_index, lemma_planned_index, lemma_touched,
    missing_list, touched_addresses,
};
use crate::table::{lemma_release_all_at, release_all, ChunkEntry};
use crate::view::{mapping_offsets, read_ok_rel, FileView};

verus! {

/// A successful read returns exactly the file's bytes. For every view whose
/// cache is consistent with a file of its length, every valid range of that
/// file and every set of fills that truly holds the file's missing chunks,
/// the mapping a read returns holds the file's bytes at `[start, end)`, and
/// the cache stays consistent with the file.
pub proof fn lemma_read_matches_file(
    pre: FileView,
    post: FileView,
    m: FileViewMapping,
    fills: Seq<Seq<u8>>,
    file: Seq<u8>,
    start: u64,
    end: u64,
)
    requires
        pre.wf(),
        pre.consistent_with(file),
        start <= end,
        end <= pre.length,
        fills_match(file, missing_list(pre.table@, touched_addresses(start, end)), fills),
        read_ok_rel(pre, post, m, fills, start, end),
    ensures
        m.bytes() == file.subrange(start as int, end as int),
        post.consistent_with(file),
{
    let addrs = touched_addresses(start, end);
    let n = addrs.len() as int;
    assert forall|i: int| 0 <= i < n implies (#[trigger] m.buffers@[i]).data@ == chunk_of(
        file,
        addrs[i],
    ) by {
        lemma_planned_index(pre.table@, addrs, fills, i);
        if !pre.table@.contains_key(addrs[i]) {
            lemma_missing_index(pre.table@, addrs, i);
        }
    }
    if start < end {
        lemma_touched(start, end);
        let c = csz();
        assert(c == 0x8000);
        assert forall|q: int| 0 <= q < m.length implies m.bytes()[q] == file[start + q] by {
            let p = m.start_offset + q;
            m.lemma_position_in_range(p);
            let i = p / c;
            let r = p % c;
            lemma_fundamental_div_mod(p, c);
            assert(addrs[i] == base_of(start) + i * c);
            assert(m.start_offset == start - base_of(start));
            assert(addrs[i] + r == start + q);
            assert(addrs[i] + r < end);
            assert(chunk_of(file, addrs[i])[r] == file[addrs[i] + r]);
        }
        assert(m.bytes() =~= file.subrange(start as int, end as int));
    } else {
        assert(m.bytes() =~= file.subrange(start as int, end as int));
    }
    assert forall|a: u64| post.table@.contains_key(a) implies (#[trigger] post.table@[a])
        .chunk.data@ == chunk_of(file, a) by {
        if addrs.to_set().contains(a) {
            let i = choose|i: int| 0 <= i < addrs.len() && addrs[i] == a;
            assert(post.table@[addrs[i]].chunk == m.buffers@[i]);
        } else {
            assert(pre.table@.contains_key(a));
            assert(post.table@[a] == pre.table@[a]);
        }
    }
}

/// The two read paths agree. A direct read of `[start, end)` that returns
/// exactly the file's bytes there returns the very bytes the chunked path's
/// mapping reconstructs.
pub proof fn lemma_raw_matches_read(
    pre: FileView,
    post: FileView,
    m: FileViewMapping,
    fills: Seq<Seq<u8>>,
    file: Seq<u8>,
    start: u64,
    end: u64,
    raw: Seq<u8>,
)
    requires
        pre.wf(),
        pre.consistent_with(file),
        start <= end,
        end <= pre.length,
        fills_match(file, missing_list(pre.table@, touched_addresses(start, end)), fills),
        read_ok_rel(pre, post, m, fills, start, end),
        raw == file.subrange(start as int, end as int),
    ensures
        raw == m.bytes(),
{
    lemma_read_matches_file(pre, post, m, fills, file, start, end);
}

/// Two overlapping reads share one chunk, and releasing both evicts it. When
/// an address uncached in `s0` is touched by a first read and then by a
/// second, both mappings hold the very same chunk for it (one buffer, no
/// copy), the entry then counts two readers, and after both mappings are
/// released the address is no longer cached.
pub proof fn lemma_shared_then_evicted(
    s0: FileView,
    s1: FileView,
    m1: FileViewMapping,
    f1: Seq<Seq<u8>>,
    start1: u64,
    end1: u64,
    s2: FileView,
    m2: FileViewMapping,
    f2: Seq<Seq<u8>>,
    start2: u64,
    end2: u64,
    s3: FileView,
    s4: FileView,
    addr: u64,
)
    requires
        read_ok_rel(s0, s1, m1, f1, start1, end1),
        read_ok_rel(s1, s2, m2, f2, start2, end2),
        s3.table@ == release_all(s2.table@, mapping_offsets(m1)),
        s4.table@ == release_all(s3.table@, mapping_offsets(m2)),
        !s0.table@.contains_key(addr),
        touched_addresses(start1, end1).contains(addr),
        touched_addresses(start2, end2).contains(addr),
    ensures
        forall|i: int, j: int|
            0 <= i < m1.buffers@.len() && 0 <= j < m2.buffers@.len()
                && m1.buffers@[i].offset == addr && m2.buffers@[j].offset == addr
                ==> m1.buffers@[i] == m2.buffers@[j],
        s2.table@.contains_key(addr) && s2.table@[addr].readers == 2,
        !s4.table@.contains_key(addr),
{
    let addrs1 = touched_addresses(start1, end1);
    let addrs2 = touched_addresses(start2, end2);
    let i1 = choose|i: int| 0 <= i < addrs1.len() && addrs1[i] == addr;
    let i2 = choose|i: int| 0 <= i < addrs2.len() && addrs2[i] == addr;
    assert(addrs1.to_set().contains(addr));
    assert(addrs2.to_set().contains(addr));
    assert(s1.table@[addrs1[i1]] == (ChunkEntry {
        readers: 1u64,
        chunk: m1.buffers@[i1],
    }));
    assert(s1.table@.dom().contains(addr));
    assert(m2.buffers@[i2] == s1.table@[addr].chunk);
    assert(s2.table@[addrs2[i2]] == (ChunkEntry {
        readers: 2u64,
        chunk: m2.buffers@[i2],
    }));
    m1.lemma_offsets_increasing();
    m2.lemma_offsets_increasing();
    assert forall|i: int, j: int|
        0 <= i < m1.buffers@.len() && 0 <= j < m2.buffers@.len() && m1.buffers@[i].offset == addr
            && m2.buffers@[j].offset == addr implies m1.buffers@[i] == m2.buffers@[j] by {
        assert(i == i1);
        assert(j == i2);
    }
    let offs1 = mapping_offsets(m1);
    let offs2 = mapping_offsets(m2);
    assert(offs1[i1] == addr && offs2[i2] == addr);
    assert(offs1.contains(addr) && offs2.contains(addr));
    lemma_release_all_at(s2.table@, offs1, addr);
    assert(s3.table@.contains_key(addr));
    assert(s3.table@[addr].readers == 1);
    lemma_release_all_at(s3.table@, offs2, addr);
    assert(!s4.table@.contains_key(addr));
}

/// Releasing a read's mapping restores the cache to what it was before the
/// read: every touched entry drops back to its old reader count, and every
/// chunk the read brought in is evicted.
pub proof fn lemma_read_then_release_restores(
    pre: FileView,
    post: FileView,
    m: FileViewMapping,
    fills: Seq<Seq<u8>>,
    start: u64,
    end: u64,
    after: FileView,
)
    requires
        pre.wf(),
        start <= end,
        pre.can_acquire(start, end),
        read_ok_rel(pre, post, m, fills, start, end),
        after.table@ == release_all(post.table@, mapping_offsets(m)),
    ensures
        after.table@ == pre.table@,
{
    let addrs = touched_addresses(start, end);
    let offs = mapping_offsets(m);
    assert(offs =~= addrs);
    if start < end {
        crate::model::lemma_touched_increasing(start, end);
    }
    assert forall|a: u64|
        #![trigger after.table@.contains_key(a)]
        #![trigger pre.table@.contains_key(a)]
        (after.table@.contains_key(a) <==> pre.table@.contains_key(a)) && (
        pre.table@.contains_key(a) ==> after.table@[a] == pre.table@[a]) by {
        lemma_release_all_at(post.table@, offs, a);
        if addrs.to_set().contains(a) {
            let i = choose|i: int| 0 <= i < addrs.len() && addrs[i] == a;
            assert(offs[i] == a);
            assert(offs.contains(a));
            assert(post.table@.contains_key(a));
            if pre.table@.contains_key(a) {
                assert(post.table@[a].readers == pre.table@[a].readers + 1);
                assert(post.table@[a].readers > 1);
                assert(after.table@[a].chunk == pre.table@[a].chunk);
            } else {
                assert(post.table@[a].readers == 1);
            }
        } else {
            assert(!offs.contains(a)) by {
                if offs.contains(a) {
                    let i = choose|i: int| 0 <= i < offs.len() && offs[i] == a;
                    assert(addrs[i] == a);
                }
            }
            assert(post.table@.dom().contains(a) <==> pre.table@.dom().contains(a));
        }
    }
    assert(after.table@ =~= pre.table@);
}

/// Where the slice of chunk `i` begins inside the reconstructed range.
spec fn slice_pos(m: FileViewMapping, i: int) -> int {
    if i <= 0 {
        0
    } else if i >= m.buffers@.len() {
        m.length as int
    } else {
        i * csz() - m.start_offset
    }
}

/// Concatenating the clipped slices from chunk `i` on yields the mapping's
/// bytes from that chunk's first kept byte on.
proof fn lemma_stitch_from(m: FileViewMapping, i: int)
    requires
        m.wf(),
        0 <= i <= m.buffers@.len(),
    ensures
        m.stitch_from(i) == m.bytes().skip(slice_pos(m, i)),
    decreases m.buffers@.len() - i,
{
    let n = m.buffers@.len() as int;
    let c = csz();
    assert(c == 0x8000);
    if i == n {
        assert(m.stitch_from(i) =~= m.bytes().skip(slice_pos(m, i)));
    } else {
        lemma_stitch_from(m, i + 1);
        let lo = m.clip_lo(i);
        let hi = m.clip_hi(i);
        let sp = slice_pos(m, i);
        let sp1 = slice_pos(m, i + 1);
        lemma_mul_inequality(i, n - 1, c);
        if i >= 1 {
            lemma_mul_inequality(1, i, c);
        }
        assert((i + 1) * c == i * c + c) by (nonlinear_arith);
        assert((n - 1) * c == m.length + m.start_offset - m.end_offset);
        assert(0 <= sp <= sp1 <= m.length);
        assert(sp1 - sp == hi - lo);
        assert forall|b: int| 0 <= b < hi - lo implies #[trigger] m.bytes()[sp + b]
            == m.buffers@[i].data@[lo + b] by {
            let p = m.start_offset + sp + b;
            assert(p == i * c + (lo + b));
            lemma_fundamental_div_mod_converse(p, c, i, lo + b);
        }
        assert(m.bytes().skip(sp) =~= m.slice_seq()[i] + m.bytes().skip(sp1));
    }
}

/// Stitching reproduces the range exactly: concatenating the clipped chunk
/// slices in order, with no gap and no duplication, yields precisely the
/// mapping's bytes.
pub proof fn lemma_stitched_is_bytes(m: FileViewMapping)
    requires
        m.wf(),
    ensures
        m.stitched() == m.bytes(),
{
    lemma_stitch_from(m, 0);
    assert(m.bytes().skip(0) =~= m.bytes());
}

} // verus!
