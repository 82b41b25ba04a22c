//! The mathematical model of the chunk cache: aligned addresses, the chunk a
//! file region maps to, the list of addresses a byte range touches, and which
//! of those a given table is missing.

use vstd::prelude::*;
use vstd::arithmetic::div_mod::{
    lemma_fundamental_div_mod, lemma_mod_adds, lemma_mod_division_less_than_divisor,
    lemma_mod_multiples_basic,
};
use vstd::arithmetic::mul::lemma_mul_inequality;
use crate::CHUNK_SIZE;
use crate::table::ChunkEntry;

verus! {

/// The chunk size as a spec-level integer.
pub open spec fn csz() -> int {
    CHUNK_SIZE as int
}

/// Whether `address` is a multiple of the chunk size.
pub open spec fn aligned(address: u64) -> bool {
    address % (CHUNK_SIZE as u64) == 0
}

/// The greatest aligned address at or below `pos`.
pub open spec fn base_of(pos: u64) -> u64 {
    (pos - pos % (CHUNK_SIZE as u64)) as u64
}

/// The `CHUNK_SIZE` bytes a chunk anchored at `address` holds when the file's
/// bytes are `file`: the file's bytes from `address` on, zero-filled past the
/// end of the file.
pub open spec fn chunk_of(file: Seq<u8>, address: u64) -> Seq<u8> {
    Seq::new(CHUNK_SIZE as nat, |i: int|
        if address + i < file.len() { file[address + i] } else { 0u8 })
}

/// How many chunks the non-empty range `[start, end)` touches.
pub open spec fn chunk_count(start: u64, end: u64) -> int {
    (end - base_of(start) - 1) / csz() + 1
}

/// The aligned addresses of the chunks that `[start, end)` touches, in
/// ascending order. An empty range touches no chunk.
pub open spec fn touched_addresses(start: u64, end: u64) -> Seq<u64> {
    if start >= end {
        Seq::empty()
    } else {
        Seq::new(chunk_count(start, end) as nat, |i: int|
            (base_of(start) + i * csz()) as u64)
    }
}

/// The addresses of `addrs` that `table` has no entry for, in order.
pub open spec fn missing_list(table: Map<u64, ChunkEntry>, addrs: Seq<u64>) -> Seq<u64>
    decreases addrs.len(),
{
    if addrs.len() == 0 {
        Seq::empty()
    } else {
        missing_list(table, addrs.drop_last())
            + if table.contains_key(addrs.last()) { Seq::empty() } else { seq![addrs.last()] }
    }
}

/// The data each address of `addrs` resolves to: a cached address keeps the
/// table's bytes, and each uncached address consumes the next element of
/// `fills` in order.
pub open spec fn planned_data(
    table: Map<u64, ChunkEntry>,
    addrs: Seq<u64>,
    fills: Seq<Seq<u8>>,
) -> Seq<Seq<u8>>
    decreases addrs.len(),
{
    if addrs.len() == 0 {
        Seq::empty()
    } else {
        planned_data(table, addrs.drop_last(), fills)
            + seq![
                if table.contains_key(addrs.last()) {
                    table[addrs.last()].chunk.data@
                } else {
                    fills[missing_list(table, addrs.drop_last()).len() as int]
                }
            ]
    }
}

/// The views of a vector of byte buffers.
pub open spec fn datas_of(fills: Seq<Vec<u8>>) -> Seq<Seq<u8>> {
    fills.map_values(|v: Vec<u8>| v@)
}

/// Whether `fills` are exactly the file's chunks at the addresses `miss`.
pub open spec fn fills_match(file: Seq<u8>, miss: Seq<u64>, fills: Seq<Seq<u8>>) -> bool {
    &&& fills.len() == miss.len()
    &&& forall|j: int| 0 <= j < miss.len() ==> fills[j] == chunk_of(file, miss[j])
}

/// What the touched addresses of a non-empty range look like: at least one,
/// consecutive aligned addresses from the range's base, each below `end`,
/// with `end` inside the last chunk and strictly beyond every earlier one.
pub proof fn lemma_touched(start: u64, end: u64)
    requires
        start < end,
    ensures
        ({
            let addrs = touched_addresses(start, end);
            &&& addrs.len() >= 1
            &&& forall|i: int| 0 <= i < addrs.len()
                ==> #[trigger] addrs[i] == base_of(start) + i * csz()
            &&& forall|i: int| 0 <= i < addrs.len() ==> aligned(#[trigger] addrs[i])
            &&& addrs[0] == base_of(start)
            &&& forall|i: int| 0 <= i < addrs.len() ==> (#[trigger] addrs[i]) < end
            &&& forall|i: int| 0 <= i < addrs.len() - 1 ==> end - (#[trigger] addrs[i]) > csz()
            &&& 1 <= end - addrs.last() <= csz()
            &&& base_of(start) <= start
            &&& start - base_of(start) < csz()
            &&& start % (CHUNK_SIZE as u64) <= start
        }),
{
    let c = csz();
    assert(c == 0x8000);
    let addrs = touched_addresses(start, end);
    lemma_fundamental_div_mod(start as int, c);
    lemma_mod_division_less_than_divisor(start as int, c);
    let base = base_of(start) as int;
    assert(base == c * (start as int / c));
    assert(base % c == 0) by {
        lemma_mod_multiples_basic(start as int / c, c);
    }
    let d = end - base - 1;
    lemma_fundamental_div_mod(d, c);
    lemma_mod_division_less_than_divisor(d, c);
    let q = d / c;
    let r = d % c;
    assert(q >= 0);
    assert(addrs.len() == q + 1);
    assert forall|i: int| 0 <= i <= q implies base + i * c < end && base + i * c
        == addrs[i] && aligned(addrs[i]) by {
        lemma_mul_inequality(i, q, c);
        assert(i * c <= q * c);
        assert(q * c == d - r);
        assert(base + i * c <= end - 1 - r);
        assert((base + i * c) % c == 0) by {
            lemma_mod_adds(base, i * c, c);
            lemma_mod_multiples_basic(i, c);
        }
    }
    assert forall|i: int| 0 <= i < q implies end - addrs[i] > c by {
        lemma_mul_inequality(i, q - 1, c);
        assert(i * c <= (q - 1) * c);
        assert((q - 1) * c == q * c - c);
        assert(end - (base + i * c) >= end - (base + (q * c - c)));
        assert(end - (base + q * c - c) == r + 1 + c);
    }
    assert(addrs.last() == base + q * c);
    assert(end - (base + q * c) == r + 1);
}

/// The touched addresses ascend strictly.
pub proof fn lemma_touched_increasing(start: u64, end: u64)
    requires
        start < end,
    ensures
        forall|i: int, j: int|
            0 <= i < j < touched_addresses(start, end).len()
                ==> touched_addresses(start, end)[i] < touched_addresses(start, end)[j],
{
    lemma_touched(start, end);
    let addrs = touched_addresses(start, end);
    assert forall|i: int, j: int| 0 <= i < j < addrs.len() implies addrs[i] < addrs[j] by {
        lemma_mul_inequality(i, j - 1, csz());
        assert((j - 1) * csz() + csz() == j * csz()) by (nonlinear_arith);
    }
}

/// Taking one more element of a list adds exactly that element to the set of
/// elements taken.
pub proof fn lemma_take_set_step<T>(s: Seq<T>, k: int)
    requires
        0 <= k < s.len(),
    ensures
        s.take(k + 1).to_set() == s.take(k).to_set().insert(s[k]),
{
    let a = s.take(k + 1);
    let b = s.take(k);
    assert(a[k] == s[k]);
    assert(a.to_set().contains(s[k]));
    assert forall|x: T| a.to_set().contains(x) implies b.to_set().contains(x) || x == s[k] by {
        let i = choose|i: int| 0 <= i < a.len() && a[i] == x;
        if i < k {
            assert(b[i] == x);
        }
    }
    assert forall|x: T| b.to_set().contains(x) implies a.to_set().contains(x) by {
        let i = choose|i: int| 0 <= i < b.len() && b[i] == x;
        assert(a[i] == x);
    }
    assert(a.to_set() =~= b.to_set().insert(s[k]));
}

/// An empty list has no element in its set.
pub proof fn lemma_empty_to_set<T>()
    ensures
        Seq::<T>::empty().to_set() == Set::<T>::empty(),
{
    assert(Seq::<T>::empty().to_set() =~= Set::<T>::empty());
}

/// A missing list never outgrows its address list, and grows by one exactly
/// at each uncached address: the list over one more address is the list so
/// far, extended with the new address when it is uncached.
pub proof fn lemma_missing_step(table: Map<u64, ChunkEntry>, addrs: Seq<u64>, k: int)
    requires
        0 <= k < addrs.len(),
    ensures
        missing_list(table, addrs.take(k + 1)) == missing_list(table, addrs.take(k))
            + if table.contains_key(addrs[k]) { Seq::<u64>::empty() } else { seq![addrs[k]] },
{
    assert(addrs.take(k + 1).drop_last() =~= addrs.take(k));
    assert(addrs.take(k + 1).last() == addrs[k]);
}

/// Longer prefixes of one address list have missing lists at least as long.
pub proof fn lemma_missing_monotone(table: Map<u64, ChunkEntry>, addrs: Seq<u64>, k: int, l: int)
    requires
        0 <= k <= l <= addrs.len(),
    ensures
        missing_list(table, addrs.take(k)).len() <= missing_list(table, addrs.take(l)).len(),
        missing_list(table, addrs.take(l)).len() <= l,
    decreases l - k,
{
    if k == l {
        lemma_missing_bound(table, addrs.take(l));
    } else {
        lemma_missing_step(table, addrs, l - 1);
        lemma_missing_monotone(table, addrs, k, l - 1);
    }
}

/// A shorter prefix's missing list is a prefix of a longer one's: the two
/// agree on every index the shorter one has.
pub proof fn lemma_missing_prefix(table: Map<u64, ChunkEntry>, addrs: Seq<u64>, k: int, l: int)
    requires
        0 <= k <= l <= addrs.len(),
    ensures
        forall|j: int|
            0 <= j < missing_list(table, addrs.take(k)).len()
                ==> missing_list(table, addrs.take(k))[j] == missing_list(table, addrs.take(l))[j],
    decreases l - k,
{
    if k < l {
        lemma_missing_step(table, addrs, l - 1);
        lemma_missing_prefix(table, addrs, k, l - 1);
        lemma_missing_monotone(table, addrs, k, l - 1);
    }
}

/// Where an uncached address lands in the missing list: right after the
/// misses among the addresses before it.
pub proof fn lemma_missing_index(table: Map<u64, ChunkEntry>, addrs: Seq<u64>, i: int)
    requires
        0 <= i < addrs.len(),
        !table.contains_key(addrs[i]),
    ensures
        ({
            let j = missing_list(table, addrs.take(i)).len() as int;
            &&& j < missing_list(table, addrs).len()
            &&& missing_list(table, addrs)[j] == addrs[i]
        }),
{
    let j = missing_list(table, addrs.take(i)).len() as int;
    lemma_missing_step(table, addrs, i);
    assert(missing_list(table, addrs.take(i + 1))[j] == addrs[i]);
    lemma_missing_monotone(table, addrs, i + 1, addrs.len() as int);
    lemma_missing_prefix(table, addrs, i + 1, addrs.len() as int);
    lemma_take_all(addrs);
}

/// A missing list is no longer than its address list.
pub proof fn lemma_missing_bound(table: Map<u64, ChunkEntry>, addrs: Seq<u64>)
    ensures
        missing_list(table, addrs).len() <= addrs.len(),
    decreases addrs.len(),
{
    if addrs.len() > 0 {
        lemma_missing_bound(table, addrs.drop_last());
    }
}

/// The whole address list is a prefix of itself.
pub proof fn lemma_take_all<T>(s: Seq<T>)
    ensures
        s.take(s.len() as int) == s,
{
    assert(s.take(s.len() as int) =~= s);
}

/// What address `i` of the plan resolves to: the table's bytes when cached,
/// and otherwise the fill that follows the ones the earlier addresses used.
pub proof fn lemma_planned_index(
    table: Map<u64, ChunkEntry>,
    addrs: Seq<u64>,
    fills: Seq<Seq<u8>>,
    i: int,
)
    requires
        0 <= i < addrs.len(),
    ensures
        planned_data(table, addrs, fills).len() == addrs.len(),
        planned_data(table, addrs, fills)[i] == if table.contains_key(addrs[i]) {
            table[addrs[i]].chunk.data@
        } else {
            fills[missing_list(table, addrs.take(i)).len() as int]
        },
    decreases addrs.len(),
{
    lemma_planned_len(table, addrs, fills);
    if i == addrs.len() - 1 {
        lemma_take_all(addrs.drop_last());
        assert(addrs.drop_last().take(i) =~= addrs.take(i));
        lemma_planned_len(table, addrs.drop_last(), fills);
    } else {
        lemma_planned_index(table, addrs.drop_last(), fills, i);
        assert(addrs.drop_last().take(i) =~= addrs.take(i));
        assert(addrs.drop_last()[i] == addrs[i]);
    }
}

/// A plan has one entry per address.
pub proof fn lemma_planned_len(table: Map<u64, ChunkEntry>, addrs: Seq<u64>, fills: Seq<Seq<u8>>)
    ensures
        planned_data(table, addrs, fills).len() == addrs.len(),
    decreases addrs.len(),
{
    if addrs.len() > 0 {
        lemma_planned_len(table, addrs.drop_last(), fills);
    }
}

} // verus!
