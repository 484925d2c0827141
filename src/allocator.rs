use vstd::prelude::*;

use crate::access::{
    lemma_u32_le, slice_range, u32_from_le, u32_le, u32_of_le, u32_to_le, AllocId, FrostyAllocatable,
};
use crate::chunk::{
    added, added_at, covers, lemma_added_covers, best_fit_index, chunk_end, chunks_wf, disjoint_from_all, has_fit, insert_pos,
    is_insert_pos, lemma_added_shape, splice_hi, splice_lo, Chunk, OrderedChunkList,
};
use crate::frosty_box::{bit, pending_bit, read_granted, reader_bit, write_granted, BitMask, THREAD_SLOTS};
use crate::handle::{DataAccess, DataAccessMut, ObjectHandleMut};

verus! {

/// Bytes of the semaphore word at the front of every cell.
pub const HEADER: usize = 4;

/// Per-allocation record: where the cell lies, whether it was freed, how many
/// handles refer to it, and the type tag of the value in it.
#[derive(Clone, Copy, Debug, PartialEq, Eq, Structural)]
pub struct InterimPtr {
    pub freed: bool,
    pub active_handles: u32,
    pub index: usize,
    pub size: usize,
    pub tag: AllocId,
}

impl InterimPtr {
    /// Marks the cell as freed.
    pub fn free(&mut self)
        ensures
            *final(self) == (InterimPtr { freed: true, ..*old(self) }),
    {
        self.freed = true;
    }

    /// Whether a handle may still reach the cell.
    pub fn is_live(&self) -> (r: bool)
        ensures
            r == !self.freed,
    {
        !self.freed
    }
}

/// `a` and `b`, as byte ranges, share no byte.
pub open spec fn apart(a_start: int, a_len: int, b_start: int, b_len: int) -> bool {
    a_start + a_len <= b_start || b_start + b_len <= a_start
}

/// The bytes of the cell of record `r`.
pub open spec fn cell_bytes(region: Seq<u8>, r: InterimPtr) -> Seq<u8> {
    region.subrange(r.index as int, r.index + r.size)
}

/// The semaphore word of the cell of record `r`.
pub open spec fn word_of(region: Seq<u8>, r: InterimPtr) -> u32 {
    u32_of_le(region.subrange(r.index as int, r.index + HEADER))
}

/// The value bytes of the cell of record `r`.
pub open spec fn value_bytes(region: Seq<u8>, r: InterimPtr) -> Seq<u8> {
    region.subrange(r.index + HEADER, r.index + r.size)
}

/// The region length reached by doubling `cur` until it holds `need` bytes.
pub open spec fn grow_len(cur: int, need: int) -> int
    decreases (if need > cur {
        need - cur
    } else {
        0
    }),
{
    if cur >= need || cur < 1 {
        cur
    } else {
        grow_len(cur * 2, need)
    }
}

/// The arena cannot grow far enough: the region would pass the address space.
#[derive(Clone, Copy, Debug, PartialEq, Eq, Structural)]
pub struct CapacityExhausted;

/// Writes `bytes` over `region[at..at + bytes.len()]`.
fn write_bytes(region: &mut Vec<u8>, at: usize, bytes: &Vec<u8>)
    requires
        at + bytes@.len() <= old(region)@.len(),
        old(region)@.len() <= usize::MAX,
    ensures
        final(region)@.len() == old(region)@.len(),
        forall|i: int|
            0 <= i < old(region)@.len() && (i < at || i >= at + bytes@.len()) ==> #[trigger] final(region)@[i] == old(region)@[i],
        final(region)@.subrange(at as int, at + bytes@.len()) == bytes@,
{
    let mut i: usize = 0;
    while i < bytes.len()
        invariant
            i <= bytes@.len(),
            at + bytes@.len() <= region@.len(),
            region@.len() <= usize::MAX,
            region@.len() == old(region)@.len(),
            forall|j: int|
                0 <= j < region@.len() && (j < at || j >= at + i) ==> #[trigger] region@[j] == old(region)@[j],
            forall|j: int| 0 <= j < i ==> #[trigger] region@[at + j] == bytes@[j],
        decreases bytes@.len() - i,
    {
        region.set(at + i, bytes[i]);
        i = i + 1;
    }
    assert(region@.subrange(at as int, at + bytes@.len()) =~= bytes@) by {
        assert forall|j: int| 0 <= j < bytes@.len() implies region@.subrange(at as int, at
            + bytes@.len())[j] == bytes@[j] by {
            assert(region@[at + j] == bytes@[j]);
        }
    }
}

/// Bytes outside `[at, at + n)` keep every cell that lies apart from that range.
proof fn lemma_cell_kept(r1: Seq<u8>, r2: Seq<u8>, at: int, n: int, r: InterimPtr)
    requires
        r1.len() <= r2.len(),
        r.index + r.size <= r1.len(),
        forall|i: int| 0 <= i < r1.len() && (i < at || i >= at + n) ==> #[trigger] r2[i] == r1[i],
        apart(r.index as int, r.size as int, at, n),
    ensures
        cell_bytes(r2, r) == cell_bytes(r1, r),
{
    assert(cell_bytes(r2, r) =~= cell_bytes(r1, r)) by {
        assert forall|i: int| 0 <= i < r.size implies cell_bytes(r2, r)[i] == cell_bytes(r1, r)[i] by {
            assert(r2[r.index + i] == r1[r.index + i]);
        }
    }
}

proof fn lemma_grow_len_ge(cur: int, need: int)
    requires
        cur >= 1,
    ensures
        grow_len(cur, need) >= cur,
        grow_len(cur, need) >= need,
    decreases (if need > cur {
        need - cur
    } else {
        0
    }),
{
    if cur < need {
        lemma_grow_len_ge(cur * 2, need);
    }
}

/// A byte range apart from a returned chunk and from every chunk of the list is
/// apart from every chunk of the list after the return.
proof fn lemma_added_apart(s: Seq<Chunk>, c: Chunk, a: int, l: int)
    requires
        chunks_wf(s),
        c.len > 0,
        chunk_end(c) <= usize::MAX,
        disjoint_from_all(s, c),
        l > 0,
        apart(a, l, c.start as int, c.len as int),
        forall|i: int| 0 <= i < s.len() ==> apart(a, l, (#[trigger] s[i]).start as int, s[i].len as int),
    ensures
        forall|i: int|
            0 <= i < added(s, c).len() ==> apart(
                a,
                l,
                (#[trigger] added(s, c)[i]).start as int,
                added(s, c)[i].len as int,
            ),
{
    lemma_added_shape(s, c);
    let k = insert_pos(s, c.start as int);
    let lo = splice_lo(s, c, k);
    let hi = splice_hi(s, c, k);
    let t = added(s, c);
    assert forall|i: int| 0 <= i < t.len() implies apart(a, l, (#[trigger] t[i]).start as int, t[i].len as int) by {
        if i < lo {
            assert(t[i] == s[i]);
        } else if i > lo {
            assert(t[i] == s[i - lo - 1 + hi]);
        } else {
            if lo < k {
                assert(apart(a, l, s[k - 1].start as int, s[k - 1].len as int));
            }
            if hi > k {
                assert(apart(a, l, s[k].start as int, s[k].len as int));
            }
        }
    }
}

/// A returned chunk that ends by `n`, in a list whose chunks end by `n`, leaves a list
/// whose chunks end by `n`.
proof fn lemma_added_bounded(s: Seq<Chunk>, c: Chunk, n: int)
    requires
        chunks_wf(s),
        c.len > 0,
        chunk_end(c) <= usize::MAX,
        disjoint_from_all(s, c),
        chunk_end(c) <= n,
        forall|i: int| 0 <= i < s.len() ==> chunk_end(#[trigger] s[i]) <= n,
    ensures
        forall|i: int| 0 <= i < added(s, c).len() ==> chunk_end(#[trigger] added(s, c)[i]) <= n,
{
    lemma_added_shape(s, c);
    let k = insert_pos(s, c.start as int);
    let lo = splice_lo(s, c, k);
    let hi = splice_hi(s, c, k);
    let t = added(s, c);
    assert forall|i: int| 0 <= i < t.len() implies chunk_end(#[trigger] t[i]) <= n by {
        if i < lo {
            assert(t[i] == s[i]);
        } else if i > lo {
            assert(t[i] == s[i - lo - 1 + hi]);
        } else if hi > k {
            assert(chunk_end(s[k]) <= n);
        }
    }
}

/// The free chunks `f` are sorted and coalesced and end by `n`; every live cell of
/// `rs` ends by `n` and lies apart from every free chunk and every other live cell.
pub open spec fn arena_core(f: Seq<Chunk>, rs: Seq<InterimPtr>, n: int) -> bool {
    &&& chunks_wf(f)
    &&& n <= usize::MAX
    &&& forall|i: int| 0 <= i < f.len() ==> chunk_end(#[trigger] f[i]) <= n
    &&& forall|j: int|
        0 <= j < rs.len() ==> (#[trigger] rs[j]).size >= HEADER && rs[j].index + rs[j].size <= n
    &&& forall|j: int, i: int|
        0 <= j < rs.len() && !(#[trigger] rs[j]).freed && 0 <= i < f.len() ==> apart(
            rs[j].index as int,
            rs[j].size as int,
            (#[trigger] f[i]).start as int,
            f[i].len as int,
        )
    &&& forall|j1: int, j2: int|
        0 <= j1 < rs.len() && 0 <= j2 < rs.len() && j1 != j2 && !(#[trigger] rs[j1]).freed
            && !(#[trigger] rs[j2]).freed ==> apart(
            rs[j1].index as int,
            rs[j1].size as int,
            rs[j2].index as int,
            rs[j2].size as int,
        )
}

/// Byte `x` lies in the cell of a live record of `rs`.
pub open spec fn in_live_cell(rs: Seq<InterimPtr>, x: int) -> bool {
    exists|j: int| 0 <= j < rs.len() && !(#[trigger] rs[j]).freed && rs[j].index <= x < rs[j].index + rs[j].size
}

/// Every byte of the region below `n` is free or in a live cell: no byte is lost.
pub open spec fn accounted(f: Seq<Chunk>, rs: Seq<InterimPtr>, n: int) -> bool {
    forall|x: int|
        #![trigger covers(f, x)]
        #![trigger in_live_cell(rs, x)]
        0 <= x < n ==> covers(f, x) || in_live_cell(rs, x)
}

/// The free chunks `f` are sorted and coalesced and end by `n`; every live cell of
/// `rs` ends by `n` and lies apart from every free chunk and every other live cell;
/// and every byte below `n` is in a free chunk or a live cell. So the free chunks
/// cover exactly the bytes that no live cell uses.
pub open spec fn arena_wf(f: Seq<Chunk>, rs: Seq<InterimPtr>, n: int) -> bool {
    arena_core(f, rs, n) && accounted(f, rs, n)
}

/// Records that keep their place and their freed flags keep the same bytes in use.
proof fn lemma_same_cells(f: Seq<Chunk>, rs: Seq<InterimPtr>, rs2: Seq<InterimPtr>, n: int)
    requires
        accounted(f, rs, n),
        rs2.len() == rs.len(),
        forall|j: int|
            0 <= j < rs.len() ==> (#[trigger] rs2[j]).freed == rs[j].freed && rs2[j].index == rs[j].index
                && rs2[j].size == rs[j].size,
    ensures
        accounted(f, rs2, n),
{
    assert forall|x: int| 0 <= x < n implies covers(f, x) || in_live_cell(rs2, x) by {
        if !covers(f, x) {
            assert(in_live_cell(rs, x));
            let j = choose|j: int| 0 <= j < rs.len() && !(#[trigger] rs[j]).freed && rs[j].index <= x < rs[j].index
                + rs[j].size;
            assert(!rs2[j].freed);
        }
    }
}

/// Taking chunk `bi` out of the free list keeps the arena well formed, and the chunk
/// lies apart from what stays free and from every live cell.
proof fn lemma_take_chunk(l: Seq<Chunk>, rs: Seq<InterimPtr>, n: int, bi: int)
    requires
        arena_wf(l, rs, n),
        0 <= bi < l.len(),
    ensures
        arena_core(l.remove(bi), rs, n),
        forall|x: int|
            0 <= x < n ==> covers(l.remove(bi), x) || in_live_cell(rs, x) || (l[bi].start <= x < chunk_end(l[bi])),
        chunk_end(l[bi]) <= n,
        l[bi].len > 0,
        forall|i: int|
            0 <= i < l.remove(bi).len() ==> apart(
                l[bi].start as int,
                l[bi].len as int,
                (#[trigger] l.remove(bi)[i]).start as int,
                l.remove(bi)[i].len as int,
            ),
        forall|j: int|
            0 <= j < rs.len() && !(#[trigger] rs[j]).freed ==> apart(
                rs[j].index as int,
                rs[j].size as int,
                l[bi].start as int,
                l[bi].len as int,
            ),
{
    let f = l.remove(bi);
    assert forall|i: int| 0 <= i < f.len() implies #[trigger] f[i] == l[if i < bi { i } else { i + 1 }] by {}
    assert forall|i: int, j: int| 0 <= i < j < f.len() implies chunk_end(#[trigger] f[i]) < (
    #[trigger] f[j]).start by {
        let oi = if i < bi { i } else { i + 1 };
        let oj = if j < bi { j } else { j + 1 };
        assert(f[i] == l[oi] && f[j] == l[oj]);
    }
    assert forall|i: int| 0 <= i < f.len() implies apart(
        l[bi].start as int,
        l[bi].len as int,
        (#[trigger] f[i]).start as int,
        f[i].len as int,
    ) by {
        let oi = if i < bi { i } else { i + 1 };
        assert(f[i] == l[oi]);
        if oi < bi {
            assert(chunk_end(l[oi]) < l[bi].start);
        } else {
            assert(chunk_end(l[bi]) < l[oi].start);
        }
    }
    assert forall|x: int| 0 <= x < n implies covers(f, x) || in_live_cell(rs, x) || (l[bi].start <= x < chunk_end(
        l[bi],
    )) by {
        if covers(l, x) && !(l[bi].start <= x < chunk_end(l[bi])) {
            let i = choose|i: int| 0 <= i < l.len() && (#[trigger] l[i]).start <= x < chunk_end(l[i]);
            let fi = if i < bi { i } else { i - 1 };
            assert(f[fi] == l[i]);
        }
    }
}

/// Placing a cell at the front of a chunk taken from the free list, and returning
/// what is left of the chunk, keeps the arena well formed.
proof fn lemma_place_cell(
    f: Seq<Chunk>,
    rs: Seq<InterimPtr>,
    n: int,
    chunk: Chunk,
    rest: Chunk,
    rec: InterimPtr,
)
    requires
        arena_core(f, rs, n),
        forall|x: int| 0 <= x < n ==> covers(f, x) || in_live_cell(rs, x) || (chunk.start <= x < chunk_end(chunk)),
        chunk_end(chunk) <= n,
        forall|i: int|
            0 <= i < f.len() ==> apart(
                chunk.start as int,
                chunk.len as int,
                (#[trigger] f[i]).start as int,
                f[i].len as int,
            ),
        forall|j: int|
            0 <= j < rs.len() && !(#[trigger] rs[j]).freed ==> apart(
                rs[j].index as int,
                rs[j].size as int,
                chunk.start as int,
                chunk.len as int,
            ),
        !rec.freed,
        rec.index == chunk.start,
        rec.size >= HEADER,
        rec.size <= chunk.len,
        rest.start == chunk.start + rec.size,
        rest.len == chunk.len - rec.size,
    ensures
        rest.len > 0 ==> disjoint_from_all(f, rest) && chunk_end(rest) <= usize::MAX,
        arena_wf(
            if rest.len > 0 {
                added(f, rest)
            } else {
                f
            },
            rs.push(rec),
            n,
        ),
{
    let f2 = if rest.len > 0 {
        added(f, rest)
    } else {
        f
    };
    let rs2 = rs.push(rec);
    if rest.len > 0 {
        assert(disjoint_from_all(f, rest)) by {
            assert forall|i: int| 0 <= i < f.len() implies chunk_end(#[trigger] f[i]) <= rest.start
                || chunk_end(rest) <= f[i].start by {
                assert(apart(chunk.start as int, chunk.len as int, f[i].start as int, f[i].len as int));
            }
        }
        lemma_added_shape(f, rest);
        lemma_added_bounded(f, rest, n);
        lemma_added_apart(f, rest, rec.index as int, rec.size as int);
        assert forall|j: int| 0 <= j < rs.len() && !(#[trigger] rs[j]).freed implies forall|i: int|
            0 <= i < f2.len() ==> apart(
                rs[j].index as int,
                rs[j].size as int,
                (#[trigger] f2[i]).start as int,
                f2[i].len as int,
            ) by {
            lemma_added_apart(f, rest, rs[j].index as int, rs[j].size as int);
        }
    }
    assert forall|j: int| 0 <= j < rs.len() implies #[trigger] rs2[j] == rs[j] by {}
    assert(rs2[rs.len() as int] == rec);
    assert forall|j: int, i: int|
        0 <= j < rs2.len() && !(#[trigger] rs2[j]).freed && 0 <= i < f2.len() implies apart(
        rs2[j].index as int,
        rs2[j].size as int,
        (#[trigger] f2[i]).start as int,
        f2[i].len as int,
    ) by {
        if j < rs.len() {
            assert(rs2[j] == rs[j]);
        }
    }
    assert forall|j1: int, j2: int|
        0 <= j1 < rs2.len() && 0 <= j2 < rs2.len() && j1 != j2 && !(#[trigger] rs2[j1]).freed && !(
        #[trigger] rs2[j2]).freed implies apart(
        rs2[j1].index as int,
        rs2[j1].size as int,
        rs2[j2].index as int,
        rs2[j2].size as int,
    ) by {
        if j1 < rs.len() {
            assert(rs2[j1] == rs[j1]);
        }
        if j2 < rs.len() {
            assert(rs2[j2] == rs[j2]);
        }
    }
    assert forall|x: int| 0 <= x < n implies covers(f2, x) || in_live_cell(rs2, x) by {
        if rest.len > 0 {
            lemma_added_covers(f, rest, x);
        }
        if in_live_cell(rs, x) {
            let j = choose|j: int| 0 <= j < rs.len() && !(#[trigger] rs[j]).freed && rs[j].index <= x < rs[j].index
                + rs[j].size;
            assert(rs2[j] == rs[j]);
        } else if chunk.start <= x < rec.index + rec.size {
            assert(rs2[rs.len() as int] == rec);
        }
    }
}

/// Freeing live cell `h` and returning its bytes to the free list keeps the arena
/// well formed.
proof fn lemma_free_cell(f: Seq<Chunk>, rs: Seq<InterimPtr>, n: int, h: int)
    requires
        arena_wf(f, rs, n),
        0 <= h < rs.len(),
        !rs[h].freed,
    ensures
        ({
            let c = Chunk { start: rs[h].index, len: rs[h].size };
            &&& c.len > 0
            &&& chunk_end(c) <= usize::MAX
            &&& disjoint_from_all(f, c)
            &&& arena_wf(added(f, c), rs.update(h, InterimPtr { freed: true, ..rs[h] }), n)
        }),
{
    let c = Chunk { start: rs[h].index, len: rs[h].size };
    let rs2 = rs.update(h, InterimPtr { freed: true, ..rs[h] });
    assert(disjoint_from_all(f, c)) by {
        assert forall|i: int| 0 <= i < f.len() implies chunk_end(#[trigger] f[i]) <= c.start
            || chunk_end(c) <= f[i].start by {
            assert(apart(rs[h].index as int, rs[h].size as int, f[i].start as int, f[i].len as int));
        }
    }
    lemma_added_shape(f, c);
    lemma_added_bounded(f, c, n);
    let t = added(f, c);
    assert forall|j: int| 0 <= j < rs2.len() implies (#[trigger] rs2[j]).size >= HEADER && rs2[j].index
        + rs2[j].size <= n by {
        assert(rs[j].size >= HEADER);
    }
    assert forall|j: int, i: int|
        0 <= j < rs2.len() && !(#[trigger] rs2[j]).freed && 0 <= i < t.len() implies apart(
        rs2[j].index as int,
        rs2[j].size as int,
        (#[trigger] t[i]).start as int,
        t[i].len as int,
    ) by {
        assert(rs2[j] == rs[j]);
        assert(rs[j].size >= HEADER);
        assert forall|i2: int| 0 <= i2 < f.len() implies apart(
            rs[j].index as int,
            rs[j].size as int,
            (#[trigger] f[i2]).start as int,
            f[i2].len as int,
        ) by {}
        lemma_added_apart(f, c, rs[j].index as int, rs[j].size as int);
    }
    assert forall|j1: int, j2: int|
        0 <= j1 < rs2.len() && 0 <= j2 < rs2.len() && j1 != j2 && !(#[trigger] rs2[j1]).freed && !(
        #[trigger] rs2[j2]).freed implies apart(
        rs2[j1].index as int,
        rs2[j1].size as int,
        rs2[j2].index as int,
        rs2[j2].size as int,
    ) by {
        assert(rs2[j1] == rs[j1] && rs2[j2] == rs[j2]);
    }
    assert forall|x: int| 0 <= x < n implies covers(t, x) || in_live_cell(rs2, x) by {
        lemma_added_covers(f, c, x);
        if in_live_cell(rs, x) {
            let j = choose|j: int| 0 <= j < rs.len() && !(#[trigger] rs[j]).freed && rs[j].index <= x < rs[j].index
                + rs[j].size;
            if j != h {
                assert(rs2[j] == rs[j]);
            }
        }
    }
}

/// Writing bytes inside cell `i` leaves every other live cell as it was.
proof fn lemma_write_inside(
    r1: Seq<u8>,
    r2: Seq<u8>,
    rs: Seq<InterimPtr>,
    f: Seq<Chunk>,
    i: int,
    at: int,
    len: int,
)
    requires
        arena_wf(f, rs, r1.len() as int),
        0 <= i < rs.len(),
        !rs[i].freed,
        rs[i].index <= at,
        at + len <= rs[i].index + rs[i].size,
        r2.len() == r1.len(),
        forall|x: int| 0 <= x < r1.len() && (x < at || x >= at + len) ==> #[trigger] r2[x] == r1[x],
    ensures
        forall|j: int|
            0 <= j < rs.len() && j != i && !(#[trigger] rs[j]).freed ==> cell_bytes(r2, rs[j])
                == cell_bytes(r1, rs[j]),
{
    assert forall|j: int| 0 <= j < rs.len() && j != i && !(#[trigger] rs[j]).freed implies cell_bytes(
        r2,
        rs[j],
    ) == cell_bytes(r1, rs[j]) by {
        assert(apart(rs[i].index as int, rs[i].size as int, rs[j].index as int, rs[j].size as int));
        lemma_cell_kept(r1, r2, at, len, rs[j]);
    }
}

/// A cell whose bytes are kept keeps its semaphore word and its value bytes.
pub proof fn lemma_cell_parts(r1: Seq<u8>, r2: Seq<u8>, rec: InterimPtr)
    requires
        rec.size >= HEADER,
        rec.index + rec.size <= r1.len(),
        rec.index + rec.size <= r2.len(),
        cell_bytes(r2, rec) == cell_bytes(r1, rec),
    ensures
        value_bytes(r2, rec) == value_bytes(r1, rec),
        word_of(r2, rec) == word_of(r1, rec),
{
    assert(value_bytes(r2, rec) =~= cell_bytes(r2, rec).subrange(HEADER as int, rec.size as int));
    assert(value_bytes(r1, rec) =~= cell_bytes(r1, rec).subrange(HEADER as int, rec.size as int));
    assert(r2.subrange(rec.index as int, rec.index + HEADER) =~= cell_bytes(r2, rec).subrange(0, HEADER as int));
    assert(r1.subrange(rec.index as int, rec.index + HEADER) =~= cell_bytes(r1, rec).subrange(0, HEADER as int));
}

/// A cell whose value bytes are kept reads back the same value, whatever its type:
/// with `allocate`, which keeps the value bytes of every cell that was live before,
/// a handle issued earlier reads its value unchanged after the arena grew.
pub proof fn lemma_value_kept<T: FrostyAllocatable>(a1: Allocator, a2: Allocator, j: int)
    requires
        0 <= j < a1.records().len(),
        0 <= j < a2.records().len(),
        a2.records()[j] == a1.records()[j],
        value_bytes(a2.region(), a2.records()[j]) == value_bytes(a1.region(), a1.records()[j]),
    ensures
        a2.value_of::<T>(j) == a1.value_of::<T>(j),
{
}

/// In a well-formed arena, which every operation keeps, a byte of the region is in a
/// free chunk exactly when no live cell holds it.
pub proof fn lemma_free_bytes_exact(a: &Allocator, x: int)
    requires
        a.wf(),
        0 <= x < a.region().len(),
    ensures
        covers(a.free_chunks(), x) <==> !in_live_cell(a.records(), x),
{
    let f = a.free_chunks();
    let rs = a.records();
    if covers(f, x) && in_live_cell(rs, x) {
        let i = choose|i: int| 0 <= i < f.len() && (#[trigger] f[i]).start <= x < chunk_end(f[i]);
        let j = choose|j: int| 0 <= j < rs.len() && !(#[trigger] rs[j]).freed && rs[j].index <= x < rs[j].index + rs[j].size;
        assert(apart(rs[j].index as int, rs[j].size as int, f[i].start as int, f[i].len as int));
    }
}

/// In a well-formed arena, which every operation keeps, the free chunks are in
/// ascending order of start and no two neighbours touch: each ends before the next
/// one starts.
pub proof fn lemma_free_list_separated(a: &Allocator)
    requires
        a.wf(),
    ensures
        forall|i: int|
            0 <= i < a.free_chunks().len() - 1 ==> (#[trigger] a.free_chunks()[i]).start
                + a.free_chunks()[i].len < a.free_chunks()[i + 1].start,
{
    assert forall|i: int| 0 <= i < a.free_chunks().len() - 1 implies (#[trigger] a.free_chunks()[i]).start
        + a.free_chunks()[i].len < a.free_chunks()[i + 1].start by {
        assert(chunk_end(a.free_chunks()[i]) < a.free_chunks()[i + 1].start);
    }
}

/// Storing `n` value bytes in arena `a` fails: the cell would pass the address
/// space, or no free chunk holds it and the region cannot grow far enough.
pub open spec fn alloc_fails(a: Allocator, n: nat) -> bool {
    HEADER + n > usize::MAX || (!has_fit(a.free_chunks(), HEADER + n) && (a.region().len() + HEADER + n
        > usize::MAX || grow_len(
        if a.region().len() == 0 {
            1
        } else {
            a.region().len() as int
        },
        a.region().len() + HEADER + n,
    ) > usize::MAX))
}

/// The free list after a cell of `size` bytes is taken from the front of the
/// best-fit chunk of `l`, with what is left of that chunk returned.
pub open spec fn carved(l: Seq<Chunk>, size: int) -> Seq<Chunk> {
    let bi = best_fit_index(l, size);
    let c = l[bi];
    let rest = Chunk { start: (c.start + size) as usize, len: (c.len - size) as usize };
    if rest.len > 0 {
        added(l.remove(bi), rest)
    } else {
        l.remove(bi)
    }
}

/// The region length that arena `a` grows to, by doubling, to hold a cell of `n`
/// value bytes after its old end.
pub open spec fn grown_len(a: Allocator, n: nat) -> int {
    grow_len(
        if a.region().len() == 0 {
            1
        } else {
            a.region().len() as int
        },
        a.region().len() + HEADER + n,
    )
}

/// The free list of arena `a` once it grew for a cell of `n` value bytes: the new
/// tail of the region returned to it.
pub open spec fn grown_free(a: Allocator, n: nat) -> Seq<Chunk> {
    added(
        a.free_chunks(),
        Chunk { start: a.region().len() as usize, len: (grown_len(a, n) - a.region().len()) as usize },
    )
}

/// The arena: one byte region, its free chunks, and one record per allocation.
/// Records are never moved or removed, so a record's position is a stable name for
/// its cell however the region grows.
pub struct Allocator {
    chunks: OrderedChunkList,
    region: Vec<u8>,
    interim: Vec<InterimPtr>,
}

impl Allocator {
    pub closed spec fn region(&self) -> Seq<u8> {
        self.region@
    }

    pub closed spec fn records(&self) -> Seq<InterimPtr> {
        self.interim@
    }

    pub closed spec fn free_chunks(&self) -> Seq<Chunk> {
        self.chunks@
    }

    /// Record `i` exists and its cell has not been freed.
    pub open spec fn live(&self, i: int) -> bool {
        0 <= i < self.records().len() && !self.records()[i].freed
    }

    /// The value in cell `i`, read as a `T`.
    pub open spec fn value_of<T: FrostyAllocatable>(&self, i: int) -> T {
        T::decode(value_bytes(self.region(), self.records()[i]))
    }

    /// The semaphore word of cell `i`.
    pub open spec fn semaphore_of(&self, i: int) -> u32 {
        word_of(self.region(), self.records()[i])
    }

    /// Record `i` holds a `T`.
    pub open spec fn holds<T: FrostyAllocatable>(&self, i: int) -> bool {
        &&& 0 <= i < self.records().len()
        &&& self.records()[i].tag.uid == T::type_tag()
        &&& self.records()[i].size == HEADER + T::byte_len()
    }

    /// The free chunks are sorted and coalesced and lie in the region; every live cell
    /// lies in the region, apart from every free chunk and from every other live cell.
    pub open spec fn wf(&self) -> bool {
        arena_wf(self.free_chunks(), self.records(), self.region().len() as int)
    }

    /// An empty arena whose region is one byte long.
    pub fn new() -> (r: Self)
        ensures
            r.wf(),
            r.region() == seq![0u8],
            r.records().len() == 0,
            r.free_chunks() == seq![Chunk { start: 0, len: 1 }],
    {
        let r = Self::with_capacity(1);
        proof {
            assert(r.region() =~= seq![0u8]);
        }
        r
    }

    /// An empty arena whose region is `capacity` zero bytes, all of them free.
    pub fn with_capacity(capacity: usize) -> (r: Self)
        ensures
            r.wf(),
            r.region().len() == capacity,
            forall|i: int| 0 <= i < capacity ==> #[trigger] r.region()[i] == 0,
            r.records().len() == 0,
            r.free_chunks() == (if capacity == 0 {
                Seq::<Chunk>::empty()
            } else {
                seq![Chunk { start: 0, len: capacity }]
            }),
    {
        let mut region: Vec<u8> = Vec::new();
        let mut i: usize = 0;
        while i < capacity
            invariant
                i <= capacity,
                region@.len() == i,
                forall|j: int| 0 <= j < i ==> #[trigger] region@[j] == 0,
            decreases capacity - i,
        {
            region.push(0);
            i = i + 1;
        }
        let mut chunks = OrderedChunkList::new();
        if capacity > 0 {
            chunks.add(Chunk { start: 0, len: capacity });
            proof {
                let c = Chunk { start: 0, len: capacity };
                let e = Seq::<Chunk>::empty();
                assert(is_insert_pos(e, 0, 0));
                assert(is_insert_pos(e, 0, insert_pos(e, 0)));
                assert(added_at(e, c, 0) =~= seq![c]);
            }
        }
        Allocator { chunks, region, interim: Vec::new() }
    }

    /// Marks the cell of `obj` freed and returns its bytes to the free list. A cell
    /// already freed, or a handle to no record, changes nothing.
    pub fn free<T>(&mut self, obj: &ObjectHandleMut<T>)
        requires
            old(self).wf(),
        ensures
            final(self).wf(),
            final(self).region() == old(self).region(),
            old(self).live(obj.record()) ==> {
                let rec = old(self).records()[obj.record()];
                &&& final(self).records() == old(self).records().update(
                    obj.record(),
                    InterimPtr { freed: true, ..rec },
                )
                &&& final(self).free_chunks() == added(
                    old(self).free_chunks(),
                    Chunk { start: rec.index, len: rec.size },
                )
            },
            !old(self).live(obj.record()) ==> final(self).records() == old(self).records()
                && final(self).free_chunks() == old(self).free_chunks(),
    {
        let i = obj.index();
        if i >= self.interim.len() || self.interim[i].freed {
            return ;
        }
        let rec = self.interim[i];
        proof {
            lemma_free_cell(self.chunks@, self.interim@, self.region@.len() as int, i as int);
        }
        let freed_chunk = Chunk { start: rec.index, len: rec.size };
        self.chunks.add(freed_chunk);
        let mut r = rec;
        r.free();
        self.interim.set(i, r);
    }

    /// A new handle to record `index`, counted on the record; `None` when there is no
    /// such record or its count is full.
    pub fn get_mut<T>(&mut self, index: usize) -> (r: Option<ObjectHandleMut<T>>)
        requires
            old(self).wf(),
        ensures
            final(self).wf(),
            final(self).region() == old(self).region(),
            final(self).free_chunks() == old(self).free_chunks(),
            r.is_some() <==> index < old(self).records().len() && old(self).records()[index as int].active_handles
                < u32::MAX,
            r.is_some() ==> r.unwrap().record() == index && final(self).records() == old(self).records().update(
                index as int,
                InterimPtr {
                    active_handles: (old(self).records()[index as int].active_handles + 1) as u32,
                    ..old(self).records()[index as int]
                },
            ),
            r.is_none() ==> final(self).records() == old(self).records(),
    {
        if index >= self.interim.len() || self.interim[index].active_handles == u32::MAX {
            return None;
        }
        let mut rec = self.interim[index];
        rec.active_handles = rec.active_handles + 1;
        self.interim.set(index, rec);
        proof {
            let rs = old(self).interim@;
            let rs2 = self.interim@;
            assert forall|j: int| 0 <= j < rs2.len() implies (#[trigger] rs2[j]).freed == rs[j].freed
                && rs2[j].index == rs[j].index && rs2[j].size == rs[j].size by {}
            lemma_same_cells(self.chunks@, rs, rs2, self.region@.len() as int);
        }
        Some(ObjectHandleMut::at(index))
    }

    /// Gives back a handle: the count of its record drops by one.
    pub fn release_handle<T>(&mut self, obj: ObjectHandleMut<T>)
        requires
            old(self).wf(),
        ensures
            final(self).wf(),
            final(self).region() == old(self).region(),
            final(self).free_chunks() == old(self).free_chunks(),
            ({
                let i = obj.record();
                if 0 <= i < old(self).records().len() && old(self).records()[i].active_handles > 0 {
                    final(self).records() == old(self).records().update(
                        i,
                        InterimPtr {
                            active_handles: (old(self).records()[i].active_handles - 1) as u32,
                            ..old(self).records()[i]
                        },
                    )
                } else {
                    final(self).records() == old(self).records()
                }
            }),
    {
        let index = obj.index();
        if index >= self.interim.len() || self.interim[index].active_handles == 0 {
            return ;
        }
        let mut rec = self.interim[index];
        rec.active_handles = rec.active_handles - 1;
        self.interim.set(index, rec);
        proof {
            let rs = old(self).interim@;
            let rs2 = self.interim@;
            assert forall|j: int| 0 <= j < rs2.len() implies (#[trigger] rs2[j]).freed == rs[j].freed
                && rs2[j].index == rs[j].index && rs2[j].size == rs[j].size by {}
            lemma_same_cells(self.chunks@, rs, rs2, self.region@.len() as int);
        }
    }

    /// The record behind `index`.
    pub fn record(&self, index: usize) -> (r: Option<InterimPtr>)
        ensures
            r == (if index < self.records().len() {
                Some(self.records()[index as int])
            } else {
                None
            }),
    {
        if index < self.interim.len() {
            Some(self.interim[index])
        } else {
            None
        }
    }

    /// The free chunks, for reading.
    pub fn chunks(&self) -> (r: &OrderedChunkList)
        ensures
            r@ == self.free_chunks(),
    {
        &self.chunks
    }

    /// Length of the region.
    pub fn region_len(&self) -> (r: usize)
        ensures
            r == self.region().len(),
    {
        self.region.len()
    }

    /// Number of records ever made.
    pub fn record_count(&self) -> (r: usize)
        ensures
            r == self.records().len(),
    {
        self.interim.len()
    }

    /// Whether record `index` still holds a live cell.
    pub fn is_live(&self, index: usize) -> (r: bool)
        ensures
            r == self.live(index as int),
    {
        index < self.interim.len() && !self.interim[index].freed
    }

    /// Whether record `index` holds a `T`.
    pub fn holds_type<T: FrostyAllocatable>(&self, index: usize) -> (r: bool)
        ensures
            r == self.holds::<T>(index as int),
    {
        if index >= self.interim.len() {
            return false;
        }
        let rec = self.interim[index];
        let vsize = T::size();
        rec.tag.uid == T::id().uid && vsize <= usize::MAX - HEADER && rec.size == HEADER + vsize
    }

    /// The semaphore word of cell `index`.
    fn read_word(&self, index: usize) -> (r: u32)
        requires
            self.wf(),
            index < self.records().len(),
        ensures
            r == self.semaphore_of(index as int),
    {
        let at = self.interim[index].index;
        proof {
            assert(self.records()[index as int].size >= HEADER);
        }
        let b = slice_range(self.region.as_slice(), at, at + HEADER);
        u32_from_le(b.as_slice())
    }

    /// Overwrites the semaphore word of live cell `index`.
    fn write_word(&mut self, index: usize, w: u32)
        requires
            old(self).wf(),
            old(self).live(index as int),
        ensures
            final(self).wf(),
            final(self).records() == old(self).records(),
            final(self).free_chunks() == old(self).free_chunks(),
            final(self).region().len() == old(self).region().len(),
            final(self).semaphore_of(index as int) == w,
            value_bytes(final(self).region(), final(self).records()[index as int]) == value_bytes(
                old(self).region(),
                old(self).records()[index as int],
            ),
            forall|j: int|
                0 <= j < old(self).records().len() && j != index && !(
                #[trigger] old(self).records()[j]).freed ==> cell_bytes(
                    final(self).region(),
                    old(self).records()[j],
                ) == cell_bytes(old(self).region(), old(self).records()[j]),
    {
        let at = self.interim[index].index;
        let bytes = u32_to_le(w);
        proof {
            lemma_u32_le(w);
            assert(self.records()[index as int].size >= HEADER);
        }
        write_bytes(&mut self.region, at, &bytes);
        proof {
            let r1 = old(self).region@;
            let r2 = self.region@;
            let rec = self.interim@[index as int];
            lemma_write_inside(r1, r2, self.interim@, self.chunks@, index as int, at as int, 4);
            assert(r2.subrange(at as int, at + HEADER) =~= u32_le(w));
            assert(value_bytes(r2, rec) =~= value_bytes(r1, rec)) by {
                assert forall|x: int| 0 <= x < rec.size - HEADER implies value_bytes(r2, rec)[x]
                    == value_bytes(r1, rec)[x] by {
                    assert(r2[rec.index + HEADER + x] == r1[rec.index + HEADER + x]);
                }
            }
        }
    }

    /// One read attempt of `thread` on the cell of `h`: it yields a read slot when the
    /// cell is live and holds a `T`, the thread holds no read slot on it yet, and no
    /// writer is active. The word then carries the thread's read bit; otherwise it is
    /// as before.
    pub fn get_access<T: FrostyAllocatable>(&mut self, h: &ObjectHandleMut<T>, thread: u32) -> (r:
        Option<DataAccess<T>>)
        requires
            old(self).wf(),
            thread < THREAD_SLOTS,
        ensures
            final(self).wf(),
            final(self).records() == old(self).records(),
            final(self).free_chunks() == old(self).free_chunks(),
            forall|j: int|
                #![trigger old(self).records()[j]]
                old(self).live(j) ==> value_bytes(final(self).region(), old(self).records()[j])
                    == value_bytes(old(self).region(), old(self).records()[j]),
            forall|j: int|
                #![trigger old(self).records()[j]]
                old(self).live(j) && j != h.record() ==> final(self).semaphore_of(j) == old(self).semaphore_of(j),
            r.is_some() <==> old(self).live(h.record()) && old(self).holds::<T>(h.record()) && !bit(
                old(self).semaphore_of(h.record()),
                thread,
            ) && read_granted(old(self).semaphore_of(h.record())),
            r.is_some() ==> r.unwrap().record() == h.record() && r.unwrap().thread() == thread
                && final(self).semaphore_of(h.record()) == old(self).semaphore_of(h.record())
                | reader_bit(thread),
            r.is_none() && old(self).live(h.record()) ==> final(self).semaphore_of(h.record())
                == old(self).semaphore_of(h.record()),
    {
        let i = h.index();
        if !self.is_live(i) || !self.holds_type::<T>(i) {
            return None;
        }
        let w = self.read_word(i);
        if w & BitMask::generate_read_flag(thread) != 0 {
            proof {
                assert((w & (1u32 << thread)) != 0 && thread < 15u32 ==> (w >> thread) & 1u32 == 1u32) by (bit_vector);
            }
            return None;
        }
        proof {
            assert((w & (1u32 << thread)) == 0 && thread < 15u32 ==> (w >> thread) & 1u32 != 1u32) by (bit_vector);
        }
        let mut mask = BitMask::new(w);
        let granted = mask.try_read(thread);
        self.write_word(i, mask.word);
        proof {
            self.lemma_words_kept(old(self), i as int);
        }
        if granted {
            Some(DataAccess::at(i, thread))
        } else {
            None
        }
    }

    /// One write attempt of `thread` on the cell of `h`: it yields the write slot when
    /// the cell is live and holds a `T` and the word grants it. A live cell's word then
    /// carries the thread's pending bit, and the writer-active flag on success.
    pub fn get_access_mut<T: FrostyAllocatable>(&mut self, h: &ObjectHandleMut<T>, thread: u32) -> (r:
        Option<DataAccessMut<T>>)
        requires
            old(self).wf(),
            thread < THREAD_SLOTS,
        ensures
            final(self).wf(),
            final(self).records() == old(self).records(),
            final(self).free_chunks() == old(self).free_chunks(),
            forall|j: int|
                #![trigger old(self).records()[j]]
                old(self).live(j) ==> value_bytes(final(self).region(), old(self).records()[j])
                    == value_bytes(old(self).region(), old(self).records()[j]),
            forall|j: int|
                #![trigger old(self).records()[j]]
                old(self).live(j) && j != h.record() ==> final(self).semaphore_of(j) == old(self).semaphore_of(j),
            r.is_some() <==> old(self).live(h.record()) && old(self).holds::<T>(h.record())
                && write_granted(old(self).semaphore_of(h.record()), thread),
            r.is_some() ==> r.unwrap().record() == h.record() && r.unwrap().thread() == thread
                && final(self).semaphore_of(h.record()) == old(self).semaphore_of(h.record())
                | pending_bit(thread) | BitMask::WRITE_FLAG,
            r.is_none() && old(self).live(h.record()) && old(self).holds::<T>(h.record()) ==> final(self).semaphore_of(h.record()) == old(self).semaphore_of(h.record()) | pending_bit(thread),
            r.is_none() && !(old(self).live(h.record()) && old(self).holds::<T>(h.record())) ==> final(self).region() == old(self).region(),
    {
        let i = h.index();
        if !self.is_live(i) || !self.holds_type::<T>(i) {
            return None;
        }
        let w = self.read_word(i);
        let mut mask = BitMask::new(w);
        let granted = mask.try_write(thread);
        self.write_word(i, mask.word);
        proof {
            self.lemma_words_kept(old(self), i as int);
        }
        if granted {
            Some(DataAccessMut::at(i, thread))
        } else {
            None
        }
    }

    /// The value in cell `index`, read as a `T`.
    pub fn read_value<T: FrostyAllocatable>(&self, index: usize) -> (r: T)
        requires
            self.wf(),
            self.holds::<T>(index as int),
        ensures
            r == self.value_of::<T>(index as int),
    {
        let rec = self.interim[index];
        let b = slice_range(self.region.as_slice(), rec.index + HEADER, rec.index + rec.size);
        T::from_bytes(b.as_slice())
    }

    /// Stores `v` in live cell `index`, keeping its word and every other cell.
    pub fn write_value<T: FrostyAllocatable>(&mut self, index: usize, v: T)
        requires
            old(self).wf(),
            old(self).live(index as int),
            old(self).holds::<T>(index as int),
        ensures
            final(self).wf(),
            final(self).records() == old(self).records(),
            final(self).free_chunks() == old(self).free_chunks(),
            final(self).value_of::<T>(index as int) == v,
            final(self).semaphore_of(index as int) == old(self).semaphore_of(index as int),
            forall|j: int|
                #![trigger old(self).records()[j]]
                old(self).live(j) && j != index ==> cell_bytes(final(self).region(), old(self).records()[j])
                    == cell_bytes(old(self).region(), old(self).records()[j]),
    {
        let rec = self.interim[index];
        let bytes = v.to_bytes();
        proof {
            T::lemma_codec(v);
        }
        write_bytes(&mut self.region, rec.index + HEADER, &bytes);
        proof {
            let r1 = old(self).region@;
            let r2 = self.region@;
            lemma_write_inside(r1, r2, self.interim@, self.chunks@, index as int, rec.index + HEADER, bytes@.len() as int);
            assert(value_bytes(r2, rec) =~= T::encode(v));
            assert(r2.subrange(rec.index as int, rec.index + HEADER) =~= r1.subrange(rec.index as int, rec.index + HEADER)) by {
                assert forall|x: int| 0 <= x < HEADER implies #[trigger] r2.subrange(rec.index as int, rec.index + HEADER)[x]
                    == r1.subrange(rec.index as int, rec.index + HEADER)[x] by {
                    assert(r2[rec.index + x] == r1[rec.index + x]);
                }
            }
        }
    }

    /// Applies `w ^ mask` to the word of cell `index` when that cell is live.
    fn flip_word(&mut self, index: usize, mask: u32)
        requires
            old(self).wf(),
        ensures
            final(self).wf(),
            final(self).records() == old(self).records(),
            final(self).free_chunks() == old(self).free_chunks(),
            forall|j: int|
                #![trigger old(self).records()[j]]
                old(self).live(j) ==> value_bytes(final(self).region(), old(self).records()[j])
                    == value_bytes(old(self).region(), old(self).records()[j]),
            forall|j: int|
                #![trigger old(self).records()[j]]
                old(self).live(j) && j != index ==> final(self).semaphore_of(j) == old(self).semaphore_of(j),
            old(self).live(index as int) ==> final(self).semaphore_of(index as int) == old(self).semaphore_of(
                index as int,
            ) ^ mask,
            !old(self).live(index as int) ==> final(self).region() == old(self).region(),
    {
        if !self.is_live(index) {
            return ;
        }
        let w = self.read_word(index);
        self.write_word(index, w ^ mask);
        proof {
            self.lemma_words_kept(old(self), index as int);
        }
    }

    /// After `write_word` on cell `i`, the other live cells keep their words and
    /// every live cell keeps its value bytes.
    proof fn lemma_words_kept(&self, old_a: &Allocator, i: int)
        requires
            old_a.wf(),
            old_a.live(i),
            self.records() == old_a.records(),
            self.region().len() == old_a.region().len(),
            value_bytes(self.region(), self.records()[i]) == value_bytes(old_a.region(), old_a.records()[i]),
            forall|j: int|
                0 <= j < old_a.records().len() && j != i && !(#[trigger] old_a.records()[j]).freed
                    ==> cell_bytes(self.region(), old_a.records()[j]) == cell_bytes(
                    old_a.region(),
                    old_a.records()[j],
                ),
        ensures
            forall|j: int|
                #![trigger old_a.records()[j]]
                old_a.live(j) ==> value_bytes(self.region(), old_a.records()[j]) == value_bytes(
                    old_a.region(),
                    old_a.records()[j],
                ),
            forall|j: int|
                #![trigger old_a.records()[j]]
                old_a.live(j) && j != i ==> self.semaphore_of(j) == old_a.semaphore_of(j),
    {
        assert forall|j: int|
            #![trigger old_a.records()[j]]
            old_a.live(j) && j != i implies value_bytes(self.region(), old_a.records()[j])
            == value_bytes(old_a.region(), old_a.records()[j]) && self.semaphore_of(j)
            == old_a.semaphore_of(j) by {
            let r = old_a.records()[j];
            assert(r.size >= HEADER);
            assert(value_bytes(self.region(), r) =~= cell_bytes(self.region(), r).subrange(
                HEADER as int,
                r.size as int,
            ));
            assert(value_bytes(old_a.region(), r) =~= cell_bytes(old_a.region(), r).subrange(
                HEADER as int,
                r.size as int,
            ));
            assert(self.region().subrange(r.index as int, r.index + HEADER) =~= cell_bytes(
                self.region(),
                r,
            ).subrange(0, HEADER as int));
            assert(old_a.region().subrange(r.index as int, r.index + HEADER) =~= cell_bytes(
                old_a.region(),
                r,
            ).subrange(0, HEADER as int));
        }
    }

    /// Lengthens the region, by doubling, until a new tail of at least `size` bytes
    /// fits after the old end, and returns that tail to the free chunks.
    fn grow(&mut self, size: usize) -> (r: Result<(), CapacityExhausted>)
        requires
            old(self).wf(),
            size > 0,
        ensures
            r.is_err() <==> old(self).region().len() + size > usize::MAX || grow_len(
                if old(self).region().len() == 0 {
                    1
                } else {
                    old(self).region().len() as int
                },
                old(self).region().len() + size,
            ) > usize::MAX,
            r.is_err() ==> final(self).region() == old(self).region() && final(self).free_chunks()
                == old(self).free_chunks(),
            final(self).records() == old(self).records(),
            r.is_ok() ==> {
                let new_len = grow_len(
                    if old(self).region().len() == 0 {
                        1
                    } else {
                        old(self).region().len() as int
                    },
                    old(self).region().len() + size,
                );
                &&& final(self).wf()
                &&& has_fit(final(self).free_chunks(), size as int)
                &&& final(self).region().len() == new_len
                &&& new_len >= old(self).region().len() + size
                &&& final(self).free_chunks() == added(
                    old(self).free_chunks(),
                    Chunk { start: old(self).region().len() as usize, len: (new_len - old(self).region().len()) as usize },
                )
                &&& forall|i: int|
                    0 <= i < old(self).region().len() ==> #[trigger] final(self).region()[i] == old(self).region()[i]
                &&& forall|i: int|
                    old(self).region().len() <= i < new_len ==> #[trigger] final(self).region()[i] == 0
            },
    {
        let old_len = self.region.len();
        let start: usize = if old_len == 0 {
            1
        } else {
            old_len
        };
        if old_len > usize::MAX - size {
            return Err(CapacityExhausted);
        }
        let need = old_len + size;
        let mut new_len: usize = start;
        while new_len < need
            invariant
                new_len >= 1,
                need == old_len + size,
                old_len == old(self).region@.len(),
                start == (if old_len == 0 {
                    1
                } else {
                    old_len
                }),
                grow_len(new_len as int, need as int) == grow_len(start as int, need as int),
                self.region@ == old(self).region@,
                self.chunks@ == old(self).chunks@,
                self.interim@ == old(self).interim@,
            decreases (if need > new_len {
                need - new_len
            } else {
                0
            }),
        {
            if new_len > usize::MAX / 2 {
                proof {
                    assert(grow_len(new_len as int, need as int) == grow_len((new_len * 2) as int, need as int));
                    lemma_grow_len_ge((new_len * 2) as int, need as int);
                    assert(new_len * 2 > usize::MAX);
                    assert(grow_len(start as int, need as int) > usize::MAX);
                    assert(start as int == (if old(self).region().len() == 0 {
                        1
                    } else {
                        old(self).region().len() as int
                    }));
                }
                return Err(CapacityExhausted);
            }
            new_len = new_len * 2;
        }
        let ghost old_region = self.region@;
        proof {
            assert(grow_len(new_len as int, need as int) == new_len);
            lemma_grow_len_ge(start as int, need as int);
        }
        while self.region.len() < new_len
            invariant
                old_len <= self.region@.len() <= new_len,
                old_region.len() == old_len,
                forall|i: int| 0 <= i < old_len ==> #[trigger] self.region@[i] == old_region[i],
                forall|i: int| old_len <= i < self.region@.len() ==> #[trigger] self.region@[i] == 0,
                new_len == grow_len(start as int, need as int),
                need == old_len + size,
                old_len == old(self).region@.len(),
                start == (if old_len == 0 {
                    1
                } else {
                    old_len
                }),
                old_region == old(self).region@,
                self.chunks@ == old(self).chunks@,
                self.interim@ == old(self).interim@,
            decreases new_len - self.region@.len(),
        {
            self.region.push(0);
        }
        let tail = Chunk { start: old_len, len: new_len - old_len };
        let ghost s = self.chunks@;
        let ghost rs = self.interim@;
        proof {
            assert(disjoint_from_all(s, tail)) by {
                assert forall|i: int| 0 <= i < s.len() implies chunk_end(#[trigger] s[i]) <= tail.start
                    || chunk_end(tail) <= s[i].start by {
                    assert(chunk_end(s[i]) <= old_len);
                }
            }
        }
        self.chunks.add(tail);
        proof {
            lemma_added_shape(s, tail);
            let k = insert_pos(s, tail.start as int);
            let lo = splice_lo(s, tail, k);
            let t = added(s, tail);
            assert(t[lo].len >= tail.len);
            assert(has_fit(t, size as int));
            lemma_added_bounded(s, tail, new_len as int);
            assert forall|j: int, i: int|
                0 <= j < rs.len() && !(#[trigger] rs[j]).freed && 0 <= i < t.len() implies apart(
                rs[j].index as int,
                rs[j].size as int,
                (#[trigger] t[i]).start as int,
                t[i].len as int,
            ) by {
                assert(rs == old(self).records());
                assert(s == old(self).free_chunks());
                assert(rs[j].size >= HEADER);
                assert forall|i2: int| 0 <= i2 < s.len() implies apart(
                    rs[j].index as int,
                    rs[j].size as int,
                    (#[trigger] s[i2]).start as int,
                    s[i2].len as int,
                ) by {}
                lemma_added_apart(s, tail, rs[j].index as int, rs[j].size as int);
            }
        }
        Ok(())
    }

    /// Stores the value bytes `data` under type tag `tag` in a new cell: the best-fit
    /// free chunk when one holds the cell, else a chunk of the grown region. The
    /// cell's semaphore word starts at zero and one handle is counted on the new
    /// record, whose position is returned.
    #[verifier::spinoff_prover]
    #[verifier::rlimit(60)]
    pub fn alloc_raw(&mut self, tag: AllocId, data: &Vec<u8>) -> (r: Result<usize, CapacityExhausted>)
        requires
            old(self).wf(),
        ensures
            final(self).wf(),
            final(self).region().len() >= old(self).region().len(),
            forall|j: int|
                0 <= j < old(self).records().len() ==> #[trigger] final(self).records()[j] == old(self).records()[j],
            forall|j: int|
                #![trigger old(self).records()[j]]
                old(self).live(j) ==> cell_bytes(final(self).region(), old(self).records()[j])
                    == cell_bytes(old(self).region(), old(self).records()[j]),
            forall|j: int|
                #![trigger old(self).records()[j]]
                old(self).live(j) ==> value_bytes(final(self).region(), old(self).records()[j])
                    == value_bytes(old(self).region(), old(self).records()[j]) && final(self).semaphore_of(j)
                    == old(self).semaphore_of(j),
            r.is_err() <==> alloc_fails(*old(self), data@.len()),
            r.is_err() ==> final(self).records() == old(self).records() && final(self).region() == old(self).region()
                && final(self).free_chunks() == old(self).free_chunks(),
            r.is_ok() ==> {
                let h = r.unwrap() as int;
                let rec = final(self).records()[h];
                &&& h == old(self).records().len()
                &&& final(self).records().len() == old(self).records().len() + 1
                &&& final(self).live(h)
                &&& rec.tag == tag
                &&& rec.size == HEADER + data@.len()
                &&& rec.active_handles == 1
                &&& value_bytes(final(self).region(), rec) == data@
                &&& final(self).semaphore_of(h) == 0
                &&& has_fit(old(self).free_chunks(), HEADER + data@.len()) ==> rec.index == old(self).free_chunks()[best_fit_index(
                    old(self).free_chunks(),
                    HEADER + data@.len(),
                )].start && final(self).region().len() == old(self).region().len()
                    && final(self).free_chunks() == carved(old(self).free_chunks(), HEADER + data@.len())
                &&& !has_fit(old(self).free_chunks(), HEADER + data@.len()) ==> {
                    let g = grown_free(*old(self), data@.len());
                    &&& final(self).region().len() == grown_len(*old(self), data@.len())
                    &&& rec.index == g[best_fit_index(g, HEADER + data@.len())].start
                    &&& final(self).free_chunks() == carved(g, HEADER + data@.len())
                }
            },
    {
        let vsize = data.len();
        if vsize > usize::MAX - HEADER {
            return Err(CapacityExhausted);
        }
        let size = HEADER + vsize;
        let ghost region0 = self.region@;
        let ghost l0 = self.chunks@;
        let ghost mut taken_from = l0;
        let first = self.chunks.get_best_fit(size);
        proof {
            if first.is_some() {
                lemma_take_chunk(l0, self.interim@, self.region@.len() as int, best_fit_index(l0, size as int));
            }
        }
        let chunk = match first {
            Some(c) => c,
            None => {
                match self.grow(size) {
                    Err(e) => {
                        return Err(e);
                    },
                    Ok(()) => {},
                }
                let ghost l1 = self.chunks@;
                proof {
                    taken_from = l1;
                }
                let second = self.chunks.get_best_fit(size);
                proof {
                    if second.is_some() {
                        lemma_take_chunk(l1, self.interim@, self.region@.len() as int, best_fit_index(l1, size as int));
                    }
                }
                match second {
                    Some(c) => c,
                    None => {
                        return Err(CapacityExhausted);
                    },
                }
            },
        };
        let ghost f = self.chunks@;
        let ghost rs = self.interim@;
        let ghost region1 = self.region@;
        let ghost n = self.region@.len() as int;
        let at = chunk.start;
        let mut rest = chunk;
        rest.reduce(size);
        let rec = InterimPtr { freed: false, active_handles: 1, index: at, size, tag };
        proof {
            lemma_place_cell(f, rs, n, chunk, rest, rec);
        }
        let mut bytes = u32_to_le(0);
        let mut vb = slice_range(data.as_slice(), 0, data.len());
        proof {
            lemma_u32_le(0);
            assert(data@.subrange(0, data@.len() as int) =~= data@);
        }
        bytes.append(&mut vb);
        write_bytes(&mut self.region, at, &bytes);
        let ghost region2 = self.region@;
        if rest.len > 0 {
            self.chunks.add(rest);
        }
        self.interim.push(rec);
        proof {
            let size_i = size as int;
            let bi = best_fit_index(taken_from, size_i);
            assert(chunk == taken_from[bi]);
            assert(f == taken_from.remove(bi));
            assert(self.chunks@ == carved(taken_from, size_i));
            assert forall|j: int|
                0 <= j < rs.len() && !(#[trigger] rs[j]).freed implies cell_bytes(region2, rs[j])
                == cell_bytes(region1, rs[j]) by {
                lemma_cell_kept(region1, region2, at as int, bytes@.len() as int, rs[j]);
            }
            assert(cell_bytes(region2, rec) == bytes@);
            assert(value_bytes(region2, rec) =~= data@) by {
                assert(value_bytes(region2, rec) =~= cell_bytes(region2, rec).subrange(4, size as int));
                assert(bytes@.subrange(4, size as int) =~= data@);
            }
            assert(region2.subrange(at as int, at + HEADER) =~= u32_le(0)) by {
                assert(region2.subrange(at as int, at + HEADER) =~= cell_bytes(region2, rec).subrange(0, 4));
                assert(bytes@.subrange(0, 4) =~= u32_le(0));
            }
            assert(self.interim@[rs.len() as int] == rec);
            assert forall|j: int|
                #![trigger old(self).records()[j]]
                old(self).live(j) implies cell_bytes(self.region@, old(self).records()[j]) == cell_bytes(
                old(self).region(),
                old(self).records()[j],
            ) by {
                assert(rs[j] == old(self).records()[j]);
                let r0 = rs[j];
                assert(cell_bytes(region1, r0) =~= cell_bytes(region0, r0)) by {
                    assert forall|i: int| 0 <= i < r0.size implies cell_bytes(region1, r0)[i]
                        == cell_bytes(region0, r0)[i] by {
                        assert(region1[r0.index + i] == region0[r0.index + i]);
                    }
                }
                lemma_cell_parts(old(self).region(), self.region@, r0);
                assert(self.interim@[j] == r0);
            }
        }
        Ok(self.interim.len() - 1)
    }

    /// Stores `obj` in a new cell, placed as `alloc_raw` places it; the returned
    /// handle is the one counted on the new record.
    pub fn allocate<T: FrostyAllocatable>(&mut self, obj: T) -> (r: Result<
        ObjectHandleMut<T>,
        CapacityExhausted,
    >)
        requires
            old(self).wf(),
        ensures
            final(self).wf(),
            final(self).region().len() >= old(self).region().len(),
            forall|j: int|
                0 <= j < old(self).records().len() ==> #[trigger] final(self).records()[j] == old(self).records()[j],
            forall|j: int|
                #![trigger old(self).records()[j]]
                old(self).live(j) ==> value_bytes(final(self).region(), old(self).records()[j])
                    == value_bytes(old(self).region(), old(self).records()[j]) && final(self).semaphore_of(j)
                    == old(self).semaphore_of(j),
            r.is_err() <==> alloc_fails(*old(self), T::byte_len()),
            r.is_err() ==> final(self).records() == old(self).records() && final(self).region() == old(self).region()
                && final(self).free_chunks() == old(self).free_chunks(),
            r.is_ok() ==> {
                let h = r.unwrap().record();
                let rec = final(self).records()[h];
                &&& h == old(self).records().len()
                &&& final(self).records().len() == old(self).records().len() + 1
                &&& final(self).live(h)
                &&& final(self).holds::<T>(h)
                &&& rec.active_handles == 1
                &&& final(self).value_of::<T>(h) == obj
                &&& final(self).semaphore_of(h) == 0
                &&& has_fit(old(self).free_chunks(), HEADER + T::byte_len()) ==> rec.index == old(self).free_chunks()[best_fit_index(
                    old(self).free_chunks(),
                    HEADER + T::byte_len(),
                )].start && final(self).region().len() == old(self).region().len()
                    && final(self).free_chunks() == carved(old(self).free_chunks(), HEADER + T::byte_len())
                &&& !has_fit(old(self).free_chunks(), HEADER + T::byte_len()) ==> {
                    let g = grown_free(*old(self), T::byte_len());
                    &&& final(self).region().len() == grown_len(*old(self), T::byte_len())
                    &&& rec.index == g[best_fit_index(g, HEADER + T::byte_len())].start
                    &&& final(self).free_chunks() == carved(g, HEADER + T::byte_len())
                }
            },
    {
        let data = obj.to_bytes();
        proof {
            T::lemma_codec(obj);
        }
        let tag = T::id();
        match self.alloc_raw(tag, &data) {
            Ok(i) => Ok(ObjectHandleMut::at(i)),
            Err(e) => Err(e),
        }
    }
}


impl<T: FrostyAllocatable> DataAccess<T> {
    /// The value of the cell that the slot was taken on.
    pub fn as_ref(&self, alloc: &Allocator) -> (r: T)
        requires
            alloc.wf(),
            alloc.holds::<T>(self.record()),
        ensures
            r == alloc.value_of::<T>(self.record()),
    {
        alloc.read_value::<T>(self.index())
    }

    /// Gives the read slot back: the thread's read bit leaves the word of a live cell.
    pub fn release(self, alloc: &mut Allocator)
        requires
            old(alloc).wf(),
            self.thread() < THREAD_SLOTS,
        ensures
            final(alloc).wf(),
            final(alloc).records() == old(alloc).records(),
            final(alloc).free_chunks() == old(alloc).free_chunks(),
            forall|j: int|
                #![trigger old(alloc).records()[j]]
                old(alloc).live(j) ==> value_bytes(final(alloc).region(), old(alloc).records()[j])
                    == value_bytes(old(alloc).region(), old(alloc).records()[j]),
            forall|j: int|
                #![trigger old(alloc).records()[j]]
                old(alloc).live(j) && j != self.record() ==> final(alloc).semaphore_of(j) == old(alloc).semaphore_of(j),
            old(alloc).live(self.record()) ==> final(alloc).semaphore_of(self.record()) == old(alloc).semaphore_of(
                self.record(),
            ) ^ reader_bit(self.thread()),
    {
        let t = self.thread_id();
        alloc.flip_word(self.index(), BitMask::generate_read_flag(t));
    }
}

impl<T: FrostyAllocatable> DataAccessMut<T> {
    /// The value of the cell that the slot was taken on.
    pub fn as_ref(&self, alloc: &Allocator) -> (r: T)
        requires
            alloc.wf(),
            alloc.holds::<T>(self.record()),
        ensures
            r == alloc.value_of::<T>(self.record()),
    {
        alloc.read_value::<T>(self.index())
    }

    /// Stores `v` in the cell when it is still live.
    pub fn set(&self, alloc: &mut Allocator, v: T)
        requires
            old(alloc).wf(),
            old(alloc).holds::<T>(self.record()),
        ensures
            final(alloc).wf(),
            final(alloc).records() == old(alloc).records(),
            final(alloc).free_chunks() == old(alloc).free_chunks(),
            old(alloc).live(self.record()) ==> final(alloc).value_of::<T>(self.record()) == v,
            old(alloc).live(self.record()) ==> final(alloc).semaphore_of(self.record()) == old(alloc).semaphore_of(
                self.record(),
            ),
            !old(alloc).live(self.record()) ==> final(alloc).region() == old(alloc).region(),
            forall|j: int|
                #![trigger old(alloc).records()[j]]
                old(alloc).live(j) && j != self.record() ==> cell_bytes(
                    final(alloc).region(),
                    old(alloc).records()[j],
                ) == cell_bytes(old(alloc).region(), old(alloc).records()[j]),
    {
        let i = self.index();
        if alloc.is_live(i) {
            alloc.write_value::<T>(i, v);
        }
    }

    /// Gives the write slot back: the thread's pending bit and the writer-active flag
    /// leave the word of a live cell.
    pub fn release(self, alloc: &mut Allocator)
        requires
            old(alloc).wf(),
            self.thread() < THREAD_SLOTS,
        ensures
            final(alloc).wf(),
            final(alloc).records() == old(alloc).records(),
            final(alloc).free_chunks() == old(alloc).free_chunks(),
            forall|j: int|
                #![trigger old(alloc).records()[j]]
                old(alloc).live(j) ==> value_bytes(final(alloc).region(), old(alloc).records()[j])
                    == value_bytes(old(alloc).region(), old(alloc).records()[j]),
            forall|j: int|
                #![trigger old(alloc).records()[j]]
                old(alloc).live(j) && j != self.record() ==> final(alloc).semaphore_of(j) == old(alloc).semaphore_of(j),
            old(alloc).live(self.record()) ==> final(alloc).semaphore_of(self.record()) == old(alloc).semaphore_of(
                self.record(),
            ) ^ (pending_bit(self.thread()) | BitMask::WRITE_FLAG),
    {
        let t = self.thread_id();
        alloc.flip_word(self.index(), BitMask::generate_pending_flag(t) | BitMask::WRITE_FLAG);
    }

    /// Turns the write slot into a read slot of the same thread with one update of
    /// the word: the cell is never free in between.
    pub fn drop_mut(self, alloc: &mut Allocator) -> (r: DataAccess<T>)
        requires
            old(alloc).wf(),
            self.thread() < THREAD_SLOTS,
        ensures
            r.record() == self.record(),
            r.thread() == self.thread(),
            final(alloc).wf(),
            final(alloc).records() == old(alloc).records(),
            final(alloc).free_chunks() == old(alloc).free_chunks(),
            forall|j: int|
                #![trigger old(alloc).records()[j]]
                old(alloc).live(j) ==> value_bytes(final(alloc).region(), old(alloc).records()[j])
                    == value_bytes(old(alloc).region(), old(alloc).records()[j]),
            forall|j: int|
                #![trigger old(alloc).records()[j]]
                old(alloc).live(j) && j != self.record() ==> final(alloc).semaphore_of(j) == old(alloc).semaphore_of(j),
            old(alloc).live(self.record()) ==> final(alloc).semaphore_of(self.record()) == old(alloc).semaphore_of(
                self.record(),
            ) ^ (pending_bit(self.thread()) | BitMask::WRITE_FLAG | reader_bit(self.thread())),
    {
        let t = self.thread_id();
        let i = self.index();
        alloc.flip_word(
            i,
            BitMask::generate_pending_flag(t) | BitMask::WRITE_FLAG | BitMask::generate_read_flag(t),
        );
        DataAccess::at(i, t)
    }
}

} // verus!
