use vstd::prelude::*;

verus! {

/// A free region of the arena: `len` bytes starting at offset `start`.
#[derive(Clone, Copy, Debug, PartialEq, Eq, Structural)]
pub struct Chunk {
    pub start: usize,
    pub len: usize,
}

/// One past the last byte of a chunk.
pub open spec fn chunk_end(c: Chunk) -> int {
    c.start + c.len
}

impl Chunk {
    /// Consumes `amnt` bytes from the front of the chunk.
    pub fn reduce(&mut self, amnt: usize)
        requires
            amnt <= old(self).len,
            old(self).start + amnt <= usize::MAX,
        ensures
            final(self).start == old(self).start + amnt,
            final(self).len == old(self).len - amnt,
    {
        self.start = self.start + amnt;
        self.len = self.len - amnt;
    }
}

/// Chunks sorted by `start`, never touching or overlapping each other, each ending
/// inside the address space.
pub open spec fn chunks_wf(s: Seq<Chunk>) -> bool {
    &&& forall|i: int| 0 <= i < s.len() ==> (#[trigger] s[i]).len > 0 && chunk_end(s[i]) <= usize::MAX
    &&& forall|i: int, j: int| 0 <= i < j < s.len() ==> chunk_end(#[trigger] s[i]) < (#[trigger] s[j]).start
}

/// `c` shares no byte with any chunk of `s`.
pub open spec fn disjoint_from_all(s: Seq<Chunk>, c: Chunk) -> bool {
    forall|i: int| 0 <= i < s.len() ==> chunk_end(#[trigger] s[i]) <= c.start || chunk_end(c) <= s[i].start
}

/// `k` is where a chunk starting at `p` goes to keep `s` sorted.
pub open spec fn is_insert_pos(s: Seq<Chunk>, p: int, k: int) -> bool {
    &&& 0 <= k <= s.len()
    &&& forall|i: int| 0 <= i < k ==> (#[trigger] s[i]).start < p
    &&& forall|i: int| k <= i < s.len() ==> (#[trigger] s[i]).start >= p
}

pub open spec fn insert_pos(s: Seq<Chunk>, p: int) -> int {
    choose|k: int| is_insert_pos(s, p, k)
}

/// The list that results from inserting `c` at position `k` and coalescing it with
/// the neighbour on each side that it touches.
pub open spec fn added_at(s: Seq<Chunk>, c: Chunk, k: int) -> Seq<Chunk> {
    let merge_left = k > 0 && chunk_end(s[k - 1]) == c.start;
    let merge_right = k < s.len() && chunk_end(c) == s[k].start;
    if merge_left && merge_right {
        s.subrange(0, k - 1).push(
            Chunk { start: s[k - 1].start, len: (s[k - 1].len + c.len + s[k].len) as usize },
        ) + s.subrange(k + 1, s.len() as int)
    } else if merge_left {
        s.subrange(0, k - 1).push(Chunk { start: s[k - 1].start, len: (s[k - 1].len + c.len) as usize })
            + s.subrange(k, s.len() as int)
    } else if merge_right {
        s.subrange(0, k).push(Chunk { start: c.start, len: (c.len + s[k].len) as usize })
            + s.subrange(k + 1, s.len() as int)
    } else {
        s.subrange(0, k).push(c) + s.subrange(k, s.len() as int)
    }
}

/// The list after returning `c` to `s`.
pub open spec fn added(s: Seq<Chunk>, c: Chunk) -> Seq<Chunk> {
    added_at(s, c, insert_pos(s, c.start as int))
}

/// Chunk `i` is the best fit for `size`: the shortest one that holds `size` bytes,
/// the lowest such start among equals.
pub open spec fn is_best_fit(s: Seq<Chunk>, size: int, i: int) -> bool {
    &&& 0 <= i < s.len()
    &&& s[i].len >= size
    &&& forall|j: int|
        0 <= j < s.len() && (#[trigger] s[j]).len >= size ==> s[i].len < s[j].len || (s[i].len
            == s[j].len && i <= j)
}

pub open spec fn best_fit_index(s: Seq<Chunk>, size: int) -> int {
    choose|i: int| is_best_fit(s, size, i)
}

/// Some chunk of `s` holds `size` bytes.
pub open spec fn has_fit(s: Seq<Chunk>, size: int) -> bool {
    exists|i: int| 0 <= i < s.len() && (#[trigger] s[i]).len >= size
}

/// A byte that lies in one of the chunks.
pub open spec fn covers(s: Seq<Chunk>, x: int) -> bool {
    exists|i: int| 0 <= i < s.len() && (#[trigger] s[i]).start <= x < chunk_end(s[i])
}

proof fn lemma_insert_pos_unique(s: Seq<Chunk>, p: int, k1: int, k2: int)
    requires
        is_insert_pos(s, p, k1),
        is_insert_pos(s, p, k2),
    ensures
        k1 == k2,
{
    if k1 < k2 {
        assert(s[k1].start < p);
    } else if k2 < k1 {
        assert(s[k2].start < p);
    }
}

proof fn lemma_best_fit_unique(s: Seq<Chunk>, size: int, i1: int, i2: int)
    requires
        is_best_fit(s, size, i1),
        is_best_fit(s, size, i2),
    ensures
        i1 == i2,
{
    assert(s[i1].len >= size);
    assert(s[i2].len >= size);
}

/// Replacing `s[a..b]` by one chunk `m` that stays clear of its new neighbours keeps
/// the list well formed.
proof fn lemma_splice_wf(s: Seq<Chunk>, a: int, b: int, m: Chunk)
    requires
        chunks_wf(s),
        0 <= a <= b <= s.len(),
        a > 0 ==> chunk_end(s[a - 1]) < m.start,
        b < s.len() ==> chunk_end(m) < s[b].start,
        m.len > 0,
        chunk_end(m) <= usize::MAX,
    ensures
        chunks_wf(s.subrange(0, a).push(m) + s.subrange(b, s.len() as int)),
{
    let t = s.subrange(0, a).push(m) + s.subrange(b, s.len() as int);
    assert(t.len() == a + 1 + s.len() - b);
    assert forall|i: int| 0 <= i < t.len() implies (#[trigger] t[i]).len > 0 && chunk_end(t[i])
        <= usize::MAX by {
        if i > a {
            assert(t[i] == s[i - a - 1 + b]);
        } else if i < a {
            assert(t[i] == s[i]);
        }
    }
    assert forall|i: int, j: int| 0 <= i < j < t.len() implies chunk_end(#[trigger] t[i]) < (
    #[trigger] t[j]).start by {
        if j < a {
            assert(t[i] == s[i] && t[j] == s[j]);
        } else if j == a {
            assert(t[i] == s[i]);
            if i < a - 1 {
                assert(chunk_end(s[i]) < s[a - 1].start);
            }
        } else {
            let sj = j - a - 1 + b;
            assert(t[j] == s[sj]);
            if i < a {
                assert(t[i] == s[i]);
                assert(i < sj);
            } else if i == a {
                if sj > b {
                    assert(chunk_end(s[b]) < s[sj].start);
                }
            } else {
                assert(t[i] == s[i - a - 1 + b]);
            }
        }
    }
}

/// A sorted list has a place for every start.
pub proof fn lemma_insert_pos_exists(s: Seq<Chunk>, p: int)
    requires
        chunks_wf(s),
    ensures
        is_insert_pos(s, p, insert_pos(s, p)),
    decreases s.len(),
{
    if s.len() == 0 {
        assert(is_insert_pos(s, p, 0));
    } else {
        let s1 = s.drop_last();
        assert forall|i: int, j: int| 0 <= i < j < s1.len() implies chunk_end(#[trigger] s1[i]) < (
        #[trigger] s1[j]).start by {
            assert(s1[i] == s[i] && s1[j] == s[j]);
        }
        assert forall|i: int| 0 <= i < s1.len() implies (#[trigger] s1[i]).len > 0 && chunk_end(s1[i])
            <= usize::MAX by {
            assert(s1[i] == s[i]);
        }
        lemma_insert_pos_exists(s1, p);
        let k1 = insert_pos(s1, p);
        let last = s.len() - 1;
        if k1 < s1.len() {
            assert forall|i: int| k1 <= i < s.len() implies (#[trigger] s[i]).start >= p by {
                if i < last {
                    assert(s[i] == s1[i]);
                } else {
                    assert(s[k1] == s1[k1]);
                    assert(chunk_end(s[k1]) < s[last].start);
                }
            }
            assert forall|i: int| 0 <= i < k1 implies (#[trigger] s[i]).start < p by {
                assert(s[i] == s1[i]);
            }
            assert(is_insert_pos(s, p, k1));
        } else if s[last].start < p {
            assert forall|i: int| 0 <= i < s.len() implies (#[trigger] s[i]).start < p by {
                if i < last {
                    assert(s[i] == s1[i]);
                }
            }
            assert(is_insert_pos(s, p, s.len() as int));
        } else {
            assert forall|i: int| 0 <= i < last implies (#[trigger] s[i]).start < p by {
                assert(s[i] == s1[i]);
            }
            assert(is_insert_pos(s, p, last));
        }
    }
}

/// The chunk that `added_at` puts at position `splice_lo`.
pub open spec fn merged(s: Seq<Chunk>, c: Chunk, k: int) -> Chunk {
    let merge_left = k > 0 && chunk_end(s[k - 1]) == c.start;
    let merge_right = k < s.len() && chunk_end(c) == s[k].start;
    let lo = if merge_left {
        s[k - 1].start
    } else {
        c.start
    };
    let hi = if merge_right {
        chunk_end(s[k])
    } else {
        chunk_end(c)
    };
    Chunk { start: lo, len: (hi - lo) as usize }
}

pub open spec fn splice_lo(s: Seq<Chunk>, c: Chunk, k: int) -> int {
    if k > 0 && chunk_end(s[k - 1]) == c.start {
        k - 1
    } else {
        k
    }
}

pub open spec fn splice_hi(s: Seq<Chunk>, c: Chunk, k: int) -> int {
    if k < s.len() && chunk_end(c) == s[k].start {
        k + 1
    } else {
        k
    }
}

/// What returning a chunk does to the list: the chunks that it does not touch stay,
/// and one chunk covers it together with the neighbours that it touches.
pub proof fn lemma_added_shape(s: Seq<Chunk>, c: Chunk)
    requires
        chunks_wf(s),
        c.len > 0,
        chunk_end(c) <= usize::MAX,
        disjoint_from_all(s, c),
    ensures
        ({
            let k = insert_pos(s, c.start as int);
            let lo = splice_lo(s, c, k);
            let hi = splice_hi(s, c, k);
            let m = merged(s, c, k);
            let t = added(s, c);
            &&& is_insert_pos(s, c.start as int, k)
            &&& 0 <= lo <= hi <= s.len()
            &&& t == s.subrange(0, lo).push(m) + s.subrange(hi, s.len() as int)
            &&& t.len() == lo + 1 + s.len() - hi
            &&& forall|i: int| 0 <= i < lo ==> t[i] == s[i]
            &&& t[lo] == m
            &&& forall|i: int| lo < i < t.len() ==> t[i] == s[i - lo - 1 + hi]
            &&& m.start <= c.start
            &&& chunk_end(c) <= chunk_end(m)
            &&& lo < k ==> m.start == s[k - 1].start && chunk_end(s[k - 1]) == c.start
            &&& lo == k ==> m.start == c.start
            &&& hi > k ==> chunk_end(m) == chunk_end(s[k]) && chunk_end(c) == s[k].start
            &&& hi == k ==> chunk_end(m) == chunk_end(c)
            &&& chunks_wf(t)
        }),
{
    lemma_insert_pos_exists(s, c.start as int);
    let k = insert_pos(s, c.start as int);
    let lo = splice_lo(s, c, k);
    let hi = splice_hi(s, c, k);
    let m = merged(s, c, k);
    let t = added(s, c);
    if k > 0 {
        assert(chunk_end(s[k - 1]) <= c.start);
    }
    if k < s.len() {
        assert(chunk_end(c) <= s[k].start);
    }
    assert(t =~= s.subrange(0, lo).push(m) + s.subrange(hi, s.len() as int));
    if lo > 0 {
        if lo < k {
            assert(chunk_end(s[lo - 1]) < s[k - 1].start);
        }
    }
    if hi < s.len() {
        if hi > k {
            assert(chunk_end(s[k]) < s[hi].start);
        }
    }
    lemma_splice_wf(s, lo, hi, m);
}

/// Every byte that a returned chunk covers, or that the list covered, is covered
/// afterwards, and no other byte.
pub proof fn lemma_added_covers(s: Seq<Chunk>, c: Chunk, x: int)
    requires
        chunks_wf(s),
        c.len > 0,
        chunk_end(c) <= usize::MAX,
        disjoint_from_all(s, c),
    ensures
        covers(added(s, c), x) <==> (covers(s, x) || (c.start <= x < chunk_end(c))),
{
    lemma_added_shape(s, c);
    let k = insert_pos(s, c.start as int);
    let lo = splice_lo(s, c, k);
    let hi = splice_hi(s, c, k);
    let m = merged(s, c, k);
    let t = added(s, c);
    if covers(t, x) {
        let i = choose|i: int| 0 <= i < t.len() && (#[trigger] t[i]).start <= x < chunk_end(t[i]);
        if i < lo {
            assert(t[i] == s[i]);
        } else if i > lo {
            assert(t[i] == s[i - lo - 1 + hi]);
        } else if lo < k && x < c.start {
            assert(s[k - 1].start <= x < chunk_end(s[k - 1]));
        } else if hi > k && x >= chunk_end(c) {
            assert(s[k].start <= x < chunk_end(s[k]));
        }
    }
    if covers(s, x) {
        let j = choose|j: int| 0 <= j < s.len() && (#[trigger] s[j]).start <= x < chunk_end(s[j]);
        if j < lo {
            assert(t[j] == s[j]);
        } else if j >= hi {
            assert(t[j - hi + lo + 1] == s[j]);
        } else {
            assert(t[lo] == m);
        }
    }
    if c.start <= x < chunk_end(c) {
        assert(t[lo] == m);
    }
}

/// Free regions of the arena, kept sorted by start and coalesced.
pub struct OrderedChunkList {
    chunks: Vec<Chunk>,
}

impl View for OrderedChunkList {
    type V = Seq<Chunk>;

    closed spec fn view(&self) -> Seq<Chunk> {
        self.chunks@
    }
}

impl OrderedChunkList {
    pub open spec fn wf(&self) -> bool {
        chunks_wf(self@)
    }

    pub fn new() -> (r: Self)
        ensures
            r@ == Seq::<Chunk>::empty(),
            r.wf(),
    {
        OrderedChunkList { chunks: Vec::new() }
    }

    /// Number of chunks in the list.
    pub fn len(&self) -> (r: usize)
        ensures
            r == self@.len(),
    {
        self.chunks.len()
    }

    /// Number of chunks in the list, counted by walking it.
    pub fn recursive_get_size(&self) -> (r: usize)
        ensures
            r == self@.len(),
    {
        let mut size: usize = 0;
        while size < self.chunks.len()
            invariant
                size <= self.chunks.len(),
            decreases self.chunks.len() - size,
        {
            size = size + 1;
        }
        size
    }

    /// The chunk with the lowest start, if any.
    pub fn head(&self) -> (r: Option<Chunk>)
        ensures
            r == (if self@.len() == 0 {
                None
            } else {
                Some(self@[0])
            }),
    {
        if self.chunks.len() == 0 {
            None
        } else {
            Some(self.chunks[0])
        }
    }

    /// The chunk at position `i`, counted from the lowest start.
    pub fn get(&self, i: usize) -> (r: Option<Chunk>)
        ensures
            r == (if i < self@.len() {
                Some(self@[i as int])
            } else {
                None
            }),
    {
        if i < self.chunks.len() {
            Some(self.chunks[i])
        } else {
            None
        }
    }

    /// Returns `chunk` to the list: it goes in at its place by start and is merged
    /// with each neighbour that it touches.
    pub fn add(&mut self, chunk: Chunk)
        requires
            old(self).wf(),
            chunk.len > 0,
            chunk_end(chunk) <= usize::MAX,
            disjoint_from_all(old(self)@, chunk),
        ensures
            final(self)@ == added(old(self)@, chunk),
            final(self).wf(),
    {
        let ghost s = self@;
        let n = self.chunks.len();
        let mut k: usize = 0;
        while k < n && self.chunks[k].start < chunk.start
            invariant
                n == self.chunks.len(),
                self@ == s,
                k <= n,
                forall|i: int| 0 <= i < k ==> (#[trigger] s[i]).start < chunk.start,
            decreases n - k,
        {
            k = k + 1;
        }
        proof {
            assert forall|i: int| k <= i < s.len() implies (#[trigger] s[i]).start >= chunk.start by {
                if i > k {
                    assert(chunk_end(s[k as int]) < s[i].start);
                }
            }
            assert(is_insert_pos(s, chunk.start as int, k as int));
            lemma_insert_pos_unique(s, chunk.start as int, k as int, insert_pos(s, chunk.start as int));
            if k > 0 {
                assert(chunk_end(s[k - 1]) <= chunk.start);
            }
            if k < n {
                assert(chunk_end(chunk) <= s[k as int].start);
            }
        }
        let merge_left = k > 0 && self.chunks[k - 1].start + self.chunks[k - 1].len == chunk.start;
        let merge_right = k < n && chunk.start + chunk.len == self.chunks[k].start;
        if merge_left && merge_right {
            let right = self.chunks.remove(k);
            let left = self.chunks[k - 1];
            let m = Chunk { start: left.start, len: left.len + chunk.len + right.len };
            self.chunks.set(k - 1, m);
            proof {
                assert(self@ =~= added_at(s, chunk, k as int));
                lemma_splice_wf(s, k - 1, k + 1, m);
            }
        } else if merge_left {
            let left = self.chunks[k - 1];
            let m = Chunk { start: left.start, len: left.len + chunk.len };
            self.chunks.set(k - 1, m);
            proof {
                assert(self@ =~= added_at(s, chunk, k as int));
                lemma_splice_wf(s, k - 1, k as int, m);
            }
        } else if merge_right {
            let right = self.chunks[k];
            let m = Chunk { start: chunk.start, len: chunk.len + right.len };
            self.chunks.set(k, m);
            proof {
                assert(self@ =~= added_at(s, chunk, k as int));
                lemma_splice_wf(s, k as int, k + 1, m);
            }
        } else {
            self.chunks.insert(k, chunk);
            proof {
                assert(self@ =~= added_at(s, chunk, k as int));
                lemma_splice_wf(s, k as int, k as int, chunk);
            }
        }
    }

    /// Removes and returns the shortest chunk that holds `size` bytes (the lowest
    /// start among equals), or `None` when no chunk is long enough.
    pub fn get_best_fit(&mut self, size: usize) -> (r: Option<Chunk>)
        requires
            old(self).wf(),
        ensures
            final(self).wf(),
            r.is_none() <==> !has_fit(old(self)@, size as int),
            r.is_none() ==> final(self)@ == old(self)@,
            r.is_some() ==> {
                let i = best_fit_index(old(self)@, size as int);
                &&& is_best_fit(old(self)@, size as int, i)
                &&& r == Some(old(self)@[i])
                &&& final(self)@ == old(self)@.remove(i)
            },
    {
        let ghost s = self@;
        let n = self.chunks.len();
        let mut best: usize = 0;
        let mut found = false;
        let mut i: usize = 0;
        while i < n
            invariant
                n == self.chunks.len(),
                self@ == s,
                i <= n,
                found ==> best < i && s[best as int].len >= size && forall|j: int|
                    0 <= j < i && (#[trigger] s[j]).len >= size ==> s[best as int].len < s[j].len
                        || (s[best as int].len == s[j].len && best <= j),
                !found ==> forall|j: int| 0 <= j < i ==> (#[trigger] s[j]).len < size,
            decreases n - i,
        {
            let len = self.chunks[i].len;
            if len >= size && (!found || len < self.chunks[best].len) {
                best = i;
                found = true;
            }
            i = i + 1;
        }
        if !found {
            proof {
                assert(!has_fit(s, size as int));
            }
            return None;
        }
        proof {
            assert(is_best_fit(s, size as int, best as int));
            lemma_best_fit_unique(s, size as int, best as int, best_fit_index(s, size as int));
            assert(has_fit(s, size as int)) by {
                assert(s[best as int].len >= size);
            }
        }
        Some(self.pop_index(best))
    }

    /// Removes and returns the chunk at position `index`.
    pub fn pop_index(&mut self, index: usize) -> (r: Chunk)
        requires
            index < old(self)@.len(),
            old(self).wf(),
        ensures
            r == old(self)@[index as int],
            final(self)@ == old(self)@.remove(index as int),
            final(self).wf(),
    {
        let r = self.chunks.remove(index);
        proof {
            let s = old(self)@;
            let t = self@;
            assert forall|i: int, j: int| 0 <= i < j < t.len() implies chunk_end(#[trigger] t[i])
                < (#[trigger] t[j]).start by {
                let oi = if i < index { i } else { i + 1 };
                let oj = if j < index { j } else { j + 1 };
                assert(t[i] == s[oi]);
                assert(t[j] == s[oj]);
            }
            assert forall|i: int| 0 <= i < t.len() implies (#[trigger] t[i]).len > 0 && chunk_end(t[i]) <= usize::MAX by {
                let oi = if i < index { i } else { i + 1 };
                assert(t[i] == s[oi]);
            }
        }
        r
    }
}

} // verus!
