use vstd::prelude::*;

verus! {

/// Number of thread ids that a semaphore word can tell apart.
pub const THREAD_SLOTS: u32 = 15;

/// Bit `i` of `w` is set.
pub open spec fn bit(w: u32, i: u32) -> bool {
    (w >> i) & 1u32 == 1u32
}

/// The read slot of thread `t`.
pub open spec fn reader_bit(t: u32) -> u32 {
    1u32 << t
}

/// The pending-writer bit of thread `t`.
pub open spec fn pending_bit(t: u32) -> u32 {
    1u32 << (16u32 + t)
}

/// Every bit above the pending-writer bit of thread `t`: the pending bits of
/// higher-numbered threads and the writer-active flag.
pub open spec fn above_pending(t: u32) -> u32 {
    !(((2u32 << (16u32 + t)) - 1u32) as u32)
}

/// A reader whose attempt saw this word holds the cell.
pub open spec fn read_granted(prev: u32) -> bool {
    prev & 0x8000_0000u32 == 0
}

/// A writer `t` whose attempt saw this word holds the cell: no writer is active,
/// no higher-numbered thread waits to write, and no read slot is held.
pub open spec fn write_granted(prev: u32, t: u32) -> bool {
    prev & above_pending(t) == 0 && prev & 0x7fffu32 == 0
}

/// Where a thread stands in the semaphore protocol of one cell.
#[derive(Clone, Copy, Debug, PartialEq, Eq, Structural)]
pub enum Phase {
    Idle,
    /// Holds a read slot.
    Reading,
    /// Set its read bit, saw an active writer, and must take the bit back.
    ReadBackoff,
    /// Holds the write slot.
    Writing,
    /// Failed a write attempt and must undo it; `set_flag` when that attempt is the
    /// one that turned the writer-active flag on.
    WriteBackoff { set_flag: bool },
    /// Waits to write: its pending bit stays set between attempts.
    WriteWaiting,
}

/// One atomic step of the protocol taken by one thread.
#[derive(Clone, Copy, Debug, PartialEq, Eq, Structural)]
pub enum Step {
    ReadTry,
    ReadBackoff,
    ReadRelease,
    WriteTry,
    WriteBackoff,
    WriteRelease,
    Downgrade,
}

pub open spec fn flag_owner(p: Phase) -> bool {
    match p {
        Phase::Writing => true,
        Phase::WriteBackoff { set_flag } => set_flag,
        _ => false,
    }
}

pub open spec fn holds_read_bit(p: Phase) -> bool {
    p == Phase::Reading || p == Phase::ReadBackoff
}

pub open spec fn holds_pending_bit(p: Phase) -> bool {
    p == Phase::Writing || p is WriteBackoff || p == Phase::WriteWaiting
}

/// What the word says of the threads, and what mutual exclusion needs.
pub open spec fn protocol_inv(w: u32, ph: Seq<Phase>) -> bool {
    &&& ph.len() == THREAD_SLOTS
    &&& forall|t: int| 0 <= t < 15 ==> (bit(w, t as u32) <==> holds_read_bit(#[trigger] ph[t]))
    &&& forall|t: int|
        0 <= t < 15 ==> (bit(w, (16 + t) as u32) <==> holds_pending_bit(#[trigger] ph[t]))
    &&& forall|t: int| 0 <= t < 15 && flag_owner(#[trigger] ph[t]) ==> bit(w, 31)
    &&& bit(w, 31) ==> exists|t: int| 0 <= t < 15 && flag_owner(#[trigger] ph[t])
    &&& forall|t1: int, t2: int|
        0 <= t1 < 15 && 0 <= t2 < 15 && flag_owner(#[trigger] ph[t1]) && flag_owner(
            #[trigger] ph[t2],
        ) ==> t1 == t2
    &&& forall|t1: int, t2: int|
        0 <= t1 < 15 && 0 <= t2 < 15 && #[trigger] ph[t1] == Phase::Writing ==> #[trigger] ph[t2]
            != Phase::Reading
}

/// A step that thread phase `p` may take.
pub open spec fn step_enabled(p: Phase, s: Step) -> bool {
    match s {
        Step::ReadTry => p == Phase::Idle,
        Step::ReadBackoff => p == Phase::ReadBackoff,
        Step::ReadRelease => p == Phase::Reading,
        Step::WriteTry => p == Phase::Idle || p == Phase::WriteWaiting,
        Step::WriteBackoff => p is WriteBackoff,
        Step::WriteRelease => p == Phase::Writing,
        Step::Downgrade => p == Phase::Writing,
    }
}

/// The word after thread `t` takes step `s` on word `w`.
pub open spec fn step_word(w: u32, ph: Seq<Phase>, t: u32, s: Step) -> u32 {
    match s {
        Step::ReadTry => w | (1u32 << t),
        Step::ReadBackoff => w ^ (1u32 << t),
        Step::ReadRelease => w ^ (1u32 << t),
        Step::WriteTry => (w | (1u32 << (16u32 + t))) | (1u32 << 31u32),
        Step::WriteBackoff => if ph[t as int] == (Phase::WriteBackoff { set_flag: true }) {
            w & !(1u32 << 31u32)
        } else {
            w
        },
        Step::WriteRelease => (w ^ (1u32 << (16u32 + t))) ^ (1u32 << 31u32),
        Step::Downgrade => ((w ^ (1u32 << (16u32 + t))) ^ (1u32 << 31u32)) ^ (1u32 << t),
    }
}

/// The phase of thread `t` after it takes step `s` on word `w`.
pub open spec fn step_phase(w: u32, t: u32, s: Step) -> Phase {
    match s {
        Step::ReadTry => if read_granted(w) {
            Phase::Reading
        } else {
            Phase::ReadBackoff
        },
        Step::ReadBackoff => Phase::Idle,
        Step::ReadRelease => Phase::Idle,
        Step::WriteTry => if write_granted(w, t) {
            Phase::Writing
        } else {
            Phase::WriteBackoff { set_flag: w & 0x8000_0000u32 == 0 }
        },
        Step::WriteBackoff => Phase::WriteWaiting,
        Step::WriteRelease => Phase::Idle,
        Step::Downgrade => Phase::Reading,
    }
}

proof fn lemma_bit_or(w: u32, i: u32)
    requires
        i < 32,
    ensures
        forall|j: u32| j < 32 ==> #[trigger] bit(w | (1u32 << i), j) == (j == i || bit(w, j)),
{
    assert forall|j: u32| j < 32 implies #[trigger] bit(w | (1u32 << i), j) == (j == i || bit(w, j)) by {
        assert(((w | (1u32 << i)) >> j) & 1u32 == 1u32 <==> (j == i || (w >> j) & 1u32 == 1u32))
            by (bit_vector)
            requires
                i < 32u32,
                j < 32u32,
        ;
    }
}

proof fn lemma_bit_xor(w: u32, i: u32)
    requires
        i < 32,
    ensures
        forall|j: u32| j < 32 ==> #[trigger] bit(w ^ (1u32 << i), j) == (if j == i {
            !bit(w, j)
        } else {
            bit(w, j)
        }),
{
    assert forall|j: u32| j < 32 implies #[trigger] bit(w ^ (1u32 << i), j) == (if j == i {
        !bit(w, j)
    } else {
        bit(w, j)
    }) by {
        assert(((w ^ (1u32 << i)) >> j) & 1u32 == 1u32 <==> (if j == i {
            (w >> j) & 1u32 != 1u32
        } else {
            (w >> j) & 1u32 == 1u32
        })) by (bit_vector)
            requires
                i < 32u32,
                j < 32u32,
        ;
    }
}

proof fn lemma_bit_clear_top(w: u32)
    ensures
        forall|j: u32| j < 32 ==> #[trigger] bit(w & !(1u32 << 31u32), j) == (j != 31 && bit(w, j)),
{
    assert forall|j: u32| j < 32 implies #[trigger] bit(w & !(1u32 << 31u32), j) == (j != 31 && bit(
        w,
        j,
    )) by {
        assert(((w & !(1u32 << 31u32)) >> j) & 1u32 == 1u32 <==> (j != 31 && (w >> j) & 1u32
            == 1u32)) by (bit_vector)
            requires
                j < 32u32,
        ;
    }
}

proof fn lemma_granted_bits(w: u32, t: u32)
    requires
        t < 15,
    ensures
        read_granted(w) <==> !bit(w, 31),
        write_granted(w, t) ==> !bit(w, 31),
        write_granted(w, t) ==> forall|u: u32| u < 15 ==> !#[trigger] bit(w, u),
{
    assert((w & 0x8000_0000u32 == 0) <==> !((w >> 31u32) & 1u32 == 1u32)) by (bit_vector);
    assert((w & !(((2u32 << (16u32 + t)) - 1u32) as u32) == 0) ==> !((w >> 31u32) & 1u32 == 1u32))
        by (bit_vector)
        requires
            t < 15u32,
    ;
    assert forall|u: u32| u < 15 && w & 0x7fffu32 == 0 implies !#[trigger] bit(w, u) by {
        assert(w & 0x7fffu32 == 0 && u < 15u32 ==> !((w >> u) & 1u32 == 1u32)) by (bit_vector);
    }
}

/// At the start every thread is idle and the word is zero.
pub proof fn lemma_protocol_initial()
    ensures
        protocol_inv(0u32, Seq::new(15, |i: int| Phase::Idle)),
{
    let ph = Seq::new(15, |i: int| Phase::Idle);
    assert forall|j: u32| j < 32 implies !#[trigger] bit(0u32, j) by {
        assert((0u32 >> j) & 1u32 == 0u32) by (bit_vector);
    }
    assert forall|t: int| 0 <= t < 15 implies (bit(0u32, (16 + t) as u32) <==> holds_pending_bit(
        #[trigger] ph[t],
    )) by {
        assert(!bit(0u32, (16 + t) as u32));
    }
    assert forall|t: int| 0 <= t < 15 implies (bit(0u32, t as u32) <==> holds_read_bit(#[trigger] ph[t])) by {
        assert(!bit(0u32, t as u32));
    }
}

/// Every step of the protocol keeps its invariant, whatever the other threads do
/// before or after it: each step is one atomic operation on the word.
pub proof fn lemma_protocol_step(w: u32, ph: Seq<Phase>, t: u32, s: Step)
    requires
        protocol_inv(w, ph),
        t < 15,
        step_enabled(ph[t as int], s),
    ensures
        protocol_inv(step_word(w, ph, t, s), ph.update(t as int, step_phase(w, t, s))),
{
    let w2 = step_word(w, ph, t, s);
    let p2 = step_phase(w, t, s);
    let ph2 = ph.update(t as int, p2);
    let ti = t as int;
    lemma_granted_bits(w, t);
    match s {
        Step::ReadTry => {
            lemma_bit_or(w, t);
        },
        Step::ReadBackoff | Step::ReadRelease => {
            lemma_bit_xor(w, t);
            assert(bit(w, t));
        },
        Step::WriteTry => {
            let w1 = w | (1u32 << (16u32 + t));
            lemma_bit_or(w, (16u32 + t) as u32);
            lemma_bit_or(w1, 31u32);
            if write_granted(w, t) {
                assert forall|u: int| 0 <= u < 15 implies !flag_owner(#[trigger] ph[u]) by {}
                assert forall|u: int| 0 <= u < 15 implies #[trigger] ph[u] != Phase::Reading by {
                    assert(!bit(w, u as u32));
                }
            } else if w & 0x8000_0000u32 == 0 {
                assert forall|u: int| 0 <= u < 15 implies !flag_owner(#[trigger] ph[u]) by {}
            }
        },
        Step::WriteBackoff => {
            if ph[ti] == (Phase::WriteBackoff { set_flag: true }) {
                lemma_bit_clear_top(w);
            }
        },
        Step::WriteRelease => {
            let w1 = w ^ (1u32 << (16u32 + t));
            lemma_bit_xor(w, (16u32 + t) as u32);
            lemma_bit_xor(w1, 31u32);
            assert(bit(w, 31));
            assert(bit(w, (16 + ti) as u32));
        },
        Step::Downgrade => {
            let w1 = w ^ (1u32 << (16u32 + t));
            let w3 = w1 ^ (1u32 << 31u32);
            lemma_bit_xor(w, (16u32 + t) as u32);
            lemma_bit_xor(w1, 31u32);
            lemma_bit_xor(w3, t);
            assert(bit(w, 31));
            assert(bit(w, (16 + ti) as u32));
            assert(!bit(w, t));
        },
    }
    assert forall|u: int| 0 <= u < 15 implies (bit(w2, u as u32) <==> holds_read_bit(#[trigger] ph2[u])) by {
        if u != ti {
            assert(ph2[u] == ph[u]);
        }
    }
    assert forall|u: int| 0 <= u < 15 implies (bit(w2, (16 + u) as u32) <==> holds_pending_bit(
        #[trigger] ph2[u],
    )) by {
        if u != ti {
            assert(ph2[u] == ph[u]);
        }
    }
    assert forall|u: int| 0 <= u < 15 && flag_owner(#[trigger] ph2[u]) implies bit(w2, 31) by {
        if u != ti {
            assert(ph2[u] == ph[u]);
        }
    }
    if bit(w2, 31) {
        if flag_owner(p2) {
            assert(flag_owner(ph2[ti]));
        } else {
            // The flag was set before the step and its owner is another thread.
            assert(bit(w, 31));
            let o = choose|o: int| 0 <= o < 15 && flag_owner(#[trigger] ph[o]);
            assert(o != ti);
            assert(ph2[o] == ph[o]);
        }
    }
    assert forall|t1: int, t2: int|
        0 <= t1 < 15 && 0 <= t2 < 15 && flag_owner(#[trigger] ph2[t1]) && flag_owner(
            #[trigger] ph2[t2],
        ) implies t1 == t2 by {
        if t1 != ti && t2 != ti {
            assert(ph2[t1] == ph[t1] && ph2[t2] == ph[t2]);
        } else if t1 != ti {
            assert(ph2[t1] == ph[t1]);
        } else if t2 != ti {
            assert(ph2[t2] == ph[t2]);
        }
    }
    assert forall|t1: int, t2: int|
        0 <= t1 < 15 && 0 <= t2 < 15 && #[trigger] ph2[t1] == Phase::Writing implies #[trigger] ph2[t2]
            != Phase::Reading by {
        if t1 != ti && t2 != ti {
            assert(ph2[t1] == ph[t1] && ph2[t2] == ph[t2]);
        } else if t1 != ti {
            assert(ph2[t1] == ph[t1]);
        } else if t2 != ti {
            assert(ph2[t2] == ph[t2]);
        }
    }
}

/// Under the protocol's invariant a cell has either one writer and no reader, or no
/// writer and any number of readers.
pub proof fn lemma_mutual_exclusion(w: u32, ph: Seq<Phase>)
    requires
        protocol_inv(w, ph),
    ensures
        forall|t1: int, t2: int|
            0 <= t1 < 15 && 0 <= t2 < 15 && #[trigger] ph[t1] == Phase::Writing && #[trigger] ph[t2]
                == Phase::Writing ==> t1 == t2,
        forall|t1: int, t2: int|
            0 <= t1 < 15 && 0 <= t2 < 15 && #[trigger] ph[t1] == Phase::Writing ==> #[trigger] ph[t2]
                != Phase::Reading,
{
    assert forall|t1: int, t2: int|
        0 <= t1 < 15 && 0 <= t2 < 15 && #[trigger] ph[t1] == Phase::Writing && #[trigger] ph[t2]
            == Phase::Writing implies t1 == t2 by {
        assert(flag_owner(ph[t1]) && flag_owner(ph[t2]));
    }
}

/// Downgrading turns the writer into a reader in one step: no other thread moves in
/// between, the cell is never free, and afterwards no thread writes.
pub proof fn lemma_downgrade_keeps_hold(w: u32, ph: Seq<Phase>, t: u32)
    requires
        protocol_inv(w, ph),
        t < 15,
        ph[t as int] == Phase::Writing,
    ensures
        ({
            let w2 = step_word(w, ph, t, Step::Downgrade);
            let ph2 = ph.update(t as int, step_phase(w, t, Step::Downgrade));
            &&& protocol_inv(w2, ph2)
            &&& ph2[t as int] == Phase::Reading
            &&& bit(w2, t)
            &&& !bit(w2, 31)
            &&& forall|u: int| 0 <= u < 15 && u != t ==> #[trigger] ph2[u] == ph[u]
            &&& forall|u: int| 0 <= u < 15 ==> #[trigger] ph2[u] != Phase::Writing
        }),
{
    lemma_protocol_step(w, ph, t, Step::Downgrade);
    let w2 = step_word(w, ph, t, Step::Downgrade);
    let ph2 = ph.update(t as int, Phase::Reading);
    assert forall|u: int| 0 <= u < 15 implies #[trigger] ph2[u] != Phase::Writing by {
        if u != t as int {
            assert(flag_owner(ph[t as int]));
            if ph[u] == Phase::Writing {
                assert(flag_owner(ph[u]));
            }
        }
    }
    let w1 = w ^ (1u32 << (16u32 + t));
    let w3 = w1 ^ (1u32 << 31u32);
    lemma_bit_xor(w, (16u32 + t) as u32);
    lemma_bit_xor(w1, 31u32);
    lemma_bit_xor(w3, t);
    assert(bit(w, 31));
}

proof fn lemma_high_bits_clear(w: u32, k: u32)
    requires
        k <= 32,
        forall|j: u32| k <= j < 32 ==> !#[trigger] bit(w, j),
    ensures
        k < 32 ==> w >> k == 0,
    decreases 32 - k,
{
    if k < 32 {
        lemma_high_bits_clear(w, (k + 1) as u32);
        assert(!bit(w, k));
        if k + 1 < 32 {
            assert((w >> ((k + 1) as u32)) == 0 && (w >> k) & 1u32 != 1u32 && k < 31u32 ==> w >> k == 0)
                by (bit_vector);
        } else {
            assert(k == 31u32 && (w >> k) & 1u32 != 1u32 ==> w >> k == 0) by (bit_vector);
        }
    }
}

proof fn lemma_low_bits_clear(w: u32, k: u32)
    requires
        k <= 15,
        forall|j: u32| j < k ==> !#[trigger] bit(w, j),
    ensures
        w & (((1u32 << k) - 1u32) as u32) == 0,
    decreases k,
{
    assert(1u32 << k >= 1u32) by (bit_vector)
        requires
            k <= 15u32,
    ;
    if k == 0 {
        assert(w & (((1u32 << 0u32) - 1u32) as u32) == 0) by (bit_vector);
    } else {
        let k1 = (k - 1) as u32;
        lemma_low_bits_clear(w, k1);
        assert(!bit(w, k1));
        assert(1u32 << k1 >= 1u32) by (bit_vector)
            requires
                k1 < 15u32,
        ;
        assert(w & (((1u32 << k1) - 1u32) as u32) == 0 && (w >> k1) & 1u32 != 1u32 && k1 < 15u32 && k
            == k1 + 1 ==> w & (((1u32 << k) - 1u32) as u32) == 0) by (bit_vector);
    }
}

/// When no thread holds the cell or is in the middle of an attempt, the next attempt
/// of an idle reader succeeds, and so does the next attempt of the highest-numbered
/// thread that waits to write.
pub proof fn lemma_quiet_cell_grants(w: u32, ph: Seq<Phase>, t: u32)
    requires
        protocol_inv(w, ph),
        t < 15,
        forall|u: int| 0 <= u < 15 ==> #[trigger] ph[u] == Phase::Idle || ph[u] == Phase::WriteWaiting,
    ensures
        read_granted(w),
        ph[t as int] == Phase::WriteWaiting && (forall|u: int| t < u < 15 ==> #[trigger] ph[u] != Phase::WriteWaiting)
            ==> write_granted(w, t),
{
    lemma_granted_bits(w, t);
    assert(!bit(w, 31)) by {
        if bit(w, 31) {
            let o = choose|o: int| 0 <= o < 15 && flag_owner(#[trigger] ph[o]);
            assert(ph[o] == Phase::Idle || ph[o] == Phase::WriteWaiting);
        }
    }
    assert forall|j: u32| j < 15 implies !#[trigger] bit(w, j) by {
        assert(ph[j as int] == Phase::Idle || ph[j as int] == Phase::WriteWaiting);
    }
    lemma_low_bits_clear(w, 15);
    assert((((1u32 << 15u32) - 1u32) as u32) == 0x7fffu32) by (bit_vector);
    if ph[t as int] == Phase::WriteWaiting && (forall|u: int| t < u < 15 ==> #[trigger] ph[u] != Phase::WriteWaiting) {
        assert forall|j: u32| 17 + t <= j < 32 implies !#[trigger] bit(w, j) by {
            if j < 31 {
                let u = j - 16;
                assert(ph[u] == Phase::Idle || ph[u] == Phase::WriteWaiting);
                assert(ph[u] != Phase::WriteWaiting);
                assert(!holds_pending_bit(ph[u]));
                assert((16 + u) as u32 == j);
            }
        }
        lemma_high_bits_clear(w, (17 + t) as u32);
        assert(w >> ((17 + t) as u32) == 0 && t < 15u32 ==> w & !(((2u32 << (16u32 + t)) - 1u32) as u32) == 0)
            by (bit_vector);
    }
}

/// The semaphore word of a cell: bit 31 marks an active writer, bit `16 + t` a
/// thread `t` that waits to write or writes, bit `t` a read slot held by thread `t`.
#[derive(Clone, Copy, Debug, PartialEq, Eq, Structural)]
pub struct BitMask {
    pub word: u32,
}

impl BitMask {
    pub const WRITE_FLAG: u32 = 0b10_000000000000000_000000000000000;
    /// Bit 15, below every pending-writer bit: no thread owns it.
    pub const LOCK_VALUE: u32 = 0b00_000000000000001_000000000000000;
    pub const NON_READ_FLAGS: u32 = 0b11_111111111111111_000000000000000;
    pub const READ_FLAGS: u32 = 0b00_000000000000000_111111111111111;

    pub fn new(v: u32) -> (r: Self)
        ensures
            r.word == v,
    {
        BitMask { word: v }
    }

    /// The read slot of thread `thread`.
    pub fn generate_read_flag(thread: u32) -> (r: u32)
        requires
            thread < THREAD_SLOTS,
        ensures
            r == reader_bit(thread),
    {
        1u32 << thread
    }

    /// The pending-writer bit of thread `thread`.
    pub fn generate_pending_flag(thread: u32) -> (r: u32)
        requires
            thread < THREAD_SLOTS,
        ensures
            r == pending_bit(thread),
    {
        1u32 << (16u32 + thread)
    }

    /// Whether a read attempt that saw `prev` holds the cell.
    pub fn read_granted(prev: u32) -> (r: bool)
        ensures
            r == read_granted(prev),
    {
        prev & Self::WRITE_FLAG == 0
    }

    /// Whether a write attempt of `thread` that saw `prev` holds the cell.
    pub fn write_granted(prev: u32, thread: u32) -> (r: bool)
        requires
            thread < THREAD_SLOTS,
        ensures
            r == write_granted(prev, thread),
    {
        assert(2u32 << (16u32 + thread) >= 1u32) by (bit_vector)
            requires
                thread < 15u32,
        ;
        let above: u32 = !((2u32 << (16u32 + thread)) - 1u32);
        prev & above == 0 && prev & Self::READ_FLAGS == 0
    }

    /// One read attempt of `thread` by a thread that runs alone on the word: it sets
    /// its read slot, and takes it back when a writer was active.
    pub fn try_read(&mut self, thread: u32) -> (r: bool)
        requires
            thread < THREAD_SLOTS,
            !bit(old(self).word, thread),
        ensures
            r == read_granted(old(self).word),
            final(self).word == (if r {
                old(self).word | reader_bit(thread)
            } else {
                old(self).word
            }),
    {
        let prev = self.word;
        let rb = Self::generate_read_flag(thread);
        self.word = prev | rb;
        if Self::read_granted(prev) {
            true
        } else {
            assert((prev >> thread) & 1u32 != 1u32 && thread < 15u32 ==> ((prev | (1u32 << thread))
                ^ (1u32 << thread)) == prev) by (bit_vector);
            self.word = self.word ^ rb;
            false
        }
    }

    /// One write attempt of `thread` by a thread that runs alone on the word: it sets
    /// its pending bit and the writer-active flag; on failure its pending bit stays
    /// set and the flag is cleared again if this attempt is what set it.
    pub fn try_write(&mut self, thread: u32) -> (r: bool)
        requires
            thread < THREAD_SLOTS,
        ensures
            r == write_granted(old(self).word, thread),
            final(self).word == (if r {
                old(self).word | pending_bit(thread) | Self::WRITE_FLAG
            } else {
                old(self).word | pending_bit(thread)
            }),
    {
        let prev = self.word;
        let pb = Self::generate_pending_flag(thread);
        self.word = prev | pb | Self::WRITE_FLAG;
        if Self::write_granted(prev, thread) {
            true
        } else {
            if prev & Self::WRITE_FLAG == 0 {
                assert(prev & 0x8000_0000u32 == 0 && thread < 15u32 ==> (prev | (1u32 << (16u32
                    + thread)) | 0x8000_0000u32) & !0x8000_0000u32 == prev | (1u32 << (16u32
                    + thread))) by (bit_vector);
                self.word = self.word & !Self::WRITE_FLAG;
            } else {
                assert(prev & 0x8000_0000u32 != 0 ==> (prev | (1u32 << (16u32 + thread))
                    | 0x8000_0000u32) == prev | (1u32 << (16u32 + thread))) by (bit_vector);
            }
            false
        }
    }

    /// Gives back the read slot of `thread`.
    pub fn release_read(&mut self, thread: u32)
        requires
            thread < THREAD_SLOTS,
        ensures
            final(self).word == old(self).word ^ reader_bit(thread),
    {
        self.word = self.word ^ Self::generate_read_flag(thread);
    }

    /// Gives back the write slot of `thread` and its pending bit.
    pub fn release_write(&mut self, thread: u32)
        requires
            thread < THREAD_SLOTS,
        ensures
            final(self).word == old(self).word ^ (pending_bit(thread) | Self::WRITE_FLAG),
    {
        self.word = self.word ^ (Self::generate_pending_flag(thread) | Self::WRITE_FLAG);
    }

    /// Turns the write slot of `thread` into a read slot with a single update of the
    /// word.
    pub fn downgrade(&mut self, thread: u32)
        requires
            thread < THREAD_SLOTS,
        ensures
            final(self).word == old(self).word ^ (pending_bit(thread) | Self::WRITE_FLAG
                | reader_bit(thread)),
    {
        self.word = self.word ^ (Self::generate_pending_flag(thread) | Self::WRITE_FLAG
            | Self::generate_read_flag(thread));
    }
}

/// One stored component as it is read out of the arena: its semaphore word and its
/// value.
pub struct FrostyBox<T> {
    pub semaphore: BitMask,
    pub data: T,
}

impl<T> FrostyBox<T> {
    pub fn new(data: T) -> (r: Self)
        ensures
            r.semaphore.word == 0,
            r.data == data,
    {
        FrostyBox { semaphore: BitMask::new(0), data }
    }

    /// One read attempt of `thread` on the cell.
    pub fn get_access(&mut self, thread: u32) -> (r: bool)
        requires
            thread < THREAD_SLOTS,
            !bit(old(self).semaphore.word, thread),
        ensures
            r == read_granted(old(self).semaphore.word),
            final(self).semaphore.word == (if r {
                old(self).semaphore.word | reader_bit(thread)
            } else {
                old(self).semaphore.word
            }),
            final(self).data == old(self).data,
    {
        self.semaphore.try_read(thread)
    }

    /// One write attempt of `thread` on the cell.
    pub fn get_access_mut(&mut self, thread: u32) -> (r: bool)
        requires
            thread < THREAD_SLOTS,
        ensures
            r == write_granted(old(self).semaphore.word, thread),
            final(self).semaphore.word == (if r {
                old(self).semaphore.word | pending_bit(thread) | BitMask::WRITE_FLAG
            } else {
                old(self).semaphore.word | pending_bit(thread)
            }),
            final(self).data == old(self).data,
    {
        self.semaphore.try_write(thread)
    }

    pub fn drop_read_access(&mut self, thread: u32)
        requires
            thread < THREAD_SLOTS,
        ensures
            final(self).semaphore.word == old(self).semaphore.word ^ reader_bit(thread),
            final(self).data == old(self).data,
    {
        self.semaphore.release_read(thread)
    }

    pub fn drop_write_access(&mut self, thread: u32)
        requires
            thread < THREAD_SLOTS,
        ensures
            final(self).semaphore.word == old(self).semaphore.word ^ (pending_bit(thread)
                | BitMask::WRITE_FLAG),
            final(self).data == old(self).data,
    {
        self.semaphore.release_write(thread)
    }

    pub fn get_ref(&self) -> (r: &T)
        ensures
            *r == self.data,
    {
        &self.data
    }

    pub fn get_mut(&mut self) -> (r: &mut T)
        ensures
            *r == old(self).data,
            final(self).data == *final(r),
            final(self).semaphore == old(self).semaphore,
    {
        &mut self.data
    }

    /// Replaces the value, keeping the semaphore word.
    pub fn set_data(&mut self, data: T)
        ensures
            final(self).data == data,
            final(self).semaphore == old(self).semaphore,
    {
        self.data = data;
    }
}

} // verus!
