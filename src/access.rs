use vstd::prelude::*;

verus! {

/// A name for a stored object.
#[derive(Clone, Copy, Debug, PartialEq, Eq, Hash, Structural)]
pub struct AllocName {
    pub uoid: u64,
}

/// The type tag of a component type.
#[derive(Clone, Copy, Debug, PartialEq, Eq, Hash, Structural)]
pub struct AllocId {
    pub uid: u64,
}

impl AllocId {
    pub fn new(val: u64) -> (r: Self)
        ensures
            r.uid == val,
    {
        AllocId { uid: val }
    }
}

/// A value that can live in the arena: it has a type tag and a fixed-size byte
/// form from which it is read back unchanged.
pub trait FrostyAllocatable: Sized {
    spec fn type_tag() -> u64;

    spec fn byte_len() -> nat;

    spec fn encode(v: Self) -> Seq<u8>;

    spec fn decode(b: Seq<u8>) -> Self;

    proof fn lemma_codec(v: Self)
        ensures
            Self::encode(v).len() == Self::byte_len(),
            Self::decode(Self::encode(v)) == v,
    ;

    fn id() -> (r: AllocId)
        ensures
            r.uid == Self::type_tag(),
    ;

    /// The byte length, or `usize::MAX` for a type too large to store.
    fn size() -> (r: usize)
        ensures
            r == (if Self::byte_len() <= usize::MAX {
                Self::byte_len()
            } else {
                usize::MAX as nat
            }),
    ;

    fn to_bytes(&self) -> (r: Vec<u8>)
        ensures
            r@ == Self::encode(*self),
    ;

    fn from_bytes(b: &[u8]) -> (r: Self)
        requires
            b@.len() == Self::byte_len(),
        ensures
            r == Self::decode(b@),
    ;
}

/// The four little-endian bytes of `v`.
pub open spec fn u32_le(v: u32) -> Seq<u8> {
    seq![
        (v & 0xff) as u8,
        ((v >> 8u32) & 0xff) as u8,
        ((v >> 16u32) & 0xff) as u8,
        ((v >> 24u32) & 0xff) as u8,
    ]
}

/// The `u32` whose little-endian bytes are the first four of `b`.
pub open spec fn u32_of_le(b: Seq<u8>) -> u32 {
    (b[0] as u32) | ((b[1] as u32) << 8u32) | ((b[2] as u32) << 16u32) | ((b[3] as u32) << 24u32)
}

pub proof fn lemma_u32_le(v: u32)
    ensures
        u32_le(v).len() == 4,
        u32_of_le(u32_le(v)) == v,
{
    let b = u32_le(v);
    assert(b[0] as u32 == v & 0xff) by {
        assert(v & 0xff <= 0xff) by (bit_vector);
    }
    assert(b[1] as u32 == (v >> 8u32) & 0xff) by {
        assert((v >> 8u32) & 0xff <= 0xff) by (bit_vector);
    }
    assert(b[2] as u32 == (v >> 16u32) & 0xff) by {
        assert((v >> 16u32) & 0xff <= 0xff) by (bit_vector);
    }
    assert(b[3] as u32 == (v >> 24u32) & 0xff) by {
        assert((v >> 24u32) & 0xff <= 0xff) by (bit_vector);
    }
    assert((v & 0xff) | (((v >> 8u32) & 0xff) << 8u32) | (((v >> 16u32) & 0xff) << 16u32) | (((v
        >> 24u32) & 0xff) << 24u32) == v) by (bit_vector);
}

/// Little-endian bytes of a `u32`.
pub fn u32_to_le(v: u32) -> (r: Vec<u8>)
    ensures
        r@ == u32_le(v),
{
    let mut r: Vec<u8> = Vec::new();
    r.push((v & 0xff) as u8);
    r.push(((v >> 8u32) & 0xff) as u8);
    r.push(((v >> 16u32) & 0xff) as u8);
    r.push(((v >> 24u32) & 0xff) as u8);
    assert(r@ =~= u32_le(v));
    r
}

/// The `u32` read from four little-endian bytes.
pub fn u32_from_le(b: &[u8]) -> (r: u32)
    requires
        b@.len() >= 4,
    ensures
        r == u32_of_le(b@),
{
    (b[0] as u32) | ((b[1] as u32) << 8u32) | ((b[2] as u32) << 16u32) | ((b[3] as u32) << 24u32)
}

/// The eight little-endian bytes of `v`.
pub open spec fn u64_le(v: u64) -> Seq<u8> {
    u32_le((v & 0xffff_ffff) as u32) + u32_le((v >> 32u64) as u32)
}

/// The `u64` whose little-endian bytes are the first eight of `b`.
pub open spec fn u64_of_le(b: Seq<u8>) -> u64 {
    (u32_of_le(b) as u64) | ((u32_of_le(b.subrange(4, 8)) as u64) << 32u64)
}

pub proof fn lemma_u64_le(v: u64)
    ensures
        u64_le(v).len() == 8,
        u64_of_le(u64_le(v)) == v,
{
    let lo = (v & 0xffff_ffff) as u32;
    let hi = (v >> 32u64) as u32;
    lemma_u32_le(lo);
    lemma_u32_le(hi);
    let b = u64_le(v);
    assert(b.subrange(0, 4) =~= u32_le(lo));
    assert(b.subrange(4, 8) =~= u32_le(hi));
    assert(u32_of_le(b) == u32_of_le(b.subrange(0, 4)));
    assert(v & 0xffff_ffff <= 0xffff_ffff) by (bit_vector);
    assert(v >> 32u64 <= 0xffff_ffff) by (bit_vector);
    assert(((v & 0xffff_ffff) | ((v >> 32u64) << 32u64)) == v) by (bit_vector);
}

impl FrostyAllocatable for u32 {
    open spec fn type_tag() -> u64 {
        2
    }

    open spec fn byte_len() -> nat {
        4
    }

    open spec fn encode(v: u32) -> Seq<u8> {
        u32_le(v)
    }

    open spec fn decode(b: Seq<u8>) -> u32 {
        u32_of_le(b)
    }

    proof fn lemma_codec(v: u32) {
        lemma_u32_le(v);
    }

    fn id() -> (r: AllocId) {
        AllocId::new(2)
    }

    fn size() -> (r: usize) {
        4
    }

    fn to_bytes(&self) -> (r: Vec<u8>) {
        u32_to_le(*self)
    }

    fn from_bytes(b: &[u8]) -> (r: u32) {
        u32_from_le(b)
    }
}

impl FrostyAllocatable for u64 {
    open spec fn type_tag() -> u64 {
        3
    }

    open spec fn byte_len() -> nat {
        8
    }

    open spec fn encode(v: u64) -> Seq<u8> {
        u64_le(v)
    }

    open spec fn decode(b: Seq<u8>) -> u64 {
        u64_of_le(b)
    }

    proof fn lemma_codec(v: u64) {
        lemma_u64_le(v);
    }

    fn id() -> (r: AllocId) {
        AllocId::new(3)
    }

    fn size() -> (r: usize) {
        8
    }

    fn to_bytes(&self) -> (r: Vec<u8>) {
        let lo = u32_to_le((*self & 0xffff_ffff) as u32);
        let hi = u32_to_le((*self >> 32u64) as u32);
        let mut r = lo;
        let mut i: usize = 0;
        while i < 4
            invariant
                i <= 4,
                hi@ == u32_le((*self >> 32u64) as u32),
                r@ == u32_le((*self & 0xffff_ffff) as u32) + hi@.subrange(0, i as int),
            decreases 4 - i,
        {
            r.push(hi[i]);
            i = i + 1;
            assert(r@ =~= u32_le((*self & 0xffff_ffff) as u32) + hi@.subrange(0, i as int));
        }
        assert(hi@.subrange(0, 4) =~= hi@);
        r
    }

    fn from_bytes(b: &[u8]) -> (r: u64) {
        let lo = u32_from_le(b);
        let hi_bytes = slice_range(b, 4, 8);
        let hi = u32_from_le(hi_bytes.as_slice());
        (lo as u64) | ((hi as u64) << 32u64)
    }
}

impl FrostyAllocatable for i32 {
    open spec fn type_tag() -> u64 {
        8
    }

    open spec fn byte_len() -> nat {
        4
    }

    open spec fn encode(v: i32) -> Seq<u8> {
        u32_le(v as u32)
    }

    open spec fn decode(b: Seq<u8>) -> i32 {
        u32_of_le(b) as i32
    }

    proof fn lemma_codec(v: i32) {
        lemma_u32_le(v as u32);
        assert((v as u32) as i32 == v) by (bit_vector);
    }

    fn id() -> (r: AllocId) {
        AllocId::new(8)
    }

    fn size() -> (r: usize) {
        4
    }

    fn to_bytes(&self) -> (r: Vec<u8>) {
        u32_to_le(*self as u32)
    }

    fn from_bytes(b: &[u8]) -> (r: i32) {
        u32_from_le(b) as i32
    }
}

impl FrostyAllocatable for u8 {
    open spec fn type_tag() -> u64 {
        0
    }

    open spec fn byte_len() -> nat {
        1
    }

    open spec fn encode(v: u8) -> Seq<u8> {
        seq![v]
    }

    open spec fn decode(b: Seq<u8>) -> u8 {
        b[0]
    }

    proof fn lemma_codec(v: u8) {
    }

    fn id() -> (r: AllocId) {
        AllocId::new(0)
    }

    fn size() -> (r: usize) {
        1
    }

    fn to_bytes(&self) -> (r: Vec<u8>) {
        let mut r: Vec<u8> = Vec::new();
        r.push(*self);
        assert(r@ =~= seq![*self]);
        r
    }

    fn from_bytes(b: &[u8]) -> (r: u8) {
        b[0]
    }
}

impl FrostyAllocatable for i64 {
    open spec fn type_tag() -> u64 {
        9
    }

    open spec fn byte_len() -> nat {
        8
    }

    open spec fn encode(v: i64) -> Seq<u8> {
        u64_le(v as u64)
    }

    open spec fn decode(b: Seq<u8>) -> i64 {
        u64_of_le(b) as i64
    }

    proof fn lemma_codec(v: i64) {
        lemma_u64_le(v as u64);
        assert((v as u64) as i64 == v) by (bit_vector);
    }

    fn id() -> (r: AllocId) {
        AllocId::new(9)
    }

    fn size() -> (r: usize) {
        8
    }

    fn to_bytes(&self) -> (r: Vec<u8>) {
        (*self as u64).to_bytes()
    }

    fn from_bytes(b: &[u8]) -> (r: i64) {
        u64::from_bytes(b) as i64
    }
}

/// Tags of `Tagged` types: the high bits `10`, apart from the tags of the primitive
/// types and of `Tagged2` types.
pub const TAGGED_SPACE: u64 = 0x8000_0000_0000_0000;

/// Tags of `Tagged2` types: the high bits `11`.
pub const TAGGED2_SPACE: u64 = 0xC000_0000_0000_0000;

/// The low bits that a user's tag keeps.
pub const TAG_BITS: u64 = 0x3FFF_FFFF_FFFF_FFFF;

/// A component type of its own, named by the tag `TAG`, whose value is two values
/// stored side by side: the bytes of the first, then those of the second.
#[derive(Debug, PartialEq, Eq)]
pub struct Tagged2<const TAG: u64, A, B>(pub A, pub B);

impl<const TAG: u64, A: FrostyAllocatable, B: FrostyAllocatable> FrostyAllocatable for Tagged2<TAG, A, B> {
    open spec fn type_tag() -> u64 {
        (TAG & TAG_BITS) | TAGGED2_SPACE
    }

    open spec fn byte_len() -> nat {
        A::byte_len() + B::byte_len()
    }

    open spec fn encode(v: Tagged2<TAG, A, B>) -> Seq<u8> {
        A::encode(v.0) + B::encode(v.1)
    }

    open spec fn decode(b: Seq<u8>) -> Tagged2<TAG, A, B> {
        Tagged2(
            A::decode(b.subrange(0, A::byte_len() as int)),
            B::decode(b.subrange(A::byte_len() as int, b.len() as int)),
        )
    }

    proof fn lemma_codec(v: Tagged2<TAG, A, B>) {
        A::lemma_codec(v.0);
        B::lemma_codec(v.1);
        let e = A::encode(v.0) + B::encode(v.1);
        assert(e.subrange(0, A::byte_len() as int) =~= A::encode(v.0));
        assert(e.subrange(A::byte_len() as int, e.len() as int) =~= B::encode(v.1));
    }

    fn id() -> (r: AllocId) {
        AllocId::new((TAG & TAG_BITS) | TAGGED2_SPACE)
    }

    fn size() -> (r: usize) {
        let a = A::size();
        let b = B::size();
        if a > usize::MAX - b {
            // A pair this large has no cell that could hold it.
            usize::MAX
        } else {
            a + b
        }
    }

    fn to_bytes(&self) -> (r: Vec<u8>) {
        let mut r = self.0.to_bytes();
        let mut rest = self.1.to_bytes();
        r.append(&mut rest);
        r
    }

    fn from_bytes(b: &[u8]) -> (r: Tagged2<TAG, A, B>) {
        let a = A::size();
        let first = slice_range(b, 0, a);
        let second = slice_range(b, a, b.len());
        Tagged2(A::from_bytes(first.as_slice()), B::from_bytes(second.as_slice()))
    }
}

/// The tags of `Tagged` types, of `Tagged2` types and of the primitive types lie in
/// three ranges apart from each other, so no two of these types share a tag unless
/// they are both `Tagged`, or both `Tagged2`, with the same `TAG`.
pub proof fn lemma_tag_spaces_apart(t1: u64, t2: u64)
    ensures
        (t1 & TAG_BITS) | TAGGED_SPACE != (t2 & TAG_BITS) | TAGGED2_SPACE,
        (t1 & TAG_BITS) | TAGGED_SPACE >= 0x4000_0000_0000_0000,
        (t2 & TAG_BITS) | TAGGED2_SPACE >= 0x4000_0000_0000_0000,
{
    assert((t1 & 0x3FFF_FFFF_FFFF_FFFFu64) | 0x8000_0000_0000_0000u64 != (t2 & 0x3FFF_FFFF_FFFF_FFFFu64)
        | 0xC000_0000_0000_0000u64) by (bit_vector);
    assert((t1 & 0x3FFF_FFFF_FFFF_FFFFu64) | 0x8000_0000_0000_0000u64 >= 0x4000_0000_0000_0000u64) by (bit_vector);
    assert((t2 & 0x3FFF_FFFF_FFFF_FFFFu64) | 0xC000_0000_0000_0000u64 >= 0x4000_0000_0000_0000u64) by (bit_vector);
}

/// A component type of its own, named by the tag `TAG`, whose value is a `T`. The
/// tag names the type: two component types of a program take two tags.
#[derive(Debug, PartialEq, Eq)]
pub struct Tagged<const TAG: u64, T>(pub T);

impl<const TAG: u64, T: FrostyAllocatable> FrostyAllocatable for Tagged<TAG, T> {
    open spec fn type_tag() -> u64 {
        (TAG & TAG_BITS) | TAGGED_SPACE
    }

    open spec fn byte_len() -> nat {
        T::byte_len()
    }

    open spec fn encode(v: Tagged<TAG, T>) -> Seq<u8> {
        T::encode(v.0)
    }

    open spec fn decode(b: Seq<u8>) -> Tagged<TAG, T> {
        Tagged(T::decode(b))
    }

    proof fn lemma_codec(v: Tagged<TAG, T>) {
        T::lemma_codec(v.0);
    }

    fn id() -> (r: AllocId) {
        AllocId::new((TAG & TAG_BITS) | TAGGED_SPACE)
    }

    fn size() -> (r: usize) {
        T::size()
    }

    fn to_bytes(&self) -> (r: Vec<u8>) {
        self.0.to_bytes()
    }

    fn from_bytes(b: &[u8]) -> (r: Tagged<TAG, T>) {
        Tagged(T::from_bytes(b))
    }
}

/// A copy of `b[lo..hi]`.
pub fn slice_range(b: &[u8], lo: usize, hi: usize) -> (r: Vec<u8>)
    requires
        lo <= hi <= b@.len(),
    ensures
        r@ == b@.subrange(lo as int, hi as int),
{
    let mut r: Vec<u8> = Vec::new();
    let mut i: usize = lo;
    while i < hi
        invariant
            lo <= i <= hi,
            hi <= b@.len(),
            r@ == b@.subrange(lo as int, i as int),
        decreases hi - i,
    {
        r.push(b[i]);
        i = i + 1;
        assert(r@ =~= b@.subrange(lo as int, i as int));
    }
    r
}

} // verus!
