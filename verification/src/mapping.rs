//! The bytes of a mapped file, read and written in words.
use vstd::prelude::*;
use vstd::slice::slice_subrange;

verus! {

/// `m` with the bytes from `at` on replaced by `s`.
pub open spec fn splice(m: Seq<u8>, at: int, s: Seq<u8>) -> Seq<u8> {
    Seq::new(m.len(), |i: int| if at <= i < at + s.len() { s[i - at] } else { m[i] })
}

/// The 64-bit number in the first eight bytes of `s`, the least significant byte first.
#[verifier::opaque]
pub open spec fn le64_value(s: Seq<u8>) -> u64 {
    (s[0] as u64) | (s[1] as u64) << 8 | (s[2] as u64) << 16 | (s[3] as u64) << 24 | (s[4] as u64)
        << 32 | (s[5] as u64) << 40 | (s[6] as u64) << 48 | (s[7] as u64) << 56
}

/// The bytes of a 64-bit number, the least significant first.
#[verifier::opaque]
pub open spec fn le64_bytes(v: u64) -> Seq<u8> {
    seq![
        (v & 0xff) as u8,
        ((v >> 8) & 0xff) as u8,
        ((v >> 16) & 0xff) as u8,
        ((v >> 24) & 0xff) as u8,
        ((v >> 32) & 0xff) as u8,
        ((v >> 40) & 0xff) as u8,
        ((v >> 48) & 0xff) as u8,
        ((v >> 56) & 0xff) as u8,
    ]
}

/// The 32-bit number in the first four bytes of `s`, the least significant byte first.
#[verifier::opaque]
pub open spec fn le32_value(s: Seq<u8>) -> u32 {
    (s[0] as u32) | (s[1] as u32) << 8 | (s[2] as u32) << 16 | (s[3] as u32) << 24
}

/// The bytes of a 32-bit number, the least significant first.
#[verifier::opaque]
pub open spec fn le32_bytes(v: u32) -> Seq<u8> {
    seq![
        (v & 0xff) as u8,
        ((v >> 8) & 0xff) as u8,
        ((v >> 16) & 0xff) as u8,
        ((v >> 24) & 0xff) as u8,
    ]
}

/// The 64-bit word at `at`.
pub open spec fn u64_at(m: Seq<u8>, at: int) -> u64 {
    le64_value(m.subrange(at, at + 8))
}

/// The 32-bit word at `at`.
pub open spec fn u32_at(m: Seq<u8>, at: int) -> u32 {
    le32_value(m.subrange(at, at + 4))
}

/// The signed 64-bit word at `at`.
pub open spec fn i64_at(m: Seq<u8>, at: int) -> i64 {
    u64_at(m, at) as i64
}

/// `m` after a store of `v` to the 64-bit word at `at`.
pub open spec fn with_u64(m: Seq<u8>, at: int, v: u64) -> Seq<u8> {
    splice(m, at, le64_bytes(v))
}

/// `m` after a store of `v` to the 32-bit word at `at`.
pub open spec fn with_u32(m: Seq<u8>, at: int, v: u32) -> Seq<u8> {
    splice(m, at, le32_bytes(v))
}

/// `m` after a store of `v` to the signed 64-bit word at `at`.
pub open spec fn with_i64(m: Seq<u8>, at: int, v: i64) -> Seq<u8> {
    with_u64(m, at, v as u64)
}

/// Whether the ranges `[a, a + n)` and `[b, b + k)` have no byte in common.
pub open spec fn apart(a: int, n: int, b: int, k: int) -> bool {
    a + n <= b || b + k <= a
}

/// The memory of a shared file: its bytes, and the address at which they are mapped.
pub struct Mapping {
    pub addr: usize,
    pub bytes: Vec<u8>,
}

impl View for Mapping {
    type V = Seq<u8>;

    open spec fn view(&self) -> Seq<u8> {
        self.bytes@
    }
}

impl Mapping {
    /// No mapping wraps around the end of the address space, nor is one larger than an object
    /// can be.
    pub open spec fn wf(&self) -> bool {
        self.addr + self@.len() <= usize::MAX && self@.len() <= isize::MAX
    }

    /// The mapping of `bytes` at the address `addr`.
    pub fn new(addr: usize, bytes: Vec<u8>) -> (r: Mapping)
        requires
            addr + bytes@.len() <= usize::MAX,
            bytes@.len() <= isize::MAX,
        ensures
            r.wf(),
            r.addr == addr,
            r@ == bytes@,
    {
        Mapping { addr, bytes }
    }

    pub fn len(&self) -> (r: usize)
        ensures
            r == self@.len(),
    {
        self.bytes.len()
    }

    pub fn load_u64(&self, at: usize) -> (r: u64)
        requires
            at + 8 <= self@.len(),
        ensures
            r == u64_at(self@, at as int),
    {
        assert(self.bytes.len() == self@.len());
        let b: &[u8] = slice_subrange(self.bytes.as_slice(), at, at + 8);
        proof {
            reveal(le64_value);
        }
        (b[0] as u64) | (b[1] as u64) << 8 | (b[2] as u64) << 16 | (b[3] as u64) << 24 | (
        b[4] as u64) << 32 | (b[5] as u64) << 40 | (b[6] as u64) << 48 | (b[7] as u64) << 56
    }

    pub fn load_u32(&self, at: usize) -> (r: u32)
        requires
            at + 4 <= self@.len(),
        ensures
            r == u32_at(self@, at as int),
    {
        assert(self.bytes.len() == self@.len());
        let b: &[u8] = slice_subrange(self.bytes.as_slice(), at, at + 4);
        proof {
            reveal(le32_value);
        }
        (b[0] as u32) | (b[1] as u32) << 8 | (b[2] as u32) << 16 | (b[3] as u32) << 24
    }

    pub fn load_i64(&self, at: usize) -> (r: i64)
        requires
            at + 8 <= self@.len(),
        ensures
            r == i64_at(self@, at as int),
    {
        self.load_u64(at) as i64
    }

    /// Replace the bytes from `at` on by those of `data`.
    pub fn store_bytes(&mut self, at: usize, data: &[u8])
        requires
            at + data@.len() <= old(self)@.len(),
        ensures
            final(self)@ == splice(old(self)@, at as int, data@),
            final(self).addr == old(self).addr,
    {
        let n: usize = data.len();
        let mut k: usize = 0;
        while k < n
            invariant
                k <= n == data@.len(),
                at + n <= self@.len(),
                self.addr == old(self).addr,
                self@ == splice(old(self)@, at as int, data@.take(k as int)),
            decreases n - k,
        {
            assert(self.bytes.len() == self@.len());
            self.bytes.set(at + k, data[k]);
            k = k + 1;
        }
        assert(data@.take(n as int) == data@);
    }

    pub fn store_u64(&mut self, at: usize, v: u64)
        requires
            at + 8 <= old(self)@.len(),
        ensures
            final(self)@ == with_u64(old(self)@, at as int, v),
            final(self).addr == old(self).addr,
    {
        let word: [u8; 8] = [
            (v & 0xff) as u8,
            ((v >> 8) & 0xff) as u8,
            ((v >> 16) & 0xff) as u8,
            ((v >> 24) & 0xff) as u8,
            ((v >> 32) & 0xff) as u8,
            ((v >> 40) & 0xff) as u8,
            ((v >> 48) & 0xff) as u8,
            ((v >> 56) & 0xff) as u8,
        ];
        proof {
            reveal(le64_bytes);
            assert(word@ =~= le64_bytes(v));
        }
        self.store_bytes(at, &word);
    }

    pub fn store_u32(&mut self, at: usize, v: u32)
        requires
            at + 4 <= old(self)@.len(),
        ensures
            final(self)@ == with_u32(old(self)@, at as int, v),
            final(self).addr == old(self).addr,
    {
        let word: [u8; 4] = [
            (v & 0xff) as u8,
            ((v >> 8) & 0xff) as u8,
            ((v >> 16) & 0xff) as u8,
            ((v >> 24) & 0xff) as u8,
        ];
        proof {
            reveal(le32_bytes);
            assert(word@ =~= le32_bytes(v));
        }
        self.store_bytes(at, &word);
    }

    pub fn store_i64(&mut self, at: usize, v: i64)
        requires
            at + 8 <= old(self)@.len(),
        ensures
            final(self)@ == with_i64(old(self)@, at as int, v),
            final(self).addr == old(self).addr,
    {
        self.store_u64(at, v as u64);
    }
}

/// A number has eight bytes, and is the number in them.
pub proof fn lemma_le64(v: u64)
    ensures
        le64_bytes(v).len() == 8,
        le64_value(le64_bytes(v)) == v,
{
    reveal(le64_bytes);
    reveal(le64_value);
    assert((((v & 0xff) as u8) as u64) | ((((v >> 8) & 0xff) as u8) as u64) << 8 | ((((v >> 16)
        & 0xff) as u8) as u64) << 16 | ((((v >> 24) & 0xff) as u8) as u64) << 24 | ((((v >> 32)
        & 0xff) as u8) as u64) << 32 | ((((v >> 40) & 0xff) as u8) as u64) << 40 | ((((v >> 48)
        & 0xff) as u8) as u64) << 48 | ((((v >> 56) & 0xff) as u8) as u64) << 56 == v)
        by (bit_vector);
}

/// A number has four bytes, and is the number in them.
pub proof fn lemma_le32(v: u32)
    ensures
        le32_bytes(v).len() == 4,
        le32_value(le32_bytes(v)) == v,
{
    reveal(le32_bytes);
    reveal(le32_value);
    assert((((v & 0xff) as u8) as u32) | ((((v >> 8) & 0xff) as u8) as u32) << 8 | ((((v >> 16)
        & 0xff) as u8) as u32) << 16 | ((((v >> 24) & 0xff) as u8) as u32) << 24 == v)
        by (bit_vector);
}

/// Bytes of zero are a word of zero.
pub proof fn lemma_zero_u32(m: Seq<u8>, at: int)
    requires
        0 <= at,
        at + 4 <= m.len(),
        forall|i: int| at <= i < at + 4 ==> m[i] == 0,
    ensures
        u32_at(m, at) == 0,
{
    reveal(le32_value);
    assert(0u32 | 0u32 << 8 | 0u32 << 16 | 0u32 << 24 == 0) by (bit_vector);
}

/// Bytes of zero are a word of zero, signed or not.
pub proof fn lemma_zero_u64(m: Seq<u8>, at: int)
    requires
        0 <= at,
        at + 8 <= m.len(),
        forall|i: int| at <= i < at + 8 ==> m[i] == 0,
    ensures
        u64_at(m, at) == 0,
        i64_at(m, at) == 0,
{
    reveal(le64_value);
    assert(0u64 | 0u64 << 8 | 0u64 << 16 | 0u64 << 24 | 0u64 << 32 | 0u64 << 40 | 0u64 << 48 | 0u64
        << 56 == 0) by (bit_vector);
}

/// A word reads back as it was stored.
pub broadcast proof fn lemma_u64_stored(m: Seq<u8>, at: int, v: u64)
    requires
        0 <= at,
        at + 8 <= m.len(),
    ensures
        #[trigger] u64_at(with_u64(m, at, v), at) == v,
{
    lemma_le64(v);
    assert(with_u64(m, at, v).subrange(at, at + 8) == le64_bytes(v));
}

/// A word reads back as it was stored.
pub broadcast proof fn lemma_u32_stored(m: Seq<u8>, at: int, v: u32)
    requires
        0 <= at,
        at + 4 <= m.len(),
    ensures
        #[trigger] u32_at(with_u32(m, at, v), at) == v,
{
    lemma_le32(v);
    assert(with_u32(m, at, v).subrange(at, at + 4) == le32_bytes(v));
}

/// A store leaves the words beside it as they were.
pub broadcast proof fn lemma_u64_beside_u64(m: Seq<u8>, at: int, v: u64, o: int)
    requires
        0 <= o,
        o + 8 <= m.len(),
        apart(at, 8, o, 8),
    ensures
        #[trigger] u64_at(with_u64(m, at, v), o) == u64_at(m, o),
{
    lemma_le64(v);
    assert(with_u64(m, at, v).subrange(o, o + 8) == m.subrange(o, o + 8));
}

/// A store leaves the words beside it as they were.
pub broadcast proof fn lemma_u32_beside_u64(m: Seq<u8>, at: int, v: u64, o: int)
    requires
        0 <= o,
        o + 4 <= m.len(),
        apart(at, 8, o, 4),
    ensures
        #[trigger] u32_at(with_u64(m, at, v), o) == u32_at(m, o),
{
    lemma_le64(v);
    assert(with_u64(m, at, v).subrange(o, o + 4) == m.subrange(o, o + 4));
}

/// A store leaves the words beside it as they were.
pub broadcast proof fn lemma_u64_beside_u32(m: Seq<u8>, at: int, v: u32, o: int)
    requires
        0 <= o,
        o + 8 <= m.len(),
        apart(at, 4, o, 8),
    ensures
        #[trigger] u64_at(with_u32(m, at, v), o) == u64_at(m, o),
{
    lemma_le32(v);
    assert(with_u32(m, at, v).subrange(o, o + 8) == m.subrange(o, o + 8));
}

/// A store leaves the words beside it as they were.
pub broadcast proof fn lemma_u32_beside_u32(m: Seq<u8>, at: int, v: u32, o: int)
    requires
        0 <= o,
        o + 4 <= m.len(),
        apart(at, 4, o, 4),
    ensures
        #[trigger] u32_at(with_u32(m, at, v), o) == u32_at(m, o),
{
    lemma_le32(v);
    assert(with_u32(m, at, v).subrange(o, o + 4) == m.subrange(o, o + 4));
}

/// A store keeps the length of the memory.
pub broadcast proof fn lemma_u64_store_len(m: Seq<u8>, at: int, v: u64)
    ensures
        #[trigger] with_u64(m, at, v).len() == m.len(),
{
}

/// A store keeps the length of the memory.
pub broadcast proof fn lemma_u32_store_len(m: Seq<u8>, at: int, v: u32)
    ensures
        #[trigger] with_u32(m, at, v).len() == m.len(),
{
}

/// A store to a word leaves the bytes beside it alone.
pub proof fn lemma_u32_outside(m: Seq<u8>, at: int, v: u32)
    requires
        0 <= at,
        at + 4 <= m.len(),
    ensures
        with_u32(m, at, v).len() == m.len(),
        forall|i: int|
            0 <= i < m.len() && !(at <= i < at + 4) ==> #[trigger] with_u32(m, at, v)[i] == m[i],
{
    lemma_le32(v);
}

/// A signed word reads back as it was stored.
pub broadcast proof fn lemma_i64_cast(v: i64)
    ensures
        #[trigger] ((v as u64) as i64) == v,
{
    assert(((v as u64) as i64) == v) by (bit_vector);
}

pub broadcast group group_words {
    lemma_u64_stored,
    lemma_u32_stored,
    lemma_u64_beside_u64,
    lemma_u32_beside_u64,
    lemma_u64_beside_u32,
    lemma_u32_beside_u32,
    lemma_u64_store_len,
    lemma_u32_store_len,
    lemma_i64_cast,
}

/// Replacing bytes puts the new ones in their place, and leaves all others where they are.
pub proof fn lemma_splice(m: Seq<u8>, at: int, s: Seq<u8>)
    requires
        0 <= at,
        at + s.len() <= m.len(),
    ensures
        splice(m, at, s) == m.take(at) + s + m.skip(at + s.len()),
{
    assert(splice(m, at, s) =~= m.take(at) + s + m.skip(at + s.len()));
}

/// The value of a word, by its bytes: each counts 256 times as much as the one before it.
pub proof fn lemma_u32_value(m: Seq<u8>, at: int)
    requires
        0 <= at,
        at + 4 <= m.len(),
    ensures
        u32_at(m, at) as int == m[at] + 0x100 * m[at + 1] + 0x1_0000 * m[at + 2] + 0x100_0000 * m[at
            + 3],
{
    reveal(le32_value);
    let (a, b, c, d) = (m[at], m[at + 1], m[at + 2], m[at + 3]);
    assert((a as u32) | (b as u32) << 8 | (c as u32) << 16 | (d as u32) << 24 == a + 0x100 * b
        + 0x1_0000 * c + 0x100_0000 * d) by (bit_vector);
}

/// The value of a word, by its bytes: each counts 256 times as much as the one before it. A signed
/// word is the number of the same sign that differs from it by nothing or by 2^64.
pub proof fn lemma_u64_value(m: Seq<u8>, at: int)
    requires
        0 <= at,
        at + 8 <= m.len(),
    ensures
        u64_at(m, at) as int == u32_at(m, at) + 0x1_0000_0000 * u32_at(m, at + 4),
        i64_at(m, at) as int == (if u64_at(m, at) < 0x8000_0000_0000_0000 {
            u64_at(m, at) as int
        } else {
            u64_at(m, at) - 0x1_0000_0000_0000_0000
        }),
{
    reveal(le32_value);
    reveal(le64_value);
    let (a, b, c, d) = (m[at], m[at + 1], m[at + 2], m[at + 3]);
    let (e, f, g, h) = (m[at + 4], m[at + 5], m[at + 6], m[at + 7]);
    assert((a as u64) | (b as u64) << 8 | (c as u64) << 16 | (d as u64) << 24 | (e as u64) << 32 | (
    f as u64) << 40 | (g as u64) << 48 | (h as u64) << 56 == ((a as u32) | (b as u32) << 8 | (
    c as u32) << 16 | (d as u32) << 24) + 0x1_0000_0000 * ((e as u32) | (f as u32) << 8 | (g as u32)
        << 16 | (h as u32) << 24)) by (bit_vector);
    let v = u64_at(m, at);
    assert(v as i64 == (if v < 0x8000_0000_0000_0000u64 {
        v as int
    } else {
        v - 0x1_0000_0000_0000_0000
    })) by (bit_vector);
}

/// A store puts the number where it was asked for, to be read from there, and changes no other byte.
pub proof fn lemma_stores(m: Seq<u8>, at: int, narrow: u32, wide: u64, signed: i64)
    requires
        0 <= at,
        at + 8 <= m.len(),
    ensures
        u32_at(with_u32(m, at, narrow), at) == narrow,
        u64_at(with_u64(m, at, wide), at) == wide,
        i64_at(with_i64(m, at, signed), at) == signed,
        with_u32(m, at, narrow).take(at) == m.take(at),
        with_u64(m, at, wide).take(at) == m.take(at),
        with_i64(m, at, signed).take(at) == m.take(at),
        with_u32(m, at, narrow).skip(at + 4) == m.skip(at + 4),
        with_u64(m, at, wide).skip(at + 8) == m.skip(at + 8),
        with_i64(m, at, signed).skip(at + 8) == m.skip(at + 8),
{
    lemma_le32(narrow);
    lemma_le64(wide);
    lemma_le64(signed as u64);
    lemma_u32_stored(m, at, narrow);
    lemma_u64_stored(m, at, wide);
    lemma_u64_stored(m, at, signed as u64);
    lemma_i64_cast(signed);
    assert(with_u32(m, at, narrow).skip(at + 4) =~= m.skip(at + 4));
    assert(with_u64(m, at, wide).skip(at + 8) =~= m.skip(at + 8));
    assert(with_i64(m, at, signed).skip(at + 8) =~= m.skip(at + 8));
}

/// A store to a word leaves the bytes beside it alone.
pub proof fn lemma_u64_outside(m: Seq<u8>, at: int, v: u64)
    requires
        0 <= at,
        at + 8 <= m.len(),
    ensures
        with_u64(m, at, v).len() == m.len(),
        forall|i: int|
            0 <= i < m.len() && !(at <= i < at + 8) ==> #[trigger] with_u64(m, at, v)[i] == m[i],
{
    lemma_le64(v);
}

} // verus!
