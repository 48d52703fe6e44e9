//! The byte queues between a controller and its clients.
use vstd::prelude::*;

verus! {

/// The bytes of a 64-bit number, the most significant first.
pub open spec fn be_bytes(v: u64) -> Seq<u8> {
    seq![
        (v >> 56) as u8,
        ((v >> 48) & 0xff) as u8,
        ((v >> 40) & 0xff) as u8,
        ((v >> 32) & 0xff) as u8,
        ((v >> 24) & 0xff) as u8,
        ((v >> 16) & 0xff) as u8,
        ((v >> 8) & 0xff) as u8,
        (v & 0xff) as u8,
    ]
}

/// The 64-bit number in the first eight bytes of `s`, the most significant byte first.
pub open spec fn be_value(s: Seq<u8>) -> u64 {
    (s[0] as u64) << 56 | (s[1] as u64) << 48 | (s[2] as u64) << 40 | (s[3] as u64) << 32
        | (s[4] as u64) << 24 | (s[5] as u64) << 16 | (s[6] as u64) << 8 | (s[7] as u64)
}

/// The number that was written is the number that is read.
pub proof fn lemma_be_round_trip(v: u64, rest: Seq<u8>)
    ensures
        be_value(be_bytes(v) + rest) == v,
{
    let s = be_bytes(v) + rest;
    assert(s[0] == (v >> 56) as u8 && s[1] == ((v >> 48) & 0xff) as u8);
    assert(s[2] == ((v >> 40) & 0xff) as u8 && s[3] == ((v >> 32) & 0xff) as u8);
    assert(s[4] == ((v >> 24) & 0xff) as u8 && s[5] == ((v >> 16) & 0xff) as u8);
    assert(s[6] == ((v >> 8) & 0xff) as u8 && s[7] == (v & 0xff) as u8);
    assert((((v >> 56) as u8) as u64) << 56 | ((((v >> 48) & 0xff) as u8) as u64) << 48
        | ((((v >> 40) & 0xff) as u8) as u64) << 40 | ((((v >> 32) & 0xff) as u8) as u64) << 32
        | ((((v >> 24) & 0xff) as u8) as u64) << 24 | ((((v >> 16) & 0xff) as u8) as u64) << 16
        | ((((v >> 8) & 0xff) as u8) as u64) << 8 | (((v & 0xff) as u8) as u64) == v) by (bit_vector);
}

/// The end of a queue that messages are taken from.
pub struct ReadHalf {
    pub bytes: Vec<u8>,
}

/// The end of a queue that messages are put to. It holds `capacity` bytes at most.
pub struct WriteHalf {
    pub bytes: Vec<u8>,
    pub capacity: usize,
}

impl View for ReadHalf {
    type V = Seq<u8>;

    open spec fn view(&self) -> Seq<u8> {
        self.bytes@
    }
}

impl View for WriteHalf {
    type V = Seq<u8>;

    open spec fn view(&self) -> Seq<u8> {
        self.bytes@
    }
}

/// Two queues between a client and the controller, as the controller sees them.
pub struct ShmQueue {
    pub read: ReadHalf,
    pub write: WriteHalf,
}

impl ReadHalf {
    /// Whether `n` bytes can be taken.
    pub fn available(&self, n: usize) -> (r: bool)
        ensures
            r == (n <= self@.len()),
    {
        n <= self.bytes.len()
    }

    /// The message at the front.
    pub fn controller_u64(&self) -> (r: u64)
        requires
            8 <= self@.len(),
        ensures
            r == be_value(self@),
    {
        (self.bytes[0] as u64) << 56 | (self.bytes[1] as u64) << 48 | (self.bytes[2] as u64) << 40
            | (self.bytes[3] as u64) << 32 | (self.bytes[4] as u64) << 24 | (self.bytes[5] as u64)
            << 16 | (self.bytes[6] as u64) << 8 | (self.bytes[7] as u64)
    }

    /// Take `n` bytes off the front.
    pub fn commit(&mut self, n: usize)
        requires
            n <= old(self)@.len(),
        ensures
            final(self)@ == old(self)@.skip(n as int),
    {
        let rest: Vec<u8> = self.bytes.split_off(n);
        self.bytes = rest;
    }
}

impl WriteHalf {
    /// Whether there is room for `n` more bytes.
    pub fn prepare_write(&self, n: usize) -> (r: bool)
        ensures
            r == (self@.len() + n <= self.capacity),
    {
        self.bytes.len() <= self.capacity && n <= self.capacity - self.bytes.len()
    }

    /// Put a message at the back.
    pub fn controller_u64(&mut self, v: u64)
        requires
            old(self)@.len() + 8 <= old(self).capacity,
        ensures
            final(self)@ == old(self)@ + be_bytes(v),
            final(self).capacity == old(self).capacity,
    {
        self.bytes.push((v >> 56) as u8);
        self.bytes.push(((v >> 48) & 0xff) as u8);
        self.bytes.push(((v >> 40) & 0xff) as u8);
        self.bytes.push(((v >> 32) & 0xff) as u8);
        self.bytes.push(((v >> 24) & 0xff) as u8);
        self.bytes.push(((v >> 16) & 0xff) as u8);
        self.bytes.push(((v >> 8) & 0xff) as u8);
        self.bytes.push((v & 0xff) as u8);
        assert(self@ =~= old(self)@ + be_bytes(v));
    }
}

/// The value of a message, by its bytes: each counts 256 times as much as the one behind it.
pub proof fn lemma_be_value(s: Seq<u8>)
    requires
        8 <= s.len(),
    ensures
        be_value(s) as int == 0x1_0000_0000 * (0x100_0000 * s[0] + 0x1_0000 * s[1] + 0x100 * s[2]
            + s[3]) + (0x100_0000 * s[4] + 0x1_0000 * s[5] + 0x100 * s[6] + s[7]),
{
    let (a, b, c, d) = (s[0], s[1], s[2], s[3]);
    let (e, f, g, h) = (s[4], s[5], s[6], s[7]);
    assert((a as u64) << 56 | (b as u64) << 48 | (c as u64) << 40 | (d as u64) << 32 | (e as u64)
        << 24 | (f as u64) << 16 | (g as u64) << 8 | (h as u64) == 0x1_0000_0000 * (0x100_0000 * a
        + 0x1_0000 * b + 0x100 * c + d) + (0x100_0000 * e + 0x1_0000 * f + 0x100 * g + h))
        by (bit_vector);
}

/// A number has eight bytes, and no other bytes have the same value.
pub proof fn lemma_be_bytes(s: Seq<u8>)
    requires
        s.len() == 8,
    ensures
        be_bytes(be_value(s)) == s,
{
    let (a, b, c, d) = (s[0], s[1], s[2], s[3]);
    let (e, f, g, h) = (s[4], s[5], s[6], s[7]);
    assert({
        let v = (a as u64) << 56 | (b as u64) << 48 | (c as u64) << 40 | (d as u64) << 32 | (
        e as u64) << 24 | (f as u64) << 16 | (g as u64) << 8 | (h as u64);
        &&& (v >> 56) as u8 == a
        &&& ((v >> 48) & 0xff) as u8 == b
        &&& ((v >> 40) & 0xff) as u8 == c
        &&& ((v >> 32) & 0xff) as u8 == d
        &&& ((v >> 24) & 0xff) as u8 == e
        &&& ((v >> 16) & 0xff) as u8 == f
        &&& ((v >> 8) & 0xff) as u8 == g
        &&& (v & 0xff) as u8 == h
    }) by (bit_vector);
    assert(be_bytes(be_value(s)) =~= s);
}

} // verus!
