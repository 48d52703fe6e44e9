//! Operate on a ring: produce entries for the other side, and consume those that it produced.
//!
//! Construct these types through a [`Ring`].
use vstd::arithmetic::div_mod::*;
use vstd::arithmetic::mul::*;
use vstd::arithmetic::power2::*;
use vstd::prelude::*;

use crate::client::Ring;
use crate::data::{ClientSide, RingHead, RingInfo, RING_HEAD_SIZE};
use crate::frame::Shared;
use crate::mapping;

verus! {

broadcast use crate::mapping::group_words;

/// How far the count `head` is ahead of the count `tail`, when both are kept modulo 2^32.
pub open spec fn level(head: u32, tail: u32) -> int {
    if head >= tail {
        head - tail
    } else {
        head - tail + 0x1_0000_0000
    }
}

/// The count `x` as it is kept, modulo 2^32.
pub open spec fn wrapped(x: int) -> u32 {
    (x % 0x1_0000_0000) as u32
}

/// One direction of a ring, as offsets from the start of the file: the word that counts what was
/// produced, the word that counts what was consumed, and the places of the entries.
///
/// The two directions count on their own, but have their entries in the same places. So one side
/// must not produce into places where entries of the other are pending.
#[derive(Clone, Copy, Debug, PartialEq, Eq, Structural)]
pub struct Lane {
    pub head_at: usize,
    pub tail_at: usize,
    pub ring_at: usize,
    /// The number of entries that there is room for.
    pub count: usize,
}

impl Lane {
    /// The lane lies within a memory of `len` bytes, its entries having `n` each.
    pub open spec fn within(self, n: int, len: int) -> bool {
        &&& self.head_at + 4 <= len
        &&& self.tail_at + 4 <= len
        &&& self.ring_at + n * self.count <= len
    }

    /// Where the entry is that is counted with `x`.
    pub open spec fn entry_at(self, n: int, x: int) -> int {
        self.ring_at + n * ((wrapped(x) as int) % (self.count as int))
    }

    /// The entry that is counted with `x`.
    pub open spec fn entry(self, n: int, m: Seq<u8>, x: int) -> Seq<u8> {
        m.subrange(self.entry_at(n, x), self.entry_at(n, x) + n)
    }

    /// The `len` entries counted from `x` on.
    pub open spec fn entries(self, n: int, m: Seq<u8>, x: int, len: int) -> Seq<Seq<u8>> {
        Seq::new(len as nat, |k: int| self.entry(n, m, x + k))
    }

    /// What was produced and not consumed yet, in order.
    pub open spec fn pending(self, n: int, m: Seq<u8>) -> Seq<Seq<u8>> {
        let (head, tail) = (
            mapping::u32_at(m, self.head_at as int),
            mapping::u32_at(m, self.tail_at as int),
        );
        self.entries(n, m, tail as int, level(head, tail))
    }

    /// The memory `m` with `items` as the entries counted from `head` on.
    pub open spec fn stored(self, n: int, m: Seq<u8>, head: int, items: Seq<Seq<u8>>) -> Seq<u8>
        decreases items.len(),
    {
        if items.len() == 0 {
            m
        } else {
            mapping::splice(
                self.stored(n, m, head, items.drop_last()),
                self.entry_at(n, head + items.len() - 1),
                items.last(),
            )
        }
    }

    /// The lane lies within a memory of `len` bytes, and its parts do not overlap.
    pub open spec fn clear(self, n: int, len: int) -> bool {
        &&& self.within(n, len)
        &&& mapping::apart(self.head_at as int, 4, self.tail_at as int, 4)
        &&& mapping::apart(self.head_at as int, 4, self.ring_at as int, n * self.count)
        &&& mapping::apart(self.tail_at as int, 4, self.ring_at as int, n * self.count)
    }

    /// The `len` entries counted from `head` on have places of their own.
    pub open spec fn distinct(self, n: int, head: int, len: int) -> bool {
        forall|i: int, j: int|
            0 <= i < j < len ==> #[trigger] self.entry_at(n, head + i) != #[trigger] self.entry_at(
                n,
                head + j,
            )
    }

    /// A lane that works, however far it has counted: it lies within the memory, its parts do not
    /// overlap, the counts tell the places of the entries apart, and no more is pending than there
    /// is room for.
    pub open spec fn sound(self, n: int, m: Seq<u8>) -> bool {
        &&& self.clear(n, m.len() as int)
        &&& 0 < n
        &&& 0 < self.count < 0x1_0000_0000
        &&& 0x1_0000_0000int % (self.count as int) == 0
        &&& self.pending(n, m).len() <= self.count
    }

    /// The lane of `info` whose entries `side` produces.
    pub open spec fn of(info: RingInfo, head_at: usize, side: ClientSide, n: int) -> Lane {
        Lane {
            head_at: (head_at + RingHead::producer_at(side)) as usize,
            tail_at: (head_at + RingHead::consumer_at(side.opposite())) as usize,
            ring_at: info.offset_ring.0 as usize,
            count: (info.size_ring as int / n) as usize,
        }
    }
}

/// The side of a ring that produces entries.
///
/// Entries are seen by the other side once they are synchronized.
pub struct Producer<const N: usize> {
    pub lane: Lane,
    pub offset_mask: u64,
    pub cached_head: u32,
    pub cached_tail: u32,
}

/// The side of a ring that consumes the entries of the other.
///
/// The places of consumed entries are free for the other side once that is synchronized.
pub struct Consumer<const N: usize> {
    pub lane: Lane,
    pub offset_mask: u64,
    pub cached_head: u32,
    pub cached_tail: u32,
}

/// There is no room for another entry.
pub struct PushError;

/// Whether the entries of the ring can be used with a size of `n`.
pub open spec fn usable(info: RingInfo, n: int) -> bool {
    info.size_data != n
}

impl<const N: usize> Producer<N> {
    pub open spec fn on(&self, shared: &Shared) -> bool {
        self.lane.within(N as int, shared@.len() as int)
    }

    /// This works on the entries that `ring` has for it, and has seen the counts of `shared`.
    pub open spec fn opened_on(&self, ring: &Ring, shared: &Shared) -> bool {
        &&& self.lane == Lane::of(
            ring.map.info,
            ring.map.ring_slot.head_at,
            ring.map.ring_slot.side,
            N as int,
        )
        &&& self.offset_mask == ring.map.info.size_ring - 1
        &&& self.cached_head == mapping::u32_at(shared@, self.lane.head_at as int)
        &&& self.cached_tail == mapping::u32_at(shared@, self.lane.tail_at as int)
    }

    /// Produce entries of `N` bytes on the side of the ring that was joined.
    pub fn new(ring: &Ring, shared: &Shared) -> (r: Option<Producer<N>>)
        requires
            ring.on(shared),
            usable(ring.map.info, N as int) ==> is_pow2(ring.map.info.size_ring as int) && N > 0,
        ensures
            r is Some == usable(ring.map.info, N as int),
            r matches Some(p) ==> p.on(shared) && p.opened_on(ring, shared),
    {
        if ring.map.info.size_data == N as u64 {
            return None;
        }
        let side: ClientSide = ring.map.ring_slot.side;
        let lane: Lane = lane_of::<N>(ring, shared, side);
        proof {
            reveal(is_pow2);
        }
        Some(
            Producer {
                lane,
                offset_mask: ring.map.info.size_ring - 1,
                cached_head: shared.retain.load_u32(lane.head_at),
                cached_tail: shared.retain.load_u32(lane.tail_at),
            },
        )
    }

    /// How many more entries there is room for.
    pub open spec fn free(&self) -> int {
        let used = level(self.cached_head, self.cached_tail);
        if used < self.lane.count {
            self.lane.count - used
        } else {
            0
        }
    }

    /// Produce an entry, if there is room.
    pub fn push(&mut self, shared: &mut Shared, data: &[u8; N]) -> (r: Result<(), PushError>)
        requires
            old(shared).wf(),
            old(self).on(old(shared)),
        ensures
            final(shared).wf(),
            final(shared).same_place(old(shared)),
            final(shared).served == old(shared).served,
            r is Ok == (old(self).free() > 0),
            final(shared)@ == (if r is Ok {
                mapping::splice(
                    old(shared)@,
                    old(self).lane.entry_at(N as int, old(self).cached_head as int),
                    data@,
                )
            } else {
                old(shared)@
            }),
            *final(self) == (Producer {
                cached_head: if r is Ok {
                    wrapped(old(self).cached_head + 1)
                } else {
                    old(self).cached_head
                },
                ..*old(self)
            }),
    {
        if self.room() == 0 {
            return Err(PushError);
        }
        self.put(shared, data);
        Ok(())
    }

    /// How many more entries there is room for.
    fn room(&self) -> (r: usize)
        ensures
            r == self.free(),
    {
        let used: usize = self.cached_head.wrapping_sub(self.cached_tail) as usize;
        if used < self.lane.count {
            self.lane.count - used
        } else {
            0
        }
    }

    /// Write the next entry.
    fn put(&mut self, shared: &mut Shared, data: &[u8; N])
        requires
            old(shared).wf(),
            old(self).on(old(shared)),
            old(self).lane.count > 0,
        ensures
            final(shared).wf(),
            final(shared).same_place(old(shared)),
            final(shared).served == old(shared).served,
            final(shared)@ == mapping::splice(
                old(shared)@,
                old(self).lane.entry_at(N as int, old(self).cached_head as int),
                data@,
            ),
            *final(self) == (Producer {
                cached_head: wrapped(old(self).cached_head + 1),
                ..*old(self)
            }),
    {
        let index: usize = self.cached_head as usize % self.lane.count;
        proof {
            lemma_place(N as int, index as int, self.lane.count as int);
            assert(shared.retain.bytes.len() == shared@.len());
        }
        let at: usize = self.lane.ring_at + N * index;
        shared.retain.store_bytes(at, data);
        self.cached_head = self.cached_head.wrapping_add(1);
    }

    /// Produce entries for as long as there are any and there is room. This tells how many were
    /// produced.
    pub fn push_many(&mut self, shared: &mut Shared, items: &[[u8; N]]) -> (r: usize)
        requires
            old(shared).wf(),
            old(self).on(old(shared)),
        ensures
            final(shared).wf(),
            final(shared).same_place(old(shared)),
            final(shared).served == old(shared).served,
            r == (if items@.len() <= old(self).free() {
                items@.len() as int
            } else {
                old(self).free()
            }),
            final(shared)@ == old(self).lane.stored(
                N as int,
                old(shared)@,
                old(self).cached_head as int,
                items_view(items@).take(r as int),
            ),
            *final(self) == (Producer {
                cached_head: wrapped(old(self).cached_head + r),
                ..*old(self)
            }),
    {
        let room: usize = self.room();
        let mut n: usize = 0;
        let ghost all = items_view(items@);
        assert(all.take(0) =~= Seq::empty());
        while n < items.len() && n < room
            invariant
                n <= items@.len(),
                n <= room,
                room == old(self).free(),
                shared.wf(),
                shared.same_place(old(shared)),
                shared.served == old(shared).served,
                self.on(shared),
                all == items_view(items@),
                shared@ == old(self).lane.stored(
                    N as int,
                    old(shared)@,
                    old(self).cached_head as int,
                    all.take(n as int),
                ),
                *self == (Producer {
                    cached_head: wrapped(old(self).cached_head + n),
                    ..*old(self)
                }),
            decreases items@.len() - n,
        {
            self.put(shared, &items[n]);
            proof {
                assert(all.take(n + 1).drop_last() =~= all.take(n as int));
                assert(all.take(n + 1).last() == items@[n as int]@);
            }
            n = n + 1;
        }
        n
    }

    /// Let the other side see what was produced, and see what it has consumed.
    pub fn sync(&mut self, shared: &mut Shared)
        requires
            old(shared).wf(),
            old(self).on(old(shared)),
        ensures
            final(shared).wf(),
            final(shared).same_place(old(shared)),
            final(shared).served == old(shared).served,
            final(shared)@ == mapping::with_u32(
                old(shared)@,
                old(self).lane.head_at as int,
                old(self).cached_head,
            ),
            *final(self) == (Producer {
                cached_tail: mapping::u32_at(final(shared)@, old(self).lane.tail_at as int),
                ..*old(self)
            }),
    {
        shared.retain.store_u32(self.lane.head_at, self.cached_head);
        self.cached_tail = shared.retain.load_u32(self.lane.tail_at);
    }
}

impl<const N: usize> Consumer<N> {
    pub open spec fn on(&self, shared: &Shared) -> bool {
        self.lane.within(N as int, shared@.len() as int)
    }

    /// This works on the entries that `ring` has for it, and has seen the counts of `shared`.
    pub open spec fn opened_on(&self, ring: &Ring, shared: &Shared) -> bool {
        &&& self.lane == Lane::of(
            ring.map.info,
            ring.map.ring_slot.head_at,
            ring.map.ring_slot.side.opposite(),
            N as int,
        )
        &&& self.offset_mask == ring.map.info.size_ring - 1
        &&& self.cached_head == mapping::u32_at(shared@, self.lane.head_at as int)
        &&& self.cached_tail == mapping::u32_at(shared@, self.lane.tail_at as int)
    }

    /// Consume entries of `N` bytes, which the side opposite to the one that was joined produces.
    pub fn new(ring: &Ring, shared: &Shared) -> (r: Option<Consumer<N>>)
        requires
            ring.on(shared),
            usable(ring.map.info, N as int) ==> is_pow2(ring.map.info.size_ring as int) && N > 0,
        ensures
            r is Some == usable(ring.map.info, N as int),
            r matches Some(c) ==> c.on(shared) && c.opened_on(ring, shared),
    {
        if ring.map.info.size_data == N as u64 {
            return None;
        }
        let side: ClientSide = ring.map.ring_slot.side.opposite();
        let lane: Lane = lane_of::<N>(ring, shared, side);
        proof {
            reveal(is_pow2);
        }
        Some(
            Consumer {
                lane,
                offset_mask: ring.map.info.size_ring - 1,
                cached_head: shared.retain.load_u32(lane.head_at),
                cached_tail: shared.retain.load_u32(lane.tail_at),
            },
        )
    }

    /// How many entries can be consumed.
    pub open spec fn available(&self) -> int {
        let filled = level(self.cached_head, self.cached_tail);
        if filled < self.lane.count {
            filled
        } else {
            self.lane.count as int
        }
    }

    /// How many entries can be consumed.
    pub fn removable(&self) -> (r: usize)
        ensures
            r == self.available(),
    {
        let filled: usize = self.cached_head.wrapping_sub(self.cached_tail) as usize;
        if filled < self.lane.count {
            filled
        } else {
            self.lane.count
        }
    }

    /// Consume all entries that can be, in the order in which they were produced.
    pub fn iter(&mut self, shared: &Shared) -> (r: Vec<[u8; N]>)
        requires
            old(self).on(shared),
        ensures
            items_view(r@) == old(self).lane.entries(
                N as int,
                shared@,
                old(self).cached_tail as int,
                old(self).available(),
            ),
            *final(self) == (Consumer {
                cached_tail: wrapped(old(self).cached_tail + old(self).available()),
                ..*old(self)
            }),
    {
        let available: usize = self.removable();
        let mut items: Vec<[u8; N]> = Vec::new();
        let mut n: usize = 0;
        while n < available
            invariant
                n <= available,
                available == old(self).available(),
                self.on(shared),
                items@.len() == n,
                forall|k: int|
                    0 <= k < n ==> #[trigger] items@[k]@ == self.lane.entry(
                        N as int,
                        shared@,
                        old(self).cached_tail + k,
                    ),
                *self == (Consumer {
                    cached_tail: wrapped(old(self).cached_tail + n),
                    ..*old(self)
                }),
            decreases available - n,
        {
            let item: [u8; N] = self.take(shared);
            items.push(item);
            n = n + 1;
        }
        proof {
            let entries = self.lane.entries(
                N as int,
                shared@,
                old(self).cached_tail as int,
                n as int,
            );
            assert forall|k: int| 0 <= k < n implies items_view(items@)[k] == entries[k] by {
                assert(items@[k]@ == self.lane.entry(N as int, shared@, old(self).cached_tail + k));
            }
            assert(items_view(items@) =~= entries);
        }
        items
    }

    /// Read the next entry.
    fn take(&mut self, shared: &Shared) -> (r: [u8; N])
        requires
            old(self).on(shared),
            old(self).lane.count > 0,
        ensures
            r@ == old(self).lane.entry(N as int, shared@, old(self).cached_tail as int),
            *final(self) == (Consumer {
                cached_tail: wrapped(old(self).cached_tail + 1),
                ..*old(self)
            }),
    {
        let index: usize = self.cached_tail as usize % self.lane.count;
        proof {
            lemma_place(N as int, index as int, self.lane.count as int);
            assert(shared.retain.bytes.len() == shared@.len());
        }
        let at: usize = self.lane.ring_at + N * index;
        let mut item: [u8; N] = [0u8; N];
        let mut i: usize = 0;
        while i < N
            invariant
                i <= N,
                at + N <= shared@.len(),
                shared.retain.bytes@ == shared@,
                item@.len() == N,
                forall|j: int| 0 <= j < i ==> item@[j] == shared@[at + j],
            decreases N - i,
        {
            assert(shared.retain.bytes.len() == shared@.len());
            item[i] = shared.retain.bytes[at + i];
            i = i + 1;
        }
        assert(item@ =~= self.lane.entry(N as int, shared@, self.cached_tail as int));
        self.cached_tail = self.cached_tail.wrapping_add(1);
        item
    }

    /// Let the other side see what was consumed, and see what it has produced.
    pub fn sync(&mut self, shared: &mut Shared)
        requires
            old(shared).wf(),
            old(self).on(old(shared)),
        ensures
            final(shared).wf(),
            final(shared).same_place(old(shared)),
            final(shared).served == old(shared).served,
            final(shared)@ == mapping::with_u32(
                old(shared)@,
                old(self).lane.tail_at as int,
                old(self).cached_tail,
            ),
            *final(self) == (Consumer {
                cached_head: mapping::u32_at(final(shared)@, old(self).lane.head_at as int),
                ..*old(self)
            }),
    {
        shared.retain.store_u32(self.lane.tail_at, self.cached_tail);
        self.cached_head = shared.retain.load_u32(self.lane.head_at);
    }
}

/// The bytes of the entries.
pub open spec fn items_view<const N: usize>(items: Seq<[u8; N]>) -> Seq<Seq<u8>> {
    Seq::new(items.len(), |i: int| items[i]@)
}

/// The lane of a ring whose entries `side` produces.
fn lane_of<const N: usize>(ring: &Ring, shared: &Shared, side: ClientSide) -> (r: Lane)
    requires
        ring.on(shared),
        N > 0,
    ensures
        r == Lane::of(ring.map.info, ring.map.ring_slot.head_at, side, N as int),
        r.within(N as int, shared@.len() as int),
{
    proof {
        assert(shared.retain.bytes.len() == shared@.len());
        lemma_fundamental_div_mod(ring.map.info.size_ring as int, N as int);
    }
    let head_at: usize = ring.map.ring_slot.head_at;
    Lane {
        head_at: head_at + RingHead::producer_at(side),
        tail_at: head_at + RingHead::consumer_at(side.opposite()),
        ring_at: ring.map.info.offset_ring.0 as usize,
        count: ring.map.info.size_ring as usize / N,
    }
}

/// The places of the entries follow each other.
proof fn lemma_place(n: int, i: int, count: int)
    requires
        0 <= i < count,
        0 <= n,
    ensures
        0 <= n * i,
        n * i + n <= n * count,
{
    lemma_mul_inequality(0, i, n);
    lemma_mul_inequality(i + 1, count, n);
    lemma_mul_is_distributive_add(n, i, 1);
    lemma_mul_is_commutative(n, i);
    lemma_mul_is_commutative(n, i + 1);
    lemma_mul_is_commutative(n, count);
}

/// The places of entries do not overlap whose counts differ by less than there is room for.
proof fn lemma_entries_apart(lane: Lane, n: int, m: Seq<u8>, x: int, y: int)
    requires
        lane.sound(n, m),
        0 < y - x < lane.count,
    ensures
        mapping::apart(lane.entry_at(n, x), n, lane.entry_at(n, y), n),
{
    let count = lane.count as int;
    lemma_wrapped(count, x);
    lemma_wrapped(count, y);
    let (a, b) = (x % count, y % count);
    lemma_mod_differs(x, y, count);
    if a < b {
        lemma_place(n, a, b);
    } else {
        lemma_place(n, b, a);
    }
}

/// Numbers that differ by less than `count` differ modulo `count`.
proof fn lemma_mod_differs(x: int, y: int, count: int)
    requires
        0 < y - x < count,
    ensures
        x % count != y % count,
{
    let a = x % count;
    lemma_fundamental_div_mod(x, count);
    lemma_fundamental_div_mod(y, count);
    if a == y % count {
        assert(y - x == count * (y / count - x / count)) by (nonlinear_arith)
            requires
                x == count * (x / count) + a,
                y == count * (y / count) + a,
        ;
        assert(false) by (nonlinear_arith)
            requires
                0 < count * (y / count - x / count) < count,
                count > 0,
        ;
    }
}

/// Counting modulo 2^32 does not change the place of an entry.
proof fn lemma_wrapped(count: int, x: int)
    requires
        count > 0,
        0x1_0000_0000int % count == 0,
    ensures
        wrapped(x) as int % count == x % count,
        0 <= x % count < count,
{
    let q = 0x1_0000_0000int / count;
    lemma_fundamental_div_mod(0x1_0000_0000, count);
    assert(q > 0) by (nonlinear_arith)
        requires
            count * q == 0x1_0000_0000,
            count > 0,
    ;
    lemma_mod_mod(x, count, q);
}

/// An entry lies within the places of the entries.
proof fn lemma_entry_within(lane: Lane, n: int, x: int)
    requires
        0 <= n,
        0 < lane.count,
    ensures
        lane.ring_at <= lane.entry_at(n, x),
        lane.entry_at(n, x) + n <= lane.ring_at + n * lane.count,
{
    lemma_mod_bound(wrapped(x) as int, lane.count as int);
    lemma_place(n, wrapped(x) as int % lane.count as int, lane.count as int);
}

/// Entries are read back as they were stored. What is beside them is left alone.
proof fn lemma_stored(lane: Lane, n: int, m: Seq<u8>, head: int, items: Seq<Seq<u8>>)
    requires
        lane.sound(n, m),
        items.len() <= lane.count,
        forall|k: int| 0 <= k < items.len() ==> (#[trigger] items[k]).len() == n,
    ensures
        lane.stored(n, m, head, items).len() == m.len(),
        forall|i: int|
            0 <= i < m.len() && !(lane.ring_at <= i < lane.ring_at + n * lane.count)
                ==> lane.stored(n, m, head, items)[i] == m[i],
        forall|k: int|
            0 <= k < items.len() ==> lane.entry(n, lane.stored(n, m, head, items), head + k)
                == #[trigger] items[k],
        forall|x: int|
            head + items.len() - lane.count <= x < head ==> #[trigger] lane.entry(
                n,
                lane.stored(n, m, head, items),
                x,
            ) == lane.entry(n, m, x),
    decreases items.len(),
{
    let after = lane.stored(n, m, head, items);
    if items.len() > 0 {
        let (rest, y) = (items.drop_last(), head + items.len() - 1);
        let before = lane.stored(n, m, head, rest);
        assert forall|k: int| 0 <= k < rest.len() implies (#[trigger] rest[k]).len() == n by {
            assert(rest[k] == items[k]);
        }
        lemma_stored(lane, n, m, head, rest);
        lemma_entry_within(lane, n, y);
        assert(items.last() == items[items.len() - 1]);
        assert forall|x: int|
            y - lane.count < x < y implies #[trigger] lane.entry(n, after, x) == lane.entry(
            n,
            before,
            x,
        ) by {
            lemma_entries_apart(lane, n, m, x, y);
            lemma_entry_within(lane, n, x);
            assert(lane.entry(n, after, x) =~= lane.entry(n, before, x));
        }
        assert(lane.entry(n, after, y) =~= items.last());
        assert forall|k: int| 0 <= k < items.len() implies lane.entry(n, after, head + k)
            == #[trigger] items[k] by {
            if k < rest.len() {
                assert(rest[k] == items[k]);
                assert(lane.entry(n, after, head + k) == lane.entry(n, before, head + k));
            }
        }
        assert forall|x: int|
            head + items.len() - lane.count <= x < head implies #[trigger] lane.entry(n, after, x)
            == lane.entry(n, m, x) by {
            assert(lane.entry(n, after, x) == lane.entry(n, before, x));
        }
    }
}

/// The places of the entries do not change when a word beside them does.
proof fn lemma_entry_beside_word(lane: Lane, n: int, m: Seq<u8>, at: int, v: u32, x: int)
    requires
        0 <= n,
        0 < lane.count,
        lane.ring_at + n * lane.count <= m.len(),
        0 <= at,
        at + 4 <= m.len(),
        mapping::apart(at, 4, lane.ring_at as int, n * lane.count),
    ensures
        lane.entry(n, mapping::with_u32(m, at, v), x) == lane.entry(n, m, x),
{
    lemma_entry_within(lane, n, x);
    mapping::lemma_u32_outside(m, at, v);
    assert(lane.entry(n, mapping::with_u32(m, at, v), x) =~= lane.entry(n, m, x));
}

/// What is produced is pending for the other side, behind what already was, once it is
/// synchronized. It is not before that.
pub proof fn lemma_produced_is_pending(lane: Lane, n: int, m: Seq<u8>, items: Seq<Seq<u8>>)
    requires
        lane.sound(n, m),
        lane.pending(n, m).len() + items.len() <= lane.count,
        forall|k: int| 0 <= k < items.len() ==> (#[trigger] items[k]).len() == n,
    ensures
        ({
            let head = mapping::u32_at(m, lane.head_at as int);
            let stored = lane.stored(n, m, head as int, items);
            let synced = mapping::with_u32(
                stored,
                lane.head_at as int,
                wrapped(head + items.len()),
            );
            &&& lane.pending(n, stored) == lane.pending(n, m)
            &&& lane.pending(n, synced) == lane.pending(n, m) + items
            &&& lane.sound(n, stored)
            &&& lane.sound(n, synced)
        }),
{
    let (head_at, tail_at) = (lane.head_at as int, lane.tail_at as int);
    let (head, tail) = (mapping::u32_at(m, head_at), mapping::u32_at(m, tail_at));
    let stored = lane.stored(n, m, head as int, items);
    let new_head = wrapped(head + items.len());
    let synced = mapping::with_u32(stored, head_at, new_head);
    let len = level(head, tail);
    lemma_stored(lane, n, m, head as int, items);
    assert(stored.subrange(head_at, head_at + 4) =~= m.subrange(head_at, head_at + 4));
    assert(stored.subrange(tail_at, tail_at + 4) =~= m.subrange(tail_at, tail_at + 4));
    assert forall|k: int| 0 <= k < len implies #[trigger] lane.entry(n, stored, tail + k)
        == lane.entry(n, m, tail + k) by {
        let x = head - len + k;
        assert(lane.entry(n, stored, x) == lane.entry(n, m, x));
        assert(wrapped(x) == wrapped(tail + k));
    }
    assert(lane.pending(n, stored) =~= lane.pending(n, m));
    assert(lane.sound(n, stored));
    assert(mapping::u32_at(synced, tail_at) == tail);
    assert(level(new_head, tail) == len + items.len());
    assert forall|k: int| 0 <= k < len + items.len() implies #[trigger] lane.entry(
        n,
        synced,
        tail + k,
    ) == (lane.pending(n, m) + items)[k] by {
        lemma_entry_beside_word(lane, n, stored, head_at, new_head, tail + k);
        if k >= len {
            assert(lane.entry(n, stored, head + (k - len)) == items[k - len]);
            assert(wrapped(head + (k - len)) == wrapped(tail + k));
        }
    }
    assert(lane.pending(n, synced) =~= lane.pending(n, m) + items);
}

/// What is consumed is what was pending first. It is not pending any more, once that is
/// synchronized.
pub proof fn lemma_consumed_is_gone(lane: Lane, n: int, m: Seq<u8>, len: int)
    requires
        lane.sound(n, m),
        0 <= len <= lane.pending(n, m).len(),
    ensures
        ({
            let tail = mapping::u32_at(m, lane.tail_at as int);
            let synced = mapping::with_u32(m, lane.tail_at as int, wrapped(tail + len));
            &&& lane.entries(n, m, tail as int, len) == lane.pending(n, m).take(len)
            &&& lane.pending(n, synced) == lane.pending(n, m).skip(len)
            &&& lane.sound(n, synced)
        }),
{
    let (head_at, tail_at) = (lane.head_at as int, lane.tail_at as int);
    let (head, tail) = (mapping::u32_at(m, head_at), mapping::u32_at(m, tail_at));
    let new_tail = wrapped(tail + len);
    let synced = mapping::with_u32(m, tail_at, new_tail);
    assert(lane.entries(n, m, tail as int, len) =~= lane.pending(n, m).take(len));
    assert(level(head, new_tail) == level(head, tail) - len);
    assert forall|k: int| 0 <= k < level(head, new_tail) implies #[trigger] lane.entry(
        n,
        synced,
        new_tail + k,
    ) == lane.pending(n, m)[len + k] by {
        lemma_entry_beside_word(lane, n, m, tail_at, new_tail, new_tail + k);
        assert(wrapped(new_tail + k) == wrapped(tail + (len + k)));
    }
    assert(lane.pending(n, synced) =~= lane.pending(n, m).skip(len));
}

/// Entries that are stored for the other direction leave those alone that are pending, unless they
/// come to the same places.
pub proof fn lemma_other_direction(
    lane: Lane,
    other: Lane,
    n: int,
    m: Seq<u8>,
    head: int,
    items: Seq<Seq<u8>>,
)
    requires
        lane.sound(n, m),
        other.sound(n, m),
        other.ring_at == lane.ring_at,
        other.count == lane.count,
        items.len() <= lane.count,
        forall|k: int| 0 <= k < items.len() ==> (#[trigger] items[k]).len() == n,
        forall|i: int, k: int|
            0 <= i < lane.pending(n, m).len() && 0 <= k < items.len() ==> #[trigger] lane.entry_at(
                n,
                mapping::u32_at(m, lane.tail_at as int) + i,
            ) != #[trigger] other.entry_at(n, head + k),
    ensures
        lane.pending(n, other.stored(n, m, head, items)) == lane.pending(n, m),
    decreases items.len(),
{
    let after = other.stored(n, m, head, items);
    lemma_stored(other, n, m, head, items);
    let (head_at, tail_at) = (lane.head_at as int, lane.tail_at as int);
    assert(after.subrange(head_at, head_at + 4) =~= m.subrange(head_at, head_at + 4));
    assert(after.subrange(tail_at, tail_at + 4) =~= m.subrange(tail_at, tail_at + 4));
    if items.len() > 0 {
        let rest = items.drop_last();
        let before = other.stored(n, m, head, rest);
        assert forall|k: int| 0 <= k < rest.len() implies (#[trigger] rest[k]).len() == n by {
            assert(rest[k] == items[k]);
        }
        lemma_other_direction(lane, other, n, m, head, rest);
        lemma_stored(other, n, m, head, rest);
        let tail = mapping::u32_at(m, tail_at);
        let len = lane.pending(n, m).len() as int;
        let y = head + items.len() - 1;
        assert(items.last() == items[items.len() - 1]);
        assert(before.subrange(head_at, head_at + 4) =~= m.subrange(head_at, head_at + 4));
        assert(before.subrange(tail_at, tail_at + 4) =~= m.subrange(tail_at, tail_at + 4));
        assert forall|i: int| 0 <= i < len implies #[trigger] lane.entry(n, after, tail + i)
            == lane.pending(n, m)[i] by {
            assert(lane.pending(n, before)[i] == lane.entry(n, before, tail + i));
            assert(lane.entry_at(n, tail + i) != other.entry_at(n, head + (items.len() - 1)));
            lemma_places_apart(lane, n, tail + i, y);
            lemma_entry_within(lane, n, tail + i);
            lemma_entry_within(other, n, y);
            assert(lane.entry(n, after, tail + i) =~= lane.entry(n, before, tail + i));
        }
    }
    assert(lane.pending(n, after) =~= lane.pending(n, m));
}

/// The places of two entries are the same, or do not overlap.
proof fn lemma_places_apart(lane: Lane, n: int, x: int, y: int)
    requires
        0 <= n,
        0 < lane.count,
        lane.entry_at(n, x) != lane.entry_at(n, y),
    ensures
        mapping::apart(lane.entry_at(n, x), n, lane.entry_at(n, y), n),
{
    let count = lane.count as int;
    lemma_mod_bound(wrapped(x) as int, count);
    lemma_mod_bound(wrapped(y) as int, count);
    let (a, b) = (wrapped(x) as int % count, wrapped(y) as int % count);
    if a < b {
        lemma_place(n, a, b);
    } else {
        lemma_place(n, b, a);
    }
}

/// What one side of a ring produces is what the other consumes.
pub proof fn lemma_sides_meet<const N: usize>(
    producer: Producer<N>,
    sender: Ring,
    consumer: Consumer<N>,
    receiver: Ring,
    shared: &Shared,
)
    requires
        producer.opened_on(&sender, shared),
        consumer.opened_on(&receiver, shared),
        sender.map.ring_slot.head_at == receiver.map.ring_slot.head_at,
        sender.map.info.offset_ring == receiver.map.info.offset_ring,
        sender.map.info.size_ring == receiver.map.info.size_ring,
        receiver.map.ring_slot.side == sender.map.ring_slot.side.opposite(),
    ensures
        producer.lane == consumer.lane,
{
}

/// What was produced and synchronized while nothing was pending is what a consumer gets that is
/// opened afterwards: all of it, once, and in order.
pub proof fn lemma_received_as_sent(lane: Lane, n: int, m: Seq<u8>, items: Seq<Seq<u8>>)
    requires
        lane.sound(n, m),
        lane.pending(n, m).len() == 0,
        items.len() <= lane.count,
        forall|k: int| 0 <= k < items.len() ==> (#[trigger] items[k]).len() == n,
    ensures
        ({
            let head = mapping::u32_at(m, lane.head_at as int);
            let sent = mapping::with_u32(
                lane.stored(n, m, head as int, items),
                lane.head_at as int,
                wrapped(head + items.len()),
            );
            let (head, tail) = (
                mapping::u32_at(sent, lane.head_at as int),
                mapping::u32_at(sent, lane.tail_at as int),
            );
            &&& level(head, tail) == items.len()
            &&& lane.entries(n, sent, tail as int, level(head, tail)) == items
        }),
{
    lemma_produced_is_pending(lane, n, m, items);
    assert(lane.pending(n, m) + items =~= items);
}

/// Entries have places of their own if there is room for them, and either the counts do not run over
/// 2^32 from the first to the last of them, or the number of places divides 2^32.
pub proof fn lemma_distinct(lane: Lane, n: int, head: u32, len: int)
    requires
        0 < n,
        0 <= len <= lane.count,
        head + len <= 0x1_0000_0000 || 0x1_0000_0000int % (lane.count as int) == 0,
    ensures
        lane.distinct(n, head as int, len),
{
    let count = lane.count as int;
    assert forall|i: int, j: int| 0 <= i < j < len implies #[trigger] lane.entry_at(n, head + i)
        != #[trigger] lane.entry_at(n, head + j) by {
        let (x, y) = (head + i, head + j);
        if 0x1_0000_0000int % count == 0 {
            lemma_wrapped(count, x);
            lemma_wrapped(count, y);
        }
        lemma_mod_differs(x, y, count);
        lemma_mod_bound(x, count);
        lemma_mod_bound(y, count);
        let (a, b) = (x % count, y % count);
        if a < b {
            lemma_place(n, a, b);
        } else {
            lemma_place(n, b, a);
        }
    }
}

/// An entry is read back as it was written, and nothing beside its place changes.
proof fn lemma_put(lane: Lane, n: int, m: Seq<u8>, x: int, item: Seq<u8>)
    requires
        0 <= n,
        lane.within(n, m.len() as int),
        0 < lane.count,
        item.len() == n,
    ensures
        ({
            let after = mapping::splice(m, lane.entry_at(n, x), item);
            &&& after.len() == m.len()
            &&& lane.entry(n, after, x) == item
            &&& forall|i: int|
                0 <= i < m.len() && !(lane.ring_at <= i < lane.ring_at + n * lane.count)
                    ==> after[i] == m[i]
            &&& forall|y: int|
                lane.entry_at(n, y) != lane.entry_at(n, x) ==> #[trigger] lane.entry(n, after, y)
                    == lane.entry(n, m, y)
        }),
{
    let after = mapping::splice(m, lane.entry_at(n, x), item);
    lemma_entry_within(lane, n, x);
    assert(lane.entry(n, after, x) =~= item);
    assert forall|y: int| lane.entry_at(n, y) != lane.entry_at(n, x) implies #[trigger] lane.entry(
        n,
        after,
        y,
    ) == lane.entry(n, m, y) by {
        lemma_entry_within(lane, n, y);
        lemma_places_apart(lane, n, x, y);
        assert(lane.entry(n, after, y) =~= lane.entry(n, m, y));
    }
}

/// Entries with places of their own are read back as they were stored. What is beside all places is
/// left alone.
proof fn lemma_stored_distinct(lane: Lane, n: int, m: Seq<u8>, head: int, items: Seq<Seq<u8>>)
    requires
        0 < n,
        lane.within(n, m.len() as int),
        0 < lane.count,
        lane.distinct(n, head, items.len() as int),
        forall|k: int| 0 <= k < items.len() ==> (#[trigger] items[k]).len() == n,
    ensures
        lane.stored(n, m, head, items).len() == m.len(),
        forall|i: int|
            0 <= i < m.len() && !(lane.ring_at <= i < lane.ring_at + n * lane.count)
                ==> lane.stored(n, m, head, items)[i] == m[i],
        forall|k: int|
            0 <= k < items.len() ==> lane.entry(n, lane.stored(n, m, head, items), head + k)
                == #[trigger] items[k],
    decreases items.len(),
{
    if items.len() > 0 {
        let (rest, y) = (items.drop_last(), head + items.len() - 1);
        let (before, after) = (lane.stored(n, m, head, rest), lane.stored(n, m, head, items));
        assert forall|k: int| 0 <= k < rest.len() implies (#[trigger] rest[k]).len() == n by {
            assert(rest[k] == items[k]);
        }
        lemma_stored_distinct(lane, n, m, head, rest);
        lemma_put(lane, n, before, y, items.last());
        assert forall|k: int| 0 <= k < items.len() implies lane.entry(n, after, head + k)
            == #[trigger] items[k] by {
            if k < rest.len() {
                assert(rest[k] == items[k]);
                assert(lane.entry_at(n, head + k) != lane.entry_at(n, head + (items.len() - 1)));
                assert(lane.entry(n, after, head + k) == lane.entry(n, before, head + k));
            }
        }
    }
}

/// What a producer pushes and synchronizes while all that was sent before is consumed, a consumer
/// that is opened afterwards on the other side gets: just that, in order, each entry once, with its
/// bytes unchanged.
///
/// This holds whatever the size of an entry is and whatever number of them there is room for, as long
/// as the entries have places of their own; see [`lemma_distinct`]. The memory is `before` at first,
/// `pushed` after [`Producer::push_many`] and `synced` after [`Producer::sync`].
pub proof fn lemma_delivered<const N: usize>(
    sender: Ring,
    receiver: Ring,
    before: &Shared,
    producer: Producer<N>,
    items: Seq<[u8; N]>,
    n: int,
    pushed: &Shared,
    synced: &Shared,
    consumer: Consumer<N>,
)
    requires
        N > 0,
        producer.lane == Lane::of(
            sender.map.info,
            sender.map.ring_slot.head_at,
            sender.map.ring_slot.side,
            N as int,
        ),
        producer.cached_head == mapping::u32_at(before@, producer.lane.head_at as int),
        producer.cached_head == mapping::u32_at(before@, producer.lane.tail_at as int),
        consumer.opened_on(&receiver, synced),
        sender.map.ring_slot.head_at == receiver.map.ring_slot.head_at,
        sender.map.info.offset_ring == receiver.map.info.offset_ring,
        sender.map.info.size_ring == receiver.map.info.size_ring,
        receiver.map.ring_slot.side == sender.map.ring_slot.side.opposite(),
        producer.lane.clear(N as int, before@.len() as int),
        n == (if items.len() <= producer.free() {
            items.len() as int
        } else {
            producer.free()
        }),
        n < 0x1_0000_0000,
        producer.lane.distinct(N as int, producer.cached_head as int, n),
        pushed@ == producer.lane.stored(
            N as int,
            before@,
            producer.cached_head as int,
            items_view(items).take(n),
        ),
        synced@ == mapping::with_u32(
            pushed@,
            producer.lane.head_at as int,
            wrapped(producer.cached_head + n),
        ),
    ensures
        consumer.available() == n,
        consumer.lane.entries(
            N as int,
            synced@,
            consumer.cached_tail as int,
            consumer.available(),
        ) == items_view(items).take(n),
{
    let (lane, size) = (producer.lane, N as int);
    let (head, sent) = (producer.cached_head, items_view(items).take(n));
    let (head_at, tail_at) = (lane.head_at as int, lane.tail_at as int);
    assert(consumer.lane == lane);
    assert forall|k: int| 0 <= k < sent.len() implies (#[trigger] sent[k]).len() == size by {
        assert(sent[k] == items[k]@);
    }
    if n > 0 {
        lemma_stored_distinct(lane, size, before@, head as int, sent);
        assert(pushed@.subrange(tail_at, tail_at + 4) =~= before@.subrange(tail_at, tail_at + 4));
    } else {
        assert(sent =~= Seq::empty());
    }
    assert(mapping::u32_at(synced@, tail_at) == head);
    assert(mapping::u32_at(synced@, head_at) == wrapped(head + n));
    assert(level(wrapped(head + n), head) == n);
    let got = lane.entries(size, synced@, head as int, n);
    assert forall|k: int| 0 <= k < n implies got[k] == sent[k] by {
        lemma_entry_beside_word(lane, size, pushed@, head_at, wrapped(head + n), head + k);
        assert(lane.entry(size, pushed@, head + k) == sent[k]);
    }
    assert(got =~= sent);
}

/// A power of two divides every larger one.
pub proof fn lemma_pow2_divides(a: int, b: int)
    requires
        is_pow2(a),
        is_pow2(b),
        a <= b,
    ensures
        a > 0,
        b == a * (b / a),
        is_pow2(b / a),
    decreases b,
{
    reveal(is_pow2);
    if a > 1 {
        lemma_pow2_divides(a / 2, b / 2);
        let q = (b / 2) / (a / 2);
        assert(b == a * q) by (nonlinear_arith)
            requires
                a == 2 * (a / 2),
                b == 2 * (b / 2),
                b / 2 == (a / 2) * q,
        ;
        lemma_fundamental_div_mod_converse(b, a, q, 0);
    }
}

/// On a ring that nothing has happened on, nothing was sent that is not consumed. As many entries as
/// there is room for have places of their own, whatever their size is.
pub proof fn lemma_empty_lane(
    info: RingInfo,
    head_at: usize,
    side: ClientSide,
    n: int,
    m: Seq<u8>,
    len: int,
)
    requires
        0 < n,
        info.offset_ring.0 + info.size_ring <= m.len() <= usize::MAX,
        head_at + RING_HEAD_SIZE <= m.len(),
        mapping::apart(
            head_at as int,
            RING_HEAD_SIZE as int,
            info.offset_ring.0 as int,
            info.size_ring as int,
        ),
        RingHead::at(m, head_at as int) == RingHead::fresh(),
        0 <= len <= info.size_ring as int / n,
        len <= 0x1_0000_0000,
    ensures
        ({
            let lane = Lane::of(info, head_at, side, n);
            &&& lane.clear(n, m.len() as int)
            &&& lane.count == info.size_ring as int / n
            &&& mapping::u32_at(m, lane.head_at as int) == 0
            &&& mapping::u32_at(m, lane.tail_at as int) == 0
            &&& lane.distinct(n, 0, len)
        }),
{
    let lane = Lane::of(info, head_at, side, n);
    let size = info.size_ring as int;
    lemma_fundamental_div_mod(size, n);
    lemma_mod_bound(size, n);
    lemma_div_pos_is_pos(size, n);
    assert(size / n <= n * (size / n)) by (nonlinear_arith)
        requires
            n >= 1,
            size / n >= 0,
    ;
    lemma_distinct(lane, n, 0, len);
}

/// A ring that was just brought up has sound lanes, with nothing pending.
pub proof fn lemma_fresh_lane(
    info: RingInfo,
    head_at: usize,
    side: ClientSide,
    n: int,
    m: Seq<u8>,
)
    requires
        is_pow2(n),
        is_pow2(info.size_ring as int),
        n <= info.size_ring,
        info.size_ring as int / n < 0x1_0000_0000,
        info.offset_ring.0 + info.size_ring <= m.len() <= usize::MAX,
        head_at + RING_HEAD_SIZE <= m.len(),
        mapping::apart(
            head_at as int,
            RING_HEAD_SIZE as int,
            info.offset_ring.0 as int,
            info.size_ring as int,
        ),
        RingHead::at(m, head_at as int) == RingHead::fresh(),
    ensures
        Lane::of(info, head_at, side, n).sound(n, m),
        Lane::of(info, head_at, side, n).pending(n, m) == Seq::<Seq<u8>>::empty(),
{
    let lane = Lane::of(info, head_at, side, n);
    let count = info.size_ring as int / n;
    lemma_pow2_divides(n, info.size_ring as int);
    assert(is_pow2(0x1_0000_0000)) by {
        reveal_with_fuel(is_pow2, 34);
    }
    lemma_pow2_divides(count, 0x1_0000_0000);
    lemma_mul_is_commutative(count, 0x1_0000_0000int / count);
    lemma_mod_multiples_basic(0x1_0000_0000int / count, count);
    assert(lane.pending(n, m) =~= Seq::<Seq<u8>>::empty());
}

/// Counts are kept modulo 2^32, and still tell how far one is ahead of the other.
pub proof fn lemma_level(x: int, y: int)
    requires
        0 <= x - y < 0x1_0000_0000,
    ensures
        level(wrapped(x), wrapped(y)) == x - y,
        wrapped(x + 0x1_0000_0000) == wrapped(x),
        0 <= x < 0x1_0000_0000 ==> wrapped(x) == x,
{
}

/// A producer that has counted up to `head`, and last saw that the other side had consumed up to
/// `seen`, has room for what is left of the places behind that. The places of what is pending, from
/// `tail` on, are never counted as room, however much the other side has consumed since it was seen.
pub proof fn lemma_room<const N: usize>(
    producer: Producer<N>,
    m: Seq<u8>,
    head: int,
    tail: int,
    seen: int,
)
    requires
        seen <= tail <= head,
        head - seen <= producer.lane.count,
        head - seen < 0x1_0000_0000,
        producer.cached_head == wrapped(head),
        producer.cached_tail == wrapped(seen),
        mapping::u32_at(m, producer.lane.head_at as int) == wrapped(head),
        mapping::u32_at(m, producer.lane.tail_at as int) == wrapped(tail),
    ensures
        producer.free() == producer.lane.count - (head - seen),
        producer.lane.pending(N as int, m).len() == head - tail,
        producer.free() + producer.lane.pending(N as int, m).len() <= producer.lane.count,
{
    lemma_level(head, seen);
    lemma_level(head, tail);
}

/// A consumer that has seen the counts of the memory finds as many entries as are pending, and they
/// are those that are pending. It never finds more than there are places.
pub proof fn lemma_available<const N: usize>(consumer: Consumer<N>, m: Seq<u8>)
    requires
        consumer.cached_head == mapping::u32_at(m, consumer.lane.head_at as int),
        consumer.cached_tail == mapping::u32_at(m, consumer.lane.tail_at as int),
    ensures
        consumer.available() <= consumer.lane.count,
        consumer.lane.pending(N as int, m).len() <= consumer.lane.count ==> {
            &&& consumer.available() == consumer.lane.pending(N as int, m).len()
            &&& consumer.lane.entries(
                N as int,
                m,
                consumer.cached_tail as int,
                consumer.available(),
            ) == consumer.lane.pending(N as int, m)
        },
{
}

/// Storing entries leaves those alone that have other places.
proof fn lemma_stored_beside(
    lane: Lane,
    n: int,
    m: Seq<u8>,
    head: int,
    items: Seq<Seq<u8>>,
    x: int,
)
    requires
        0 < n,
        lane.within(n, m.len() as int),
        0 < lane.count,
        forall|k: int| 0 <= k < items.len() ==> (#[trigger] items[k]).len() == n,
        forall|k: int|
            0 <= k < items.len() ==> #[trigger] lane.entry_at(n, head + k) != lane.entry_at(n, x),
    ensures
        lane.stored(n, m, head, items).len() == m.len(),
        lane.entry(n, lane.stored(n, m, head, items), x) == lane.entry(n, m, x),
    decreases items.len(),
{
    if items.len() > 0 {
        let rest = items.drop_last();
        assert forall|k: int| 0 <= k < rest.len() implies (#[trigger] rest[k]).len() == n by {
            assert(rest[k] == items[k]);
        }
        lemma_stored_beside(lane, n, m, head, rest, x);
        let y = head + items.len() - 1;
        assert(lane.entry_at(n, head + (items.len() - 1)) != lane.entry_at(n, x));
        assert(items.last() == items[items.len() - 1]);
        lemma_put(lane, n, lane.stored(n, m, head, rest), y, items.last());
    }
}

/// What a producer pushes and synchronizes comes behind what is pending, and nothing that is pending
/// is lost or changed: as many entries are taken as there are places without a pending entry, and no
/// more. This holds whatever the size of an entry is and whatever number of places there is, as long
/// as the entries have places of their own; see [`lemma_distinct`].
///
/// The memory is `before` at first, `pushed` after [`Producer::push_many`] and `synced` after
/// [`Producer::sync`].
pub proof fn lemma_pushed_behind_pending<const N: usize>(
    before: &Shared,
    producer: Producer<N>,
    items: Seq<[u8; N]>,
    r: int,
    pushed: &Shared,
    synced: &Shared,
)
    requires
        N > 0,
        producer.lane.clear(N as int, before@.len() as int),
        producer.cached_head == mapping::u32_at(before@, producer.lane.head_at as int),
        producer.cached_tail == mapping::u32_at(before@, producer.lane.tail_at as int),
        producer.lane.pending(N as int, before@).len() <= producer.lane.count,
        ({
            let all = producer.lane.pending(N as int, before@).len() + items.len();
            let count = producer.lane.count;
            let most = if all < count {
                all as int
            } else {
                count as int
            };
            most < 0x1_0000_0000 && producer.lane.distinct(
                N as int,
                producer.cached_tail as int,
                most,
            )
        }),
        r == (if items.len() <= producer.free() {
            items.len() as int
        } else {
            producer.free()
        }),
        pushed@ == producer.lane.stored(
            N as int,
            before@,
            producer.cached_head as int,
            items_view(items).take(r),
        ),
        synced@ == mapping::with_u32(
            pushed@,
            producer.lane.head_at as int,
            wrapped(producer.cached_head + r),
        ),
    ensures
        ({
            let lane = producer.lane;
            let pending = lane.pending(N as int, before@);
            &&& 0 <= r <= items.len()
            &&& pending.len() + r <= lane.count
            &&& r < items.len() ==> pending.len() + r == lane.count
            &&& lane.pending(N as int, pushed@) == pending
            &&& lane.pending(N as int, synced@) == pending + items_view(items).take(r)
        }),
{
    let (lane, n) = (producer.lane, N as int);
    let (head, tail) = (producer.cached_head, producer.cached_tail);
    let (head_at, tail_at) = (lane.head_at as int, lane.tail_at as int);
    let sent = items_view(items).take(r);
    let pending = lane.pending(n, before@);
    let len = level(head, tail);
    assert(pending.len() == len);
    if r > 0 {
        assert forall|k: int| 0 <= k < sent.len() implies (#[trigger] sent[k]).len() == n by {
            assert(sent[k] == items[k]@);
        }
        lemma_pushed_entries(lane, n, before@, head, tail, sent);
    } else {
        assert(sent =~= Seq::empty());
    }
    assert(pushed@.subrange(head_at, head_at + 4) =~= before@.subrange(head_at, head_at + 4));
    assert(pushed@.subrange(tail_at, tail_at + 4) =~= before@.subrange(tail_at, tail_at + 4));
    assert(lane.pending(n, pushed@) =~= pending);
    let new_head = wrapped(head + r);
    assert(mapping::u32_at(synced@, tail_at) == tail);
    assert(mapping::u32_at(synced@, head_at) == new_head);
    assert(level(new_head, tail) == len + r);
    assert forall|k: int| 0 <= k < len + r implies #[trigger] lane.entry(n, synced@, tail + k)
        == (pending + sent)[k] by {
        lemma_entry_beside_word(lane, n, pushed@, head_at, new_head, tail + k);
        if k >= len {
            assert(lane.entry(n, pushed@, head + (k - len)) == sent[k - len]);
            assert(wrapped(head + (k - len)) == wrapped(tail + k));
        } else {
            assert(lane.entry(n, pushed@, tail + k) == lane.entry(n, before@, tail + k));
        }
    }
    assert(lane.pending(n, synced@) =~= pending + sent);
}

/// Where the entries are that were pushed behind those that are pending.
proof fn lemma_pushed_entries(
    lane: Lane,
    n: int,
    m: Seq<u8>,
    head: u32,
    tail: u32,
    sent: Seq<Seq<u8>>,
)
    requires
        0 < n,
        lane.clear(n, m.len() as int),
        0 < lane.count,
        lane.distinct(n, tail as int, level(head, tail) + sent.len()),
        forall|k: int| 0 <= k < sent.len() ==> (#[trigger] sent[k]).len() == n,
    ensures
        ({
            let after = lane.stored(n, m, head as int, sent);
            &&& after.len() == m.len()
            &&& forall|i: int|
                0 <= i < m.len() && !(lane.ring_at <= i < lane.ring_at + n * lane.count)
                    ==> after[i] == m[i]
            &&& forall|k: int|
                0 <= k < sent.len() ==> lane.entry(n, after, head + k) == #[trigger] sent[k]
            &&& forall|k: int|
                0 <= k < level(head, tail) ==> #[trigger] lane.entry(n, after, tail + k)
                    == lane.entry(n, m, tail + k)
        }),
{
    let len = level(head, tail);
    let after = lane.stored(n, m, head as int, sent);
    assert forall|k: int| 0 <= k < sent.len() implies #[trigger] lane.entry_at(n, head + k)
        == lane.entry_at(n, tail + (len + k)) by {
        assert(wrapped(head + k) == wrapped(tail + (len + k)));
    }
    assert forall|i: int, j: int| 0 <= i < j < sent.len() implies #[trigger] lane.entry_at(
        n,
        head + i,
    ) != #[trigger] lane.entry_at(n, head + j) by {
        assert(lane.entry_at(n, tail + (len + i)) != lane.entry_at(n, tail + (len + j)));
    }
    lemma_stored_distinct(lane, n, m, head as int, sent);
    assert forall|k: int| 0 <= k < len implies #[trigger] lane.entry(n, after, tail + k)
        == lane.entry(n, m, tail + k) by {
        assert forall|j: int| 0 <= j < sent.len() implies #[trigger] lane.entry_at(n, head + j)
            != lane.entry_at(n, tail + k) by {
            assert(lane.entry_at(n, tail + k) != lane.entry_at(n, tail + (len + j)));
        }
        lemma_stored_beside(lane, n, m, head as int, sent, tail + k);
    }
}

/// Pushing one entry is pushing a list of one.
pub proof fn lemma_push_is_push_many(lane: Lane, n: int, m: Seq<u8>, head: int, item: Seq<u8>)
    ensures
        mapping::splice(m, lane.entry_at(n, head), item) == lane.stored(n, m, head, seq![item]),
{
    let items = seq![item];
    assert(items.drop_last() =~= Seq::empty());
    assert(items.last() == item);
    assert(lane.stored(n, m, head, items.drop_last()) == m);
}

/// What a consumer takes is pending no more once that is synchronized: nothing is taken twice, and
/// what the other side produces afterwards comes next.
pub proof fn lemma_taken_once<const N: usize>(consumer: Consumer<N>, m: Seq<u8>, synced: Seq<u8>)
    requires
        consumer.lane.clear(N as int, m.len() as int),
        consumer.cached_head == mapping::u32_at(m, consumer.lane.head_at as int),
        consumer.cached_tail == mapping::u32_at(m, consumer.lane.tail_at as int),
        consumer.lane.pending(N as int, m).len() <= consumer.lane.count,
        synced == mapping::with_u32(
            m,
            consumer.lane.tail_at as int,
            wrapped(consumer.cached_tail + consumer.available()),
        ),
    ensures
        consumer.lane.pending(N as int, synced) == Seq::<Seq<u8>>::empty(),
        mapping::u32_at(synced, consumer.lane.tail_at as int) == mapping::u32_at(
            synced,
            consumer.lane.head_at as int,
        ),
{
    let (head_at, tail_at) = (consumer.lane.head_at as int, consumer.lane.tail_at as int);
    assert(mapping::u32_at(synced, head_at) == consumer.cached_head);
    assert(consumer.lane.pending(N as int, synced) =~= Seq::<Seq<u8>>::empty());
}

/// A lane counts with the words of the ring head that are for it: what its side has produced, and
/// what the other side has consumed of that. Its entries fill the ring, up to what is too small for
/// another, and the lane of the other side counts with other words.
pub proof fn lemma_lane_of(info: RingInfo, head_at: usize, side: ClientSide, n: int, m: Seq<u8>)
    requires
        0 < n,
        head_at + RING_HEAD_SIZE <= m.len() <= usize::MAX,
        info.offset_ring.0 + info.size_ring <= m.len(),
    ensures
        ({
            let lane = Lane::of(info, head_at, side, n);
            let other = Lane::of(info, head_at, side.opposite(), n);
            let head = RingHead::at(m, head_at as int);
            let (mine, theirs) = if side == ClientSide::Left {
                (head.lhs, head.rhs)
            } else {
                (head.rhs, head.lhs)
            };
            &&& mapping::u32_at(m, lane.head_at as int) == mine.producer
            &&& mapping::u32_at(m, lane.tail_at as int) == theirs.consumer
            &&& mapping::u32_at(m, other.head_at as int) == theirs.producer
            &&& mapping::u32_at(m, other.tail_at as int) == mine.consumer
            &&& lane.ring_at == info.offset_ring.0
            &&& n * lane.count <= info.size_ring < n * lane.count + n
            &&& (lane.head_at != other.head_at && lane.tail_at != other.tail_at)
            &&& (lane.head_at != other.tail_at && lane.tail_at != other.head_at)
        }),
{
    let size = info.size_ring as int;
    lemma_fundamental_div_mod(size, n);
    lemma_mod_bound(size, n);
    lemma_div_pos_is_pos(size, n);
    assert(size / n <= n * (size / n)) by (nonlinear_arith)
        requires
            n >= 1,
            size / n >= 0,
    ;
}

/// A producer or a consumer that was opened has seen the counts of the ring: a producer those of what
/// its own side has produced and the other has consumed, a consumer those of what the other side has
/// produced and its own has consumed.
pub proof fn lemma_opened<const N: usize>(
    producer: Producer<N>,
    consumer: Consumer<N>,
    ring: Ring,
    shared: &Shared,
)
    requires
        N > 0,
        ring.on(shared),
        shared@.len() <= usize::MAX,
        producer.opened_on(&ring, shared),
        consumer.opened_on(&ring, shared),
    ensures
        ({
            let head = RingHead::at(shared@, ring.map.ring_slot.head_at as int);
            let (mine, theirs) = if ring.map.ring_slot.side == ClientSide::Left {
                (head.lhs, head.rhs)
            } else {
                (head.rhs, head.lhs)
            };
            &&& producer.cached_head == mine.producer
            &&& producer.cached_tail == theirs.consumer
            &&& consumer.cached_head == theirs.producer
            &&& consumer.cached_tail == mine.consumer
            &&& producer.lane.ring_at == ring.map.info.offset_ring.0
            &&& consumer.lane.ring_at == ring.map.info.offset_ring.0
            &&& producer.lane.count == consumer.lane.count
            &&& N * producer.lane.count <= ring.map.info.size_ring < N * producer.lane.count + N
            &&& producer.offset_mask == ring.map.info.size_ring - 1
            &&& consumer.offset_mask == ring.map.info.size_ring - 1
        }),
{
    let slot = ring.map.ring_slot;
    lemma_lane_of(ring.map.info, slot.head_at, slot.side, N as int, shared@);
    lemma_lane_of(ring.map.info, slot.head_at, slot.side.opposite(), N as int, shared@);
}

/// The bytes of entries are those of each of them, in order.
pub proof fn lemma_items_view<const N: usize>(items: Seq<[u8; N]>, i: int)
    requires
        0 <= i < items.len(),
    ensures
        items_view(items).len() == items.len(),
        items_view(items)[i] == items[i]@,
{
}

/// Entries are of any size but that of the data of the ring.
pub proof fn lemma_usable(info: RingInfo, n: int)
    ensures
        usable(info, n) <==> info.size_data != n,
{
}

/// Counts that are further apart than there are places leave no room, and let no more be taken than
/// there are places.
pub proof fn lemma_counts_apart<const N: usize>(producer: Producer<N>, consumer: Consumer<N>)
    ensures
        0 <= producer.free() <= producer.lane.count,
        level(producer.cached_head, producer.cached_tail) >= producer.lane.count ==> producer.free()
            == 0,
        level(consumer.cached_head, consumer.cached_tail) >= consumer.lane.count
            ==> consumer.available() == consumer.lane.count,
{
}

} // verus!
