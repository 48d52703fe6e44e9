//! The central data structures, as they lie in the shared memory.
use vstd::arithmetic::power2::*;
use vstd::prelude::*;

use crate::mapping::{self, Mapping};

verus! {

broadcast use crate::mapping::group_words;

/// The size of a [`ShmHead`] in memory, and the alignment of its address.
pub const SHM_HEAD_SIZE: usize = 32;

pub const SHM_HEAD_ALIGN: usize = 8;

/// The size of a [`RingInfo`] in memory, and the alignment of its address.
pub const RING_INFO_SIZE: usize = 128;

pub const RING_INFO_ALIGN: usize = 8;

/// The size of a [`RingHead`] in memory, and the alignment of its address.
pub const RING_HEAD_SIZE: usize = 28;

pub const RING_HEAD_ALIGN: usize = 4;

/// The head of the shared memory file.
///
/// In memory: the magic, the ring count and the ring offset as 64-bit words, then the ping and the
/// pong as 32-bit words.
#[derive(Clone, Copy, Debug, PartialEq, Eq, Structural)]
pub struct ShmHead {
    pub ring_magic: RingMagic,
    pub ring_count: u64,
    pub ring_offset: u64,
    pub ring_ping: RingPing,
}

#[derive(Clone, Copy, Debug, PartialEq, Eq, Structural)]
pub struct RingPing {
    pub ring_ping: RingClientPing,
    pub ring_pong: RingServerPong,
}

/// The word that marks a file whose head has been written.
#[derive(Clone, Copy, Debug, PartialEq, Eq, Structural)]
pub struct RingMagic(pub u64);

#[derive(Clone, Copy, Debug, PartialEq, Eq, Structural)]
pub struct RingIndex(pub usize);

/// The table of rings, as it was read at some moment.
pub struct Rings(pub Vec<RingInfo>);

/// A 'register' with which clients can ping the server into action, by incrementing. We have a
/// futex waiting on it.
#[derive(Clone, Copy, Debug, PartialEq, Eq, Structural)]
pub struct RingClientPing(pub u32);

/// A 'register' operated by the server, which acknowledges clients pings.
#[derive(Clone, Copy, Debug, PartialEq, Eq, Structural)]
pub struct RingServerPong(pub u32);

/// A slot with which a client can register to a ring.
///
/// A number above zero is the client that holds the slot, [`ClientSlot::RETURNED`] apart: a client
/// has left, and the server has not taken the ring up yet. A number of zero or below is the
/// identifier under which the slot can be joined.
#[derive(Clone, Copy, Debug, PartialEq, Eq, Structural)]
pub struct ClientSlot(pub i64);

/// An offset from the start of the shared memory file.
#[derive(Clone, Copy, Debug, PartialEq, Eq, Structural)]
pub struct ShOffset(pub u64);

/// Published by the server, information on the ring and the two slots for registering as a client
/// to it.
///
/// In memory: the eight numbers as 64-bit words in this order, the left slot in the word at byte
/// 64, the right slot in the word at byte 96.
#[derive(Clone, Copy, Debug, PartialEq, Eq, Structural)]
pub struct RingInfo {
    /// Always `1` when this ring is active. Otherwise, `0`.
    pub version: u64,
    /// The offset at which to find this rings head structure.
    pub offset_head: ShOffset,
    /// The offset at which to find this rings slot structure.
    pub offset_ring: ShOffset,
    /// The offset at which to find this rings data structure.
    pub offset_data: ShOffset,
    /// The byte size of that rings head, should be checked for compatibility.
    pub size_head: u64,
    /// The byte size of that rings slot structure.
    pub size_ring: u64,
    /// The byte size of that rings data structure.
    pub size_data: u64,
    /// The byte size of each entry in the rings slot structure.
    pub size_slot_entry: u64,
    pub lhs: ClientSlot,
    pub rhs: ClientSlot,
}

/// One of the two sides of a ring.
#[derive(Clone, Copy, Debug, PartialEq, Eq, Hash, Structural)]
pub enum ClientSide {
    Left,
    Right,
}

/// The word of a ring head that is owned by the side that waits for messages.
///
/// Zero when neither side waits, the [block slot](ClientSide::as_block_slot) of the side that
/// does, and negative, as a signed number, when the ring is going down.
#[derive(Clone, Copy, Debug, PartialEq, Eq, Structural)]
pub struct RingBlockedSlot(pub u32);

/// What one side of a ring publishes to the other.
#[derive(Clone, Copy, Debug, PartialEq, Eq, Structural)]
pub struct RingHalf {
    /// How many entries this side has produced, modulo 2^32.
    pub producer: u32,
    /// How many entries of the other side this side has consumed, modulo 2^32.
    pub consumer: u32,
    /// Not zero while this side is ready to send.
    pub sending: u32,
}

/// The head of one ring: what its two sides synchronize on.
///
/// In memory: the blocked word, then the words of the left and those of the right half.
#[derive(Clone, Copy, Debug, PartialEq, Eq, Structural)]
pub struct RingHead {
    pub blocked: RingBlockedSlot,
    pub lhs: RingHalf,
    pub rhs: RingHalf,
}

/// Identifies a client: the low 32 bits are its process id.
#[derive(Clone, Copy, Debug, PartialEq, Eq, Structural)]
pub struct ClientIdentifier(pub u64);

/// Identifies a ring to the clients that may join it.
#[derive(Clone, Copy, Debug, Default, PartialEq, Eq, Structural)]
pub struct RingIdentifier(pub i64);

/// A size and the alignment of its address, a power of two.
#[derive(Clone, Copy, Debug, PartialEq, Eq, Structural)]
pub struct Layout {
    pub size: usize,
    pub align: usize,
}

impl RingMagic {
    pub const MAGIC: u64 = 0x9e6c_a4fd8624a738;

    pub fn new() -> (r: RingMagic)
        ensures
            r.0 == RingMagic::MAGIC,
    {
        RingMagic(RingMagic::MAGIC)
    }

    /// Whether this is the magic of an initialized file.
    pub fn test(&self) -> (r: bool)
        ensures
            r == (self.0 == RingMagic::MAGIC),
    {
        self.0 == RingMagic::MAGIC
    }
}

impl Default for RingPing {
    fn default() -> (r: RingPing)
        ensures
            r.ring_ping.0 == 0,
            r.ring_pong.0 == 0,
    {
        RingPing { ring_ping: RingClientPing(0), ring_pong: RingServerPong(0) }
    }
}

impl Rings {
    /// The ring of the index, if the table has one.
    pub fn get(&self, index: RingIndex) -> (r: Option<&RingInfo>)
        ensures
            match r {
                Some(info) => index.0 < self.0@.len() && *info == self.0@[index.0 as int],
                None => index.0 >= self.0@.len(),
            },
    {
        if index.0 < self.0.len() {
            Some(&self.0[index.0])
        } else {
            None
        }
    }
}

impl ClientSide {
    pub open spec fn spec_opposite(self) -> ClientSide {
        match self {
            ClientSide::Left => ClientSide::Right,
            ClientSide::Right => ClientSide::Left,
        }
    }

    /// The number that marks this side as the one that waits, in the blocked word of a ring.
    pub open spec fn spec_block_slot(self) -> u32 {
        match self {
            ClientSide::Left => 1,
            ClientSide::Right => 2,
        }
    }

    /// The other side.
    #[verifier::when_used_as_spec(spec_opposite)]
    pub fn opposite(self) -> (r: ClientSide)
        ensures
            r == self.spec_opposite(),
    {
        match self {
            ClientSide::Left => ClientSide::Right,
            ClientSide::Right => ClientSide::Left,
        }
    }

    /// The number that marks this side as the one that waits, in the blocked word of a ring.
    #[verifier::when_used_as_spec(spec_block_slot)]
    pub fn as_block_slot(self) -> (r: u32)
        ensures
            r == self.spec_block_slot(),
    {
        match self {
            ClientSide::Left => 1,
            ClientSide::Right => 2,
        }
    }
}

impl ClientIdentifier {
    /// Whether the identifier can be put to a slot: it is above zero as a signed number, and not what
    /// marks a slot as returned.
    pub open spec fn valid(self) -> bool {
        0 < self.0 < ClientSlot::RETURNED
    }
}

impl RingIdentifier {
    /// The identifier to advertise a ring with. Only negative numbers are.
    pub fn new(id: i32) -> (r: Option<RingIdentifier>)
        ensures
            r == (if id < 0 { Some(RingIdentifier(id as i64)) } else { None }),
    {
        if id < 0 {
            Some(RingIdentifier(id as i64))
        } else {
            None
        }
    }
}

impl ClientSlot {
    /// The content of a slot whose client has left it.
    pub const RETURNED: i64 = 0x7fff_ffff_ffff_ffff;

    /// Whether the slot is with the server: a client has returned it, or it was never joined and
    /// is not advertised.
    pub open spec fn with_server(self) -> bool {
        self.0 == 0 || self.0 == ClientSlot::RETURNED
    }

    /// Whether a client holds the slot.
    pub open spec fn with_client(self) -> bool {
        self.0 > 0 && self.0 != ClientSlot::RETURNED
    }

    /// A slot that can be joined under `id`.
    pub fn for_advertisement(id: RingIdentifier) -> (r: ClientSlot)
        ensures
            r.0 == id.0,
    {
        ClientSlot(id.0)
    }

    /// Exchange the slot with a request to join with a specific client.
    ///
    /// This gives the identifier under which the slot was free, or leaves the slot alone and gives
    /// what holds it.
    pub fn insert(&mut self, client: ClientIdentifier) -> (r: Result<
        RingIdentifier,
        ClientIdentifier,
    >)
        requires
            client.valid(),
        ensures
            old(self).0 <= 0 ==> r == Ok::<_, ClientIdentifier>(RingIdentifier(old(self).0))
                && final(self).0 == client.0,
            old(self).0 > 0 ==> r == Err::<RingIdentifier, _>(ClientIdentifier(old(self).0 as u64))
                && final(self).0 == old(self).0,
    {
        if self.0 <= 0 {
            let id: i64 = self.0;
            self.0 = client.0 as i64;
            Ok(RingIdentifier(id))
        } else {
            Err(ClientIdentifier(self.0 as u64))
        }
    }

    /// Take the client `id` off the slot, if it is the one that holds it. Otherwise this leaves
    /// the slot alone and gives what it holds.
    pub fn leave(&mut self, id: ClientIdentifier) -> (r: Result<(), i64>)
        ensures
            old(self).0 == id.0 as i64 ==> r == Ok::<(), i64>(()) && final(self).0 == 0,
            old(self).0 != id.0 as i64 ==> r == Err::<(), i64>(old(self).0) && final(self).0 == old(
                self,
            ).0,
    {
        if self.0 == id.0 as i64 {
            self.0 = 0;
            Ok(())
        } else {
            Err(self.0)
        }
    }

    /// The client that holds the slot, or what is there instead.
    pub fn inspect(&self) -> (r: Result<ClientIdentifier, i64>)
        ensures
            r == (if self.with_client() {
                Ok(ClientIdentifier(self.0 as u64))
            } else {
                Err(self.0)
            }),
    {
        if self.0 > 0 && self.0 != ClientSlot::RETURNED {
            Ok(ClientIdentifier(self.0 as u64))
        } else {
            Err(self.0)
        }
    }

    /// Whether the server may take the slot up again.
    pub fn is_owned_by_server_as_checked_by_server(&self) -> (r: bool)
        ensures
            r == self.with_server(),
    {
        self.0 == 0 || self.0 == ClientSlot::RETURNED
    }

    /// Advertise the slot under `id`, if it is with the server.
    pub fn reinit(&mut self, id: RingIdentifier) -> (r: Result<(), i64>)
        ensures
            old(self).with_server() ==> r == Ok::<(), i64>(()) && final(self).0 == id.0,
            !old(self).with_server() ==> r == Err::<(), i64>(old(self).0) && final(self).0 == old(
                self,
            ).0,
    {
        if self.is_owned_by_server_as_checked_by_server() {
            self.0 = id.0;
            Ok(())
        } else {
            Err(self.0)
        }
    }
}

impl RingInfo {
    /// The offset of the slot of `side` in the memory of the ring info.
    pub open spec fn spec_slot_at(side: ClientSide) -> usize {
        match side {
            ClientSide::Left => 64,
            ClientSide::Right => 96,
        }
    }

    pub open spec fn spec_select_slot(&self, side: ClientSide) -> ClientSlot {
        match side {
            ClientSide::Left => self.lhs,
            ClientSide::Right => self.rhs,
        }
    }

    #[verifier::when_used_as_spec(spec_slot_at)]
    pub fn slot_at(side: ClientSide) -> (r: usize)
        ensures
            r == RingInfo::spec_slot_at(side),
    {
        match side {
            ClientSide::Left => 64,
            ClientSide::Right => 96,
        }
    }

    /// The slot of `side`.
    #[verifier::when_used_as_spec(spec_select_slot)]
    pub fn select_slot(&self, side: ClientSide) -> (r: ClientSlot)
        ensures
            r == self.spec_select_slot(side),
    {
        match side {
            ClientSide::Left => self.lhs,
            ClientSide::Right => self.rhs,
        }
    }

    /// The ring info in the memory `m` at `at`.
    pub open spec fn at(m: Seq<u8>, at: int) -> RingInfo {
        RingInfo {
            version: mapping::u64_at(m, at),
            offset_head: ShOffset(mapping::u64_at(m, at + 8)),
            offset_ring: ShOffset(mapping::u64_at(m, at + 16)),
            offset_data: ShOffset(mapping::u64_at(m, at + 24)),
            size_head: mapping::u64_at(m, at + 32),
            size_ring: mapping::u64_at(m, at + 40),
            size_data: mapping::u64_at(m, at + 48),
            size_slot_entry: mapping::u64_at(m, at + 56),
            lhs: ClientSlot(mapping::i64_at(m, at + 64)),
            rhs: ClientSlot(mapping::i64_at(m, at + 96)),
        }
    }

    /// The memory `m` with this ring info written at `at`.
    pub open spec fn written(self, m: Seq<u8>, at: int) -> Seq<u8> {
        let m = mapping::with_u64(m, at, self.version);
        let m = mapping::with_u64(m, at + 8, self.offset_head.0);
        let m = mapping::with_u64(m, at + 16, self.offset_ring.0);
        let m = mapping::with_u64(m, at + 24, self.offset_data.0);
        let m = mapping::with_u64(m, at + 32, self.size_head);
        let m = mapping::with_u64(m, at + 40, self.size_ring);
        let m = mapping::with_u64(m, at + 48, self.size_data);
        let m = mapping::with_u64(m, at + 56, self.size_slot_entry);
        let m = mapping::with_i64(m, at + 64, self.lhs.0);
        mapping::with_i64(m, at + 96, self.rhs.0)
    }

    /// Read the ring info at `at`.
    pub fn load(map: &Mapping, at: usize) -> (r: RingInfo)
        requires
            at + RING_INFO_SIZE <= map@.len(),
        ensures
            r == RingInfo::at(map@, at as int),
    {
        assert(map.bytes.len() == map@.len());
        RingInfo {
            version: map.load_u64(at),
            offset_head: ShOffset(map.load_u64(at + 8)),
            offset_ring: ShOffset(map.load_u64(at + 16)),
            offset_data: ShOffset(map.load_u64(at + 24)),
            size_head: map.load_u64(at + 32),
            size_ring: map.load_u64(at + 40),
            size_data: map.load_u64(at + 48),
            size_slot_entry: map.load_u64(at + 56),
            lhs: ClientSlot(map.load_i64(at + 64)),
            rhs: ClientSlot(map.load_i64(at + 96)),
        }
    }

    /// Write the ring info to `at`.
    pub fn store(&self, map: &mut Mapping, at: usize)
        requires
            at + RING_INFO_SIZE <= old(map)@.len(),
        ensures
            final(map)@ == self.written(old(map)@, at as int),
            final(map).addr == old(map).addr,
    {
        assert(map.bytes.len() == map@.len());
        map.store_u64(at, self.version);
        map.store_u64(at + 8, self.offset_head.0);
        map.store_u64(at + 16, self.offset_ring.0);
        map.store_u64(at + 24, self.offset_data.0);
        map.store_u64(at + 32, self.size_head);
        map.store_u64(at + 40, self.size_ring);
        map.store_u64(at + 48, self.size_data);
        map.store_u64(at + 56, self.size_slot_entry);
        map.store_i64(at + 64, self.lhs.0);
        map.store_i64(at + 96, self.rhs.0);
    }
}

/// A ring info reads back as it was written, and words and ring infos beside it stay as they were.
pub proof fn lemma_info_written(info: RingInfo, m: Seq<u8>, at: int)
    requires
        0 <= at,
        at + RING_INFO_SIZE <= m.len(),
    ensures
        info.written(m, at).len() == m.len(),
        RingInfo::at(info.written(m, at), at) == info,
        forall|o: int|
            0 <= o && o + 8 <= m.len() && mapping::apart(at, RING_INFO_SIZE as int, o, 8)
                ==> #[trigger] mapping::u64_at(info.written(m, at), o) == mapping::u64_at(m, o),
        forall|o: int|
            0 <= o && o + 4 <= m.len() && mapping::apart(at, RING_INFO_SIZE as int, o, 4)
                ==> #[trigger] mapping::u32_at(info.written(m, at), o) == mapping::u32_at(m, o),
        forall|o: int|
            0 <= o && o + RING_INFO_SIZE <= m.len() && mapping::apart(
                at,
                RING_INFO_SIZE as int,
                o,
                RING_INFO_SIZE as int,
            ) ==> #[trigger] RingInfo::at(info.written(m, at), o) == RingInfo::at(m, o),
{
}

impl RingInfo {
    /// Give the slot of `side` back to the server, and mark the ring as going down in its head.
    pub fn leave_as_owner_with_futex(&mut self, side: ClientSide, head: &mut RingHead)
        ensures
            *final(self) == old(self).left_by(side),
            *final(head) == old(head).left_by(side),
    {
        match side {
            ClientSide::Left => {
                self.lhs = ClientSlot(ClientSlot::RETURNED);
                head.lhs.sending = 0;
            },
            ClientSide::Right => {
                self.rhs = ClientSlot(ClientSlot::RETURNED);
                head.rhs.sending = 0;
            },
        }
        head.blocked = RingBlockedSlot(RingBlockedSlot::GOING_DOWN);
    }

    /// The ring info after the client of `side` has left.
    pub open spec fn left_by(self, side: ClientSide) -> RingInfo {
        match side {
            ClientSide::Left => RingInfo { lhs: ClientSlot(ClientSlot::RETURNED), ..self },
            ClientSide::Right => RingInfo { rhs: ClientSlot(ClientSlot::RETURNED), ..self },
        }
    }
}

impl RingBlockedSlot {
    /// The content of the word in a ring that is going down.
    pub const GOING_DOWN: u32 = 0xffff_ffff;

    /// Whether the ring is going down: the word is negative as a signed number.
    pub open spec fn spec_going_down(self) -> bool {
        self.0 >= 0x8000_0000
    }

    /// Whether the ring is going down: the word is negative as a signed number.
    #[verifier::when_used_as_spec(spec_going_down)]
    pub fn going_down(self) -> (r: bool)
        ensures
            r == self.spec_going_down(),
    {
        self.0 >= 0x8000_0000
    }
}

impl RingHead {
    /// The offset of what `side` has produced, in the memory of the ring head.
    pub open spec fn spec_producer_at(side: ClientSide) -> usize {
        match side {
            ClientSide::Left => 4,
            ClientSide::Right => 16,
        }
    }

    #[verifier::when_used_as_spec(spec_producer_at)]
    pub fn producer_at(side: ClientSide) -> (r: usize)
        ensures
            r == RingHead::spec_producer_at(side),
    {
        match side {
            ClientSide::Left => 4,
            ClientSide::Right => 16,
        }
    }

    /// The offset of what `side` has consumed, in the memory of the ring head.
    pub open spec fn spec_consumer_at(side: ClientSide) -> usize {
        match side {
            ClientSide::Left => 8,
            ClientSide::Right => 20,
        }
    }

    #[verifier::when_used_as_spec(spec_consumer_at)]
    pub fn consumer_at(side: ClientSide) -> (r: usize)
        ensures
            r == RingHead::spec_consumer_at(side),
    {
        match side {
            ClientSide::Left => 8,
            ClientSide::Right => 20,
        }
    }

    /// The offset of the indicator of whether `side` is ready to send, in the memory of the ring head.
    pub open spec fn spec_indicator_at(side: ClientSide) -> usize {
        match side {
            ClientSide::Left => 12,
            ClientSide::Right => 24,
        }
    }

    #[verifier::when_used_as_spec(spec_indicator_at)]
    pub fn indicator_at(side: ClientSide) -> (r: usize)
        ensures
            r == RingHead::spec_indicator_at(side),
    {
        match side {
            ClientSide::Left => 12,
            ClientSide::Right => 24,
        }
    }

    pub open spec fn spec_select_producer(&self, side: ClientSide) -> u32 {
        match side {
            ClientSide::Left => self.lhs.producer,
            ClientSide::Right => self.rhs.producer,
        }
    }

    #[verifier::when_used_as_spec(spec_select_producer)]
    pub fn select_producer(&self, side: ClientSide) -> (r: u32)
        ensures
            r == self.spec_select_producer(side),
    {
        match side {
            ClientSide::Left => self.lhs.producer,
            ClientSide::Right => self.rhs.producer,
        }
    }

    pub open spec fn spec_select_consumer(&self, side: ClientSide) -> u32 {
        match side {
            ClientSide::Left => self.lhs.consumer,
            ClientSide::Right => self.rhs.consumer,
        }
    }

    #[verifier::when_used_as_spec(spec_select_consumer)]
    pub fn select_consumer(&self, side: ClientSide) -> (r: u32)
        ensures
            r == self.spec_select_consumer(side),
    {
        match side {
            ClientSide::Left => self.lhs.consumer,
            ClientSide::Right => self.rhs.consumer,
        }
    }

    pub open spec fn spec_send_indicator(&self, side: ClientSide) -> u32 {
        match side {
            ClientSide::Left => self.lhs.sending,
            ClientSide::Right => self.rhs.sending,
        }
    }

    #[verifier::when_used_as_spec(spec_send_indicator)]
    pub fn send_indicator(&self, side: ClientSide) -> (r: u32)
        ensures
            r == self.spec_send_indicator(side),
    {
        match side {
            ClientSide::Left => self.lhs.sending,
            ClientSide::Right => self.rhs.sending,
        }
    }

    /// The head of a ring that nothing has happened on.
    pub open spec fn fresh() -> RingHead {
        let half = RingHalf { producer: 0, consumer: 0, sending: 0 };
        RingHead { blocked: RingBlockedSlot(0), lhs: half, rhs: half }
    }

    /// The head after the client of `side` has left.
    pub open spec fn left_by(self, side: ClientSide) -> RingHead {
        let blocked = RingBlockedSlot(RingBlockedSlot::GOING_DOWN);
        match side {
            ClientSide::Left => RingHead {
                blocked,
                lhs: RingHalf { sending: 0, ..self.lhs },
                ..self
            },
            ClientSide::Right => RingHead {
                blocked,
                rhs: RingHalf { sending: 0, ..self.rhs },
                ..self
            },
        }
    }

    /// Start the ring over. Only the server does so, while it holds both slots.
    pub fn reinit_holding_as_server(&mut self)
        ensures
            *final(self) == RingHead::fresh(),
    {
        self.blocked = RingBlockedSlot(0);
        self.lhs = RingHalf { producer: 0, consumer: 0, sending: 0 };
        self.rhs = RingHalf { producer: 0, consumer: 0, sending: 0 };
    }

    /// The ring head in the memory `m` at `at`.
    pub open spec fn at(m: Seq<u8>, at: int) -> RingHead {
        RingHead {
            blocked: RingBlockedSlot(mapping::u32_at(m, at)),
            lhs: RingHalf {
                producer: mapping::u32_at(m, at + 4),
                consumer: mapping::u32_at(m, at + 8),
                sending: mapping::u32_at(m, at + 12),
            },
            rhs: RingHalf {
                producer: mapping::u32_at(m, at + 16),
                consumer: mapping::u32_at(m, at + 20),
                sending: mapping::u32_at(m, at + 24),
            },
        }
    }

    /// The memory `m` with this ring head written at `at`.
    pub open spec fn written(self, m: Seq<u8>, at: int) -> Seq<u8> {
        let m = mapping::with_u32(m, at, self.blocked.0);
        let m = mapping::with_u32(m, at + 4, self.lhs.producer);
        let m = mapping::with_u32(m, at + 8, self.lhs.consumer);
        let m = mapping::with_u32(m, at + 12, self.lhs.sending);
        let m = mapping::with_u32(m, at + 16, self.rhs.producer);
        let m = mapping::with_u32(m, at + 20, self.rhs.consumer);
        mapping::with_u32(m, at + 24, self.rhs.sending)
    }

    /// Read the ring head at `at`.
    pub fn load(map: &Mapping, at: usize) -> (r: RingHead)
        requires
            at + RING_HEAD_SIZE <= map@.len(),
        ensures
            r == RingHead::at(map@, at as int),
    {
        assert(map.bytes.len() == map@.len());
        RingHead {
            blocked: RingBlockedSlot(map.load_u32(at)),
            lhs: RingHalf {
                producer: map.load_u32(at + 4),
                consumer: map.load_u32(at + 8),
                sending: map.load_u32(at + 12),
            },
            rhs: RingHalf {
                producer: map.load_u32(at + 16),
                consumer: map.load_u32(at + 20),
                sending: map.load_u32(at + 24),
            },
        }
    }

    /// Write the ring head to `at`.
    pub fn store(&self, map: &mut Mapping, at: usize)
        requires
            at + RING_HEAD_SIZE <= old(map)@.len(),
        ensures
            final(map)@ == self.written(old(map)@, at as int),
            final(map).addr == old(map).addr,
    {
        assert(map.bytes.len() == map@.len());
        map.store_u32(at, self.blocked.0);
        map.store_u32(at + 4, self.lhs.producer);
        map.store_u32(at + 8, self.lhs.consumer);
        map.store_u32(at + 12, self.lhs.sending);
        map.store_u32(at + 16, self.rhs.producer);
        map.store_u32(at + 20, self.rhs.consumer);
        map.store_u32(at + 24, self.rhs.sending);
    }
}

/// A ring head reads back as it was written, and the words beside it stay as they were.
pub proof fn lemma_head_written(head: RingHead, m: Seq<u8>, at: int)
    requires
        0 <= at,
        at + RING_HEAD_SIZE <= m.len(),
    ensures
        head.written(m, at).len() == m.len(),
        RingHead::at(head.written(m, at), at) == head,
        forall|o: int|
            0 <= o && o + 8 <= m.len() && mapping::apart(at, RING_HEAD_SIZE as int, o, 8)
                ==> #[trigger] mapping::u64_at(head.written(m, at), o) == mapping::u64_at(m, o),
        forall|o: int|
            0 <= o && o + 4 <= m.len() && mapping::apart(at, RING_HEAD_SIZE as int, o, 4)
                ==> #[trigger] mapping::u32_at(head.written(m, at), o) == mapping::u32_at(m, o),
        forall|o: int|
            0 <= o && o + RING_INFO_SIZE <= m.len() && mapping::apart(
                at,
                RING_HEAD_SIZE as int,
                o,
                RING_INFO_SIZE as int,
            ) ==> #[trigger] RingInfo::at(head.written(m, at), o) == RingInfo::at(m, o),
{
}

/// A ring head of zero bytes is that of a ring that nothing has happened on.
pub proof fn lemma_zero_head(m: Seq<u8>, at: int)
    requires
        0 <= at,
        at + RING_HEAD_SIZE <= m.len(),
        forall|i: int| at <= i < at + RING_HEAD_SIZE ==> m[i] == 0,
    ensures
        RingHead::at(m, at) == RingHead::fresh(),
{
    mapping::lemma_zero_u32(m, at);
    mapping::lemma_zero_u32(m, at + 4);
    mapping::lemma_zero_u32(m, at + 8);
    mapping::lemma_zero_u32(m, at + 12);
    mapping::lemma_zero_u32(m, at + 16);
    mapping::lemma_zero_u32(m, at + 20);
    mapping::lemma_zero_u32(m, at + 24);
}

impl ShmHead {
    /// The file head in the memory `m`.
    pub open spec fn at(m: Seq<u8>) -> ShmHead {
        ShmHead {
            ring_magic: RingMagic(mapping::u64_at(m, 0)),
            ring_count: mapping::u64_at(m, 8),
            ring_offset: mapping::u64_at(m, 16),
            ring_ping: RingPing {
                ring_ping: RingClientPing(mapping::u32_at(m, 24)),
                ring_pong: RingServerPong(mapping::u32_at(m, 28)),
            },
        }
    }

    /// The memory `m` with this file head written. The magic comes last.
    pub open spec fn written(self, m: Seq<u8>) -> Seq<u8> {
        let m = mapping::with_u64(m, 0, 0);
        let m = mapping::with_u64(m, 8, self.ring_count);
        let m = mapping::with_u64(m, 16, self.ring_offset);
        let m = mapping::with_u32(m, 24, self.ring_ping.ring_ping.0);
        let m = mapping::with_u32(m, 28, self.ring_ping.ring_pong.0);
        mapping::with_u64(m, 0, self.ring_magic.0)
    }

    /// Read the file head.
    pub fn load(map: &Mapping) -> (r: ShmHead)
        requires
            SHM_HEAD_SIZE <= map@.len(),
        ensures
            r == ShmHead::at(map@),
    {
        ShmHead {
            ring_magic: RingMagic(map.load_u64(0)),
            ring_count: map.load_u64(8),
            ring_offset: map.load_u64(16),
            ring_ping: RingPing {
                ring_ping: RingClientPing(map.load_u32(24)),
                ring_pong: RingServerPong(map.load_u32(28)),
            },
        }
    }

    /// Write the file head. The magic is written last: who sees it sees the rest as well.
    pub fn store(&self, map: &mut Mapping)
        requires
            SHM_HEAD_SIZE <= old(map)@.len(),
        ensures
            final(map)@ == self.written(old(map)@),
            final(map).addr == old(map).addr,
    {
        map.store_u64(0, 0);
        map.store_u64(8, self.ring_count);
        map.store_u64(16, self.ring_offset);
        map.store_u32(24, self.ring_ping.ring_ping.0);
        map.store_u32(28, self.ring_ping.ring_pong.0);
        map.store_u64(0, self.ring_magic.0);
    }
}

/// A file head reads back as it was written, and the words behind it stay as they were.
pub proof fn lemma_shm_head_written(head: ShmHead, m: Seq<u8>)
    requires
        SHM_HEAD_SIZE <= m.len(),
    ensures
        head.written(m).len() == m.len(),
        ShmHead::at(head.written(m)) == head,
        forall|o: int|
            SHM_HEAD_SIZE <= o && o + 8 <= m.len() ==> #[trigger] mapping::u64_at(
                head.written(m),
                o,
            ) == mapping::u64_at(m, o),
        forall|o: int|
            SHM_HEAD_SIZE <= o && o + 4 <= m.len() ==> #[trigger] mapping::u32_at(
                head.written(m),
                o,
            ) == mapping::u32_at(m, o),
        forall|o: int|
            SHM_HEAD_SIZE <= o && o + RING_INFO_SIZE <= m.len() ==> #[trigger] RingInfo::at(
                head.written(m),
                o,
            ) == RingInfo::at(m, o),
{
}

/// Whether `n` is a power of two.
pub fn is_power_of_two(n: u64) -> (r: bool)
    ensures
        r == is_pow2(n as int),
{
    proof {
        reveal(is_pow2);
    }
    if n == 0 {
        return false;
    }
    let mut k: u64 = n;
    while k % 2 == 0
        invariant
            k > 0,
            is_pow2(k as int) == is_pow2(n as int),
        decreases k,
    {
        assert(is_pow2(k as int) == is_pow2(k as int / 2)) by {
            reveal(is_pow2);
        }
        k = k / 2;
    }
    k == 1
}

/// How far behind the address `addr` the next multiple of the alignment of `U` is.
pub fn align_offset<U>(addr: usize) -> (r: usize)
    ensures
        r < vstd::layout::align_of::<U>(),
        (addr + r) % (vstd::layout::align_of::<U>() as int) == 0,
{
    vstd::layout::layout_for_type_is_valid::<U>();
    align_offset_val(addr, core::mem::align_of::<U>())
}

/// How far behind the address `addr` the next multiple of `align` is.
pub fn align_offset_val(addr: usize, align: usize) -> (r: usize)
    requires
        align > 0,
    ensures
        r < align,
        (addr + r) % (align as int) == 0,
{
    let over: usize = addr % align;
    if over == 0 {
        0
    } else {
        proof {
            let (a, d) = (addr as int, align as int);
            vstd::arithmetic::div_mod::lemma_fundamental_div_mod(a, d);
            assert(a + (d - a % d) == d * (a / d + 1)) by (nonlinear_arith)
                requires
                    a == d * (a / d) + a % d,
            ;
            vstd::arithmetic::mul::lemma_mul_is_commutative(d, a / d + 1);
            vstd::arithmetic::div_mod::lemma_mod_multiples_basic(a / d + 1, d);
        }
        align - over
    }
}

/// There is just one distance below `align` that leads to a multiple of it.
pub proof fn lemma_align_offset_unique(addr: int, align: int, r: int, q: int)
    requires
        align > 0,
        0 <= r < align,
        0 <= q < align,
        (addr + r) % align == 0,
        (addr + q) % align == 0,
    ensures
        r == q,
{
    let (a, b) = ((addr + r) / align, (addr + q) / align);
    vstd::arithmetic::div_mod::lemma_fundamental_div_mod(addr + r, align);
    vstd::arithmetic::div_mod::lemma_fundamental_div_mod(addr + q, align);
    assert(a == b) by (nonlinear_arith)
        requires
            align > 0,
            -align < align * a - align * b < align,
    ;
}

/// Each side is the other of its other, and the two are told apart by the numbers that they wait
/// with. Neither is that of a word that is free, nor that of a ring that is going down.
pub proof fn lemma_sides(side: ClientSide)
    ensures
        side.opposite() != side,
        side.opposite().opposite() == side,
        side.as_block_slot() != side.opposite().as_block_slot(),
        side.as_block_slot() != 0,
        !RingBlockedSlot(side.as_block_slot()).going_down(),
        side == ClientSide::Left ==> side.as_block_slot() == 1,
        side == ClientSide::Right ==> side.as_block_slot() == 2,
{
}

/// A ring is going down just when its blocked word is negative as a signed number, as it is in a ring
/// that was left.
pub proof fn lemma_going_down(word: u32)
    ensures
        RingBlockedSlot(word).going_down() <==> (word as i32) < 0,
        RingBlockedSlot(RingBlockedSlot::GOING_DOWN).going_down(),
{
    assert(word >= 0x8000_0000 <==> (word as i32) < 0) by (bit_vector);
}

/// What a slot is, by its number: a client holds it if the number is above zero, but for the largest
/// that there is. The server has it with that largest number, or with zero. So no slot is with both.
/// The numbers that can be put to a slot are those that clients hold slots with.
pub proof fn lemma_slot_states(number: i64, id: u64)
    ensures
        ClientSlot(number).with_client() <==> 0 < number < i64::MAX,
        ClientSlot(number).with_server() <==> number == 0 || number == i64::MAX,
        ClientIdentifier(id).valid() <==> 0 < id < i64::MAX,
{
}

/// The words of a ring info and of a ring head that belong to a side are where it looks for them.
pub proof fn lemma_words_of_side(m: Seq<u8>, at: int, side: ClientSide)
    requires
        0 <= at,
        at + RING_INFO_SIZE <= m.len(),
    ensures
        mapping::i64_at(m, at + RingInfo::slot_at(side)) == (if side == ClientSide::Left {
            RingInfo::at(m, at).lhs.0
        } else {
            RingInfo::at(m, at).rhs.0
        }),
        RingInfo::at(m, at).select_slot(side).0 == mapping::i64_at(
            m,
            at + RingInfo::slot_at(side),
        ),
        ({
            let half = if side == ClientSide::Left {
                RingHead::at(m, at).lhs
            } else {
                RingHead::at(m, at).rhs
            };
            &&& mapping::u32_at(m, at + RingHead::producer_at(side)) == half.producer
            &&& mapping::u32_at(m, at + RingHead::consumer_at(side)) == half.consumer
            &&& mapping::u32_at(m, at + RingHead::indicator_at(side)) == half.sending
            &&& RingHead::at(m, at).select_producer(side) == half.producer
            &&& RingHead::at(m, at).select_consumer(side) == half.consumer
            &&& RingHead::at(m, at).send_indicator(side) == half.sending
            &&& mapping::u32_at(m, at) == RingHead::at(m, at).blocked.0
        }),
{
}

/// A store to a word of one side changes that word of the ring head, and no other.
pub proof fn lemma_one_word_of_head(m: Seq<u8>, at: int, side: ClientSide, v: u32)
    requires
        0 <= at,
        at + RING_HEAD_SIZE <= m.len(),
    ensures
        ({
            let head = RingHead::at(m, at);
            let half = if side == ClientSide::Left {
                head.lhs
            } else {
                head.rhs
            };
            let with = |half: RingHalf|
                if side == ClientSide::Left {
                    RingHead { lhs: half, ..head }
                } else {
                    RingHead { rhs: half, ..head }
                };
            &&& RingHead::at(mapping::with_u32(m, at + RingHead::producer_at(side), v), at) == with(
                RingHalf { producer: v, ..half },
            )
            &&& RingHead::at(mapping::with_u32(m, at + RingHead::consumer_at(side), v), at) == with(
                RingHalf { consumer: v, ..half },
            )
            &&& RingHead::at(mapping::with_u32(m, at + RingHead::indicator_at(side), v), at)
                == with(RingHalf { sending: v, ..half })
            &&& RingHead::at(mapping::with_u32(m, at, v), at) == (RingHead {
                blocked: RingBlockedSlot(v),
                ..head
            })
        }),
{
}

/// Nothing has happened on a fresh ring: neither side has produced, consumed or begun to send, and
/// nobody waits.
pub proof fn lemma_fresh_head()
    ensures
        ({
            let head = RingHead::fresh();
            &&& head.blocked.0 == 0
            &&& (head.lhs.producer == 0 && head.lhs.consumer == 0 && head.lhs.sending == 0)
            &&& (head.rhs.producer == 0 && head.rhs.consumer == 0 && head.rhs.sending == 0)
        }),
{
}

/// A client that leaves gives its own slot back and stops sending. The ring is going down for the
/// other side, which keeps its slot, its indicator and all counts.
pub proof fn lemma_left_fields(info: RingInfo, head: RingHead, side: ClientSide)
    ensures
        ({
            let (after, left) = (info.left_by(side), head.left_by(side));
            let (mine, theirs) = if side == ClientSide::Left {
                (after.lhs, after.rhs)
            } else {
                (after.rhs, after.lhs)
            };
            &&& mine.0 == i64::MAX
            &&& theirs == (if side == ClientSide::Left {
                info.rhs
            } else {
                info.lhs
            })
            &&& (RingInfo { lhs: info.lhs, rhs: info.rhs, ..after }) == info
            &&& (left.blocked.0 as i32) < 0
            &&& left.lhs.sending == (if side == ClientSide::Left {
                0
            } else {
                head.lhs.sending
            })
            &&& left.rhs.sending == (if side == ClientSide::Right {
                0
            } else {
                head.rhs.sending
            })
            &&& (left.lhs.producer == head.lhs.producer && left.lhs.consumer == head.lhs.consumer)
            &&& (left.rhs.producer == head.rhs.producer && left.rhs.consumer == head.rhs.consumer)
        }),
{
    lemma_going_down(RingBlockedSlot::GOING_DOWN);
}

/// Writing a ring info changes no byte beside it.
pub proof fn lemma_info_outside(info: RingInfo, m: Seq<u8>, at: int, i: int)
    requires
        0 <= at,
        at + RING_INFO_SIZE <= m.len(),
        0 <= i < m.len(),
        !(at <= i < at + RING_INFO_SIZE),
    ensures
        info.written(m, at)[i] == m[i],
{
    let m1 = mapping::with_u64(m, at, info.version);
    let m2 = mapping::with_u64(m1, at + 8, info.offset_head.0);
    let m3 = mapping::with_u64(m2, at + 16, info.offset_ring.0);
    let m4 = mapping::with_u64(m3, at + 24, info.offset_data.0);
    let m5 = mapping::with_u64(m4, at + 32, info.size_head);
    let m6 = mapping::with_u64(m5, at + 40, info.size_ring);
    let m7 = mapping::with_u64(m6, at + 48, info.size_data);
    let m8 = mapping::with_u64(m7, at + 56, info.size_slot_entry);
    let m9 = mapping::with_i64(m8, at + 64, info.lhs.0);
    mapping::lemma_u64_outside(m, at, info.version);
    mapping::lemma_u64_outside(m1, at + 8, info.offset_head.0);
    mapping::lemma_u64_outside(m2, at + 16, info.offset_ring.0);
    mapping::lemma_u64_outside(m3, at + 24, info.offset_data.0);
    mapping::lemma_u64_outside(m4, at + 32, info.size_head);
    mapping::lemma_u64_outside(m5, at + 40, info.size_ring);
    mapping::lemma_u64_outside(m6, at + 48, info.size_data);
    mapping::lemma_u64_outside(m7, at + 56, info.size_slot_entry);
    mapping::lemma_u64_outside(m8, at + 64, info.lhs.0 as u64);
    mapping::lemma_u64_outside(m9, at + 96, info.rhs.0 as u64);
}

/// Writing a ring head changes no byte beside it.
pub proof fn lemma_head_outside(head: RingHead, m: Seq<u8>, at: int, i: int)
    requires
        0 <= at,
        at + RING_HEAD_SIZE <= m.len(),
        0 <= i < m.len(),
        !(at <= i < at + RING_HEAD_SIZE),
    ensures
        head.written(m, at)[i] == m[i],
{
    let m1 = mapping::with_u32(m, at, head.blocked.0);
    let m2 = mapping::with_u32(m1, at + 4, head.lhs.producer);
    let m3 = mapping::with_u32(m2, at + 8, head.lhs.consumer);
    let m4 = mapping::with_u32(m3, at + 12, head.lhs.sending);
    let m5 = mapping::with_u32(m4, at + 16, head.rhs.producer);
    let m6 = mapping::with_u32(m5, at + 20, head.rhs.consumer);
    mapping::lemma_u32_outside(m, at, head.blocked.0);
    mapping::lemma_u32_outside(m1, at + 4, head.lhs.producer);
    mapping::lemma_u32_outside(m2, at + 8, head.lhs.consumer);
    mapping::lemma_u32_outside(m3, at + 12, head.lhs.sending);
    mapping::lemma_u32_outside(m4, at + 16, head.rhs.producer);
    mapping::lemma_u32_outside(m5, at + 20, head.rhs.consumer);
    mapping::lemma_u32_outside(m6, at + 24, head.rhs.sending);
}

/// Writing the file head changes no byte behind it.
pub proof fn lemma_shm_head_outside(head: ShmHead, m: Seq<u8>, i: int)
    requires
        SHM_HEAD_SIZE <= i < m.len(),
    ensures
        head.written(m)[i] == m[i],
{
    let m1 = mapping::with_u64(m, 0, 0);
    let m2 = mapping::with_u64(m1, 8, head.ring_count);
    let m3 = mapping::with_u64(m2, 16, head.ring_offset);
    let m4 = mapping::with_u32(m3, 24, head.ring_ping.ring_ping.0);
    let m5 = mapping::with_u32(m4, 28, head.ring_ping.ring_pong.0);
    mapping::lemma_u64_outside(m, 0, 0);
    mapping::lemma_u64_outside(m1, 8, head.ring_count);
    mapping::lemma_u64_outside(m2, 16, head.ring_offset);
    mapping::lemma_u32_outside(m3, 24, head.ring_ping.ring_ping.0);
    mapping::lemma_u32_outside(m4, 28, head.ring_ping.ring_pong.0);
    mapping::lemma_u64_outside(m5, 0, head.ring_magic.0);
}

} // verus!
